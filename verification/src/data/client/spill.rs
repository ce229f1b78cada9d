//! The buffer on disk for encrypted chunks: what it holds, how its directory is
//! named, and when a directory that was left behind may be removed.

use vstd::prelude::*;
use vstd::string::*;

use crate::chunked::lower;
use crate::collections::{address_views, AddressMap, AddressSet};
use crate::data::client::file::UploadEvent;
use crate::data::data_map::addressed_apart;
use crate::data::error::{joined, message_text, Error};
use crate::protocol::{compute_address, content_address};
use crate::text::{
    decimal_text, decimal_text_parses_back, hex_encode, hex_text, parse_u64, parsed_up_to,
    push_decimal, same_text, split_once,
};

verus! {

/// Seconds before a directory that was left behind may be removed: a guard for
/// the moment between its creation and its locking.
pub const SPILL_STALE_GRACE_SECS: u64 = 30;

/// Share of the source file that has to be free on top of its size: one part
/// in this many.
pub const DISK_SPACE_HEADROOM_PERCENT: u64 = 10;

/// The addresses of chunks.
pub open spec fn addresses_of(chunks: Seq<Seq<u8>>) -> Seq<Seq<u8>> {
    chunks.map_values(|c: Seq<u8>| content_address(c))
}

/// The chunks without those whose address came before, in order.
pub open spec fn first_pushed(pushed: Seq<Seq<u8>>) -> Seq<Seq<u8>>
    decreases pushed.len(),
{
    if pushed.len() == 0 {
        pushed
    } else if addresses_of(pushed.drop_last()).contains(content_address(pushed.last())) {
        first_pushed(pushed.drop_last())
    } else {
        first_pushed(pushed.drop_last()).push(pushed.last())
    }
}

/// The sum of the lengths of chunks.
pub open spec fn total_length(chunks: Seq<Seq<u8>>) -> nat
    decreases chunks.len(),
{
    if chunks.len() == 0 {
        0
    } else {
        total_length(chunks.drop_last()) + chunks.last().len()
    }
}

/// What stands in the files after chunks were pushed, by address: each chunk is
/// written where none was written under its address before.
pub open spec fn written(pushed: Seq<Seq<u8>>) -> Map<Seq<u8>, Seq<u8>>
    decreases pushed.len(),
{
    if pushed.len() == 0 {
        Map::empty()
    } else {
        let before = written(pushed.drop_last());
        let address = content_address(pushed.last());
        if before.dom().contains(address) {
            before
        } else {
            before.insert(address, pushed.last())
        }
    }
}

proof fn lemma_push_addresses(chunks: Seq<Seq<u8>>, c: Seq<u8>)
    ensures
        addresses_of(chunks.push(c)) == addresses_of(chunks).push(content_address(c)),
        forall|a: Seq<u8>| #[trigger]
            addresses_of(chunks.push(c)).contains(a) == (addresses_of(chunks).contains(a) || a
                == content_address(c)),
{
    let list = addresses_of(chunks);
    let all = addresses_of(chunks.push(c));
    assert(all =~= list.push(content_address(c)));
    assert forall|a: Seq<u8>| #[trigger] all.contains(a) == (list.contains(a) || a
        == content_address(c)) by {
        assert(all[list.len() as int] == content_address(c));
        if list.contains(a) {
            let k = list.index_of(a);
            assert(all[k] == a);
        }
    }
}

/// Of what was pushed, one chunk of each address is kept, the first, in the order
/// of the pushes.
pub proof fn first_of_each_is_kept(pushed: Seq<Seq<u8>>)
    ensures
        addresses_of(first_pushed(pushed)).no_duplicates(),
        forall|a: Seq<u8>| #[trigger]
            addresses_of(first_pushed(pushed)).contains(a) == addresses_of(pushed).contains(a),
        forall|i: int|
            0 <= i < first_pushed(pushed).len() ==> pushed.contains(
                #[trigger] first_pushed(pushed)[i],
            ),
    decreases pushed.len(),
{
    if pushed.len() > 0 {
        let before = pushed.drop_last();
        let c = pushed.last();
        let kept = first_pushed(before);
        first_of_each_is_kept(before);
        assert(pushed =~= before.push(c));
        lemma_push_addresses(before, c);
        lemma_push_addresses(kept, c);
        assert forall|i: int| 0 <= i < first_pushed(pushed).len() implies pushed.contains(
            #[trigger] first_pushed(pushed)[i],
        ) by {
            if i < kept.len() {
                assert(before.contains(kept[i]));
                let k = before.index_of(kept[i]);
                assert(pushed[k] == kept[i]);
            } else {
                assert(pushed[pushed.len() - 1] == c);
            }
        }
        if !addresses_of(before).contains(content_address(c)) {
            let list = addresses_of(kept);
            let all = addresses_of(first_pushed(pushed));
            assert forall|i: int, j: int| 0 <= i < all.len() && 0 <= j < all.len() && i != j implies all[i]
                != all[j] by {
                assert(i < list.len() ==> list.contains(list[i]));
                assert(j < list.len() ==> list.contains(list[j]));
            }
        }
    } else {
        assert(addresses_of(first_pushed(pushed)) =~= addresses_of(pushed));
    }
}

/// Where no two different chunks share an address, every chunk that was pushed is
/// kept once.
pub proof fn every_pushed_chunk_is_kept(pushed: Seq<Seq<u8>>, i: int)
    requires
        addressed_apart(pushed),
        0 <= i < pushed.len(),
    ensures
        first_pushed(pushed).contains(pushed[i]),
        first_pushed(pushed).no_duplicates(),
{
    let kept = first_pushed(pushed);
    first_of_each_is_kept(pushed);
    assert(addresses_of(pushed)[i] == content_address(pushed[i]));
    assert(addresses_of(pushed).contains(content_address(pushed[i])));
    assert(addresses_of(kept).contains(content_address(pushed[i])));
    let k = addresses_of(kept).index_of(content_address(pushed[i]));
    assert(content_address(kept[k]) == content_address(pushed[i]));
    assert(pushed.contains(kept[k]));
    let m = pushed.index_of(kept[k]);
    assert(pushed[m] == kept[k]);
    assert forall|a: int, b: int| 0 <= a < kept.len() && 0 <= b < kept.len() && a != b implies kept[a]
        != kept[b] by {
        assert(addresses_of(kept)[a] != addresses_of(kept)[b]);
    }
}

/// Pushing a chunk again changes nothing.
pub proof fn pushing_again_changes_nothing(pushed: Seq<Seq<u8>>, i: int)
    requires
        0 <= i < pushed.len(),
    ensures
        first_pushed(pushed.push(pushed[i])) == first_pushed(pushed),
        written(pushed.push(pushed[i])) == written(pushed),
{
    let again = pushed.push(pushed[i]);
    assert(again.drop_last() =~= pushed);
    assert(addresses_of(pushed)[i] == content_address(pushed[i]));
    assert(addresses_of(pushed).contains(content_address(pushed[i])));
    lemma_written_addresses(pushed);
}

proof fn lemma_written_addresses(pushed: Seq<Seq<u8>>)
    ensures
        forall|a: Seq<u8>| #[trigger]
            written(pushed).dom().contains(a) == addresses_of(pushed).contains(a),
    decreases pushed.len(),
{
    if pushed.len() > 0 {
        let before = pushed.drop_last();
        lemma_written_addresses(before);
        assert(pushed =~= before.push(pushed.last()));
        lemma_push_addresses(before, pushed.last());
        assert forall|a: Seq<u8>| #[trigger]
            written(pushed).dom().contains(a) == addresses_of(pushed).contains(a) by {
            assert(addresses_of(before.push(pushed.last())).contains(a) == addresses_of(
                pushed,
            ).contains(a));
            assert(written(before).dom().contains(a) == addresses_of(before).contains(a));
        }
    } else {
        assert(addresses_of(pushed).len() == 0);
    }
}

/// A chunk that was pushed is read back by its address, where no two different
/// chunks share one.
pub proof fn pushed_chunk_reads_back(pushed: Seq<Seq<u8>>, i: int)
    requires
        addressed_apart(pushed),
        0 <= i < pushed.len(),
    ensures
        written(pushed).dom().contains(content_address(pushed[i])),
        written(pushed)[content_address(pushed[i])] == pushed[i],
    decreases pushed.len(),
{
    let before = pushed.drop_last();
    let c = pushed.last();
    assert forall|a: int, b: int|
        0 <= a < before.len() && 0 <= b < before.len() && content_address(#[trigger] before[a])
            == content_address(#[trigger] before[b]) implies before[a] == before[b] by {
        assert(before[a] == pushed[a] && before[b] == pushed[b]);
    }
    lemma_written_addresses(before);
    if i < before.len() {
        pushed_chunk_reads_back(before, i);
        assert(before[i] == pushed[i]);
    } else if written(before).dom().contains(content_address(c)) {
        assert(addresses_of(before).contains(content_address(c)));
        let k = addresses_of(before).index_of(content_address(c));
        assert(content_address(before[k]) == content_address(c));
        assert(pushed[k] == before[k] && pushed[i] == c);
        pushed_chunk_reads_back(before, k);
    }
}

/// The name of the file that holds a chunk.
pub fn chunk_file_name(address: &[u8; 32]) -> (r: String)
    ensures
        r@ == hex_text(address@),
{
    hex_encode(address)
}

/// Chunks written to disk, by their addresses. Every chunk is written once.
pub struct ChunkSpill {
    addresses: Vec<[u8; 32]>,
    seen: AddressSet,
    sizes: AddressMap<u64>,
    total_bytes: u64,
    pushed: Ghost<Seq<Seq<u8>>>,
}

/// The sum of the sizes of the addresses.
pub open spec fn sizes_sum(addresses: Seq<Seq<u8>>, sizes: Map<Seq<u8>, u64>) -> nat
    decreases addresses.len(),
{
    if addresses.len() == 0 {
        0
    } else {
        sizes_sum(addresses.drop_last(), sizes) + sizes[addresses.last()] as nat
    }
}

proof fn lemma_sizes_sum_insert(
    addresses: Seq<Seq<u8>>,
    sizes: Map<Seq<u8>, u64>,
    address: Seq<u8>,
    size: u64,
)
    requires
        !addresses.contains(address),
    ensures
        sizes_sum(addresses, sizes.insert(address, size)) == sizes_sum(addresses, sizes),
    decreases addresses.len(),
{
    if addresses.len() > 0 {
        let rest = addresses.drop_last();
        assert forall|i: int| 0 <= i < rest.len() implies rest[i] != address by {
            assert(addresses[i] == rest[i]);
        }
        assert(addresses.last() != address);
        lemma_sizes_sum_insert(rest, sizes, address, size);
    }
}

impl ChunkSpill {
    /// The addresses of the chunks, in the order in which they were written.
    pub closed spec fn order(&self) -> Seq<Seq<u8>> {
        address_views(self.addresses@)
    }

    /// The size of each chunk.
    pub closed spec fn sizes(&self) -> Map<Seq<u8>, u64> {
        self.sizes@
    }

    /// The sum of the sizes.
    pub closed spec fn bytes(&self) -> nat {
        self.total_bytes as nat
    }

    /// All chunks that were pushed, in order.
    pub closed spec fn pushed(&self) -> Seq<Seq<u8>> {
        self.pushed@
    }

    #[verifier::type_invariant]
    spec fn wf(&self) -> bool {
        &&& self.order() == self.seen.order()
        &&& self.order().no_duplicates()
        &&& forall|a: Seq<u8>| #[trigger] self.seen@.contains(a) <==> self.order().contains(a)
        &&& forall|a: Seq<u8>| #[trigger] self.sizes@.dom().contains(a) <==> self.order().contains(a)
        &&& self.total_bytes == sizes_sum(self.order(), self.sizes@)
        &&& self.order() == addresses_of(first_pushed(self.pushed()))
        &&& forall|i: int|
            0 <= i < self.order().len() ==> self.sizes@[#[trigger] self.order()[i]] == first_pushed(
                self.pushed(),
            )[i].len()
        &&& self.total_bytes == total_length(first_pushed(self.pushed()))
    }

    /// An empty buffer.
    pub fn new() -> (r: ChunkSpill)
        ensures
            r.order() == Seq::<Seq<u8>>::empty(),
            r.sizes() == Map::<Seq<u8>, u64>::empty(),
            r.bytes() == 0,
            r.pushed() == Seq::<Seq<u8>>::empty(),
    {
        let addresses: Vec<[u8; 32]> = Vec::new();
        assert(address_views(addresses@) =~= Seq::<Seq<u8>>::empty());
        assert(addresses_of(first_pushed(Seq::empty())) =~= Seq::<Seq<u8>>::empty());
        ChunkSpill {
            addresses,
            seen: AddressSet::new(),
            sizes: AddressMap::new(),
            total_bytes: 0,
            pushed: Ghost(Seq::empty()),
        }
    }

    /// Records a chunk: the name of the file that it has to be written to, or
    /// nothing where it was written before.
    pub fn push(&mut self, content: &[u8]) -> (r: Option<String>)
        requires
            old(self).bytes() + content@.len() <= u64::MAX,
        ensures
            final(self).pushed() == old(self).pushed().push(content@),
            r is Some <==> !written(old(self).pushed()).dom().contains(content_address(content@)),
            ({
                let address = content_address(content@);
                if old(self).order().contains(address) {
                    &&& r is None
                    &&& final(self).order() == old(self).order()
                    &&& final(self).sizes() == old(self).sizes()
                    &&& final(self).bytes() == old(self).bytes()
                } else {
                    &&& r matches Some(name) && name@ == hex_text(address)
                    &&& final(self).order() == old(self).order().push(address)
                    &&& final(self).sizes() == old(self).sizes().insert(
                        address,
                        content@.len() as u64,
                    )
                    &&& final(self).bytes() == old(self).bytes() + content@.len()
                }
            }),
    {
        proof {
            use_type_invariant(&*self);
        }
        let address = compute_address(content);
        let ghost before = *self;
        let ghost history = before.pushed().push(content@);
        let ghost kept = first_pushed(before.pushed());
        proof {
            first_of_each_is_kept(before.pushed());
            lemma_written_addresses(before.pushed());
            assert(history.drop_last() =~= before.pushed());
            assert(before.order().contains(address@) == addresses_of(before.pushed()).contains(
                address@,
            ));
        }
        let mut own = ChunkSpill::new();
        std::mem::swap(self, &mut own);
        let ChunkSpill { mut addresses, mut seen, mut sizes, total_bytes, pushed: _ } = own;
        if seen.contains(&address) {
            *self = ChunkSpill { addresses, seen, sizes, total_bytes, pushed: Ghost(history) };
            return None;
        }
        let size: u64 = content.len() as u64;
        let _ = seen.insert(address);
        sizes.insert(address, size);
        addresses.push(address);
        let ghost order = before.order().push(address@);
        proof {
            assert(address_views(addresses@) =~= order);
            assert(order.drop_last() =~= before.order());
            lemma_sizes_sum_insert(before.order(), before.sizes@, address@, size);
            assert forall|a: Seq<u8>| order.contains(a) <==> (before.order().contains(a) || a
                == address@) by {
                assert(order[order.len() - 1] == address@);
                if before.order().contains(a) {
                    let k = choose|k: int|
                        0 <= k < before.order().len() && before.order()[k] == a;
                    assert(order[k] == a);
                }
            }
            assert(order.no_duplicates());
            lemma_push_addresses(kept, content@);
            assert(first_pushed(history) == kept.push(content@));
            assert(kept.push(content@).drop_last() =~= kept);
            assert forall|i: int| 0 <= i < order.len() implies sizes@[#[trigger] order[i]]
                == first_pushed(history)[i].len() by {
                if i < before.order().len() {
                    assert(before.order()[i] == order[i]);
                    assert(before.order().contains(order[i]));
                }
            }
        }
        *self = ChunkSpill {
            addresses,
            seen,
            sizes,
            total_bytes: total_bytes + size,
            pushed: Ghost(history),
        };
        Some(chunk_file_name(&address))
    }

    /// Number of chunks stored: of the addresses that were pushed.
    pub fn len(&self) -> (r: usize)
        ensures
            r == self.order().len(),
            r == first_pushed(self.pushed()).len(),
    {
        proof {
            use_type_invariant(self);
        }
        self.addresses.len()
    }

    /// Total bytes of all spilled chunks.
    pub fn total_bytes(&self) -> (r: u64)
        ensures
            r == self.bytes(),
            self.bytes() == sizes_sum(self.order(), self.sizes()),
            r == total_length(first_pushed(self.pushed())),
    {
        proof {
            use_type_invariant(self);
        }
        self.total_bytes
    }

    /// The addresses, in order. No address occurs twice.
    pub fn addresses(&self) -> (r: &Vec<[u8; 32]>)
        ensures
            address_views(r@) == self.order(),
            self.order().no_duplicates(),
            address_views(r@) == addresses_of(first_pushed(self.pushed())),
    {
        proof {
            use_type_invariant(self);
        }
        &self.addresses
    }

    /// Address and byte-size pairs for all spilled chunks, in the order in which
    /// they were pushed first. There is a size for each of them.
    pub fn chunk_entries(&self) -> (r: Result<Vec<([u8; 32], u64)>, Error>)
        ensures
            r matches Ok(entries) && entries@.len() == self.order().len() && forall|i: int|
                0 <= i < entries@.len() ==> (#[trigger] entries@[i]).0@ == self.order()[i]
                    && entries@[i].1 == self.sizes()[self.order()[i]],
            r matches Ok(entries) && entries@.len() == first_pushed(self.pushed()).len()
                && forall|i: int|
                0 <= i < entries@.len() ==> (#[trigger] entries@[i]).0@ == content_address(
                    first_pushed(self.pushed())[i],
                ) && entries@[i].1 == first_pushed(self.pushed())[i].len(),
    {
        proof {
            use_type_invariant(self);
        }
        let mut entries: Vec<([u8; 32], u64)> = Vec::new();
        let mut i: usize = 0;
        while i < self.addresses.len()
            invariant
                i <= self.addresses.len(),
                self.wf(),
                entries@.len() == i,
                forall|k: int|
                    0 <= k < i ==> (#[trigger] entries@[k]).0@ == self.order()[k] && entries@[k].1
                        == self.sizes()[self.order()[k]],
            decreases self.addresses.len() - i,
        {
            let address: [u8; 32] = self.addresses[i];
            assert(self.order()[i as int] == address@);
            assert(self.order().contains(address@));
            match self.sizes.get(&address) {
                Some(size) => {
                    entries.push((address, *size));
                },
                None => {
                    return Err(
                        Error::Storage(
                            joined("missing size for spilled chunk ", hex_encode(&address).as_str()),
                        ),
                    );
                },
            }
            i = i + 1;
        }
        proof {
            let kept = first_pushed(self.pushed());
            assert forall|k: int| 0 <= k < entries@.len() implies (#[trigger] entries@[k]).0@
                == content_address(kept[k]) && entries@[k].1 == kept[k].len() by {
                assert(self.order()[k] == addresses_of(kept)[k]);
            }
        }
        Ok(entries)
    }
}

/// The name of the directory of a buffer that is made at time `now`.
pub open spec fn spill_name(now: nat, unique: nat) -> Seq<char> {
    "spill_"@ + decimal_text(now) + "_"@ + decimal_text(unique)
}

/// The name of a new buffer's directory: time and a random number.
pub fn spill_dir_name(now: u64, unique: u64) -> (r: String)
    ensures
        r@ == spill_name(now as nat, unique as nat),
{
    let mut name = "spill_".to_owned();
    push_decimal(&mut name, now as u128);
    name.append("_");
    push_decimal(&mut name, unique as u128);
    name
}

/// The characters up to the first `sep`, or all of them.
pub open spec fn up_to_first(s: Seq<char>, sep: char) -> Seq<char> {
    if s.contains(sep) {
        s.take(s.index_of_first(sep)->Some_0)
    } else {
        s
    }
}

/// The time in the name of a buffer's directory; nothing for other names.
pub open spec fn spill_time(name: Seq<char>) -> Option<nat> {
    if "spill_"@.is_prefix_of(name) {
        parsed_up_to(up_to_first(name.skip(6), '_'), u64::MAX as nat)
    } else {
        None
    }
}

proof fn lemma_up_to_first(head: Seq<char>, sep: char, tail: Seq<char>)
    requires
        !head.contains(sep),
    ensures
        up_to_first(head.push(sep) + tail, sep) == head,
{
    let s = head.push(sep) + tail;
    let n = head.len() as int;
    assert(s[n] == sep);
    assert(s.contains(sep));
    s.index_of_first_ensures(sep);
    let i = s.index_of_first(sep)->Some_0;
    if i < n {
        assert(head[i] == s[i]);
    }
    assert(i == n);
    assert(s.take(n) =~= head);
}

proof fn lemma_prefix_chars(prefix: Seq<char>, name: Seq<char>)
    requires
        prefix.is_prefix_of(name),
    ensures
        prefix.len() <= name.len(),
        forall|i: int| 0 <= i < prefix.len() ==> #[trigger] name[i] == prefix[i],
{
    assert forall|i: int| 0 <= i < prefix.len() implies #[trigger] name[i] == prefix[i] by {
        assert(name.subrange(0, prefix.len() as int)[i] == name[i]);
    }
}

/// Reads the time in the name of a buffer's directory.
fn parse_spill_time(name: &str) -> (r: Option<u64>)
    ensures
        match r {
            Some(t) => spill_time(name@) == Some(t as nat),
            None => spill_time(name@) is None,
        },
{
    proof {
        reveal_strlit("spill_");
        reveal_strlit("spill");
    }
    let (head, rest) = match split_once(name, '_') {
        Some(parts) => parts,
        None => {
            proof {
                if "spill_"@.is_prefix_of(name@) {
                    lemma_prefix_chars("spill_"@, name@);
                    assert(name@[5] == '_');
                }
            }
            return None;
        },
    };
    if !same_text(head, "spill") {
        proof {
            if "spill_"@.is_prefix_of(name@) {
                lemma_prefix_chars("spill_"@, name@);
                let n = head@.len() as int;
                assert(name@[5] == '_');
                assert(name@[n] == '_');
                if n > 5 {
                    assert(head@[5] == '_');
                }
                assert(n == 5) by {
                    if n < 5 {
                        assert(name@[n] == "spill_"@[n]);
                    }
                }
                assert(head@ =~= "spill"@) by {
                    assert forall|i: int| 0 <= i < 5 implies head@[i] == "spill"@[i] by {
                        assert(name@[i] == head@[i]);
                        assert(name@[i] == "spill_"@[i]);
                    }
                }
            }
        }
        return None;
    }
    proof {
        assert(head@.push('_') =~= "spill_"@);
        assert(name@.take(6) =~= "spill_"@);
        assert(name@.skip(6) =~= rest@);
    }
    match split_once(rest, '_') {
        Some((time, tail)) => {
            proof {
                lemma_up_to_first(time@, '_', tail@);
            }
            parse_u64(time)
        },
        None => parse_u64(rest),
    }
}

/// What is known of the lock file in a buffer's directory.
#[derive(Clone, Copy, Debug, PartialEq, Eq, Structural)]
pub enum LockState {
    /// There is none that can be opened.
    Absent,
    /// Some process holds it.
    Held,
    /// Nobody holds it.
    Free,
}

/// Whether a directory entry may be removed at time `now`: a directory, named
/// like a buffer's, past the grace period, and locked by nobody. A clock at
/// zero is broken, and nothing is removed by it.
pub open spec fn removable(now: u64, name: Seq<char>, is_dir: bool, lock: LockState) -> bool {
    &&& now != 0
    &&& spill_time(name) matches Some(t) && now >= t + SPILL_STALE_GRACE_SECS
    &&& is_dir
    &&& lock != LockState::Held
}

/// Whether the name and age of a directory entry make it one to look at.
pub fn may_be_stale(now: u64, name: &str) -> (r: bool)
    ensures
        r == removable(now, name@, true, LockState::Absent),
{
    if now == 0 {
        return false;
    }
    match parse_spill_time(name) {
        Some(t) => now.saturating_sub(t) >= SPILL_STALE_GRACE_SECS,
        None => false,
    }
}

/// Whether a directory entry may be removed.
pub fn may_remove(now: u64, name: &str, is_dir: bool, lock: LockState) -> (r: bool)
    ensures
        r == removable(now, name@, is_dir, lock),
{
    may_be_stale(now, name) && is_dir && lock != LockState::Held
}

/// The directory of a buffer is known by its name, and its age is that of the
/// buffer: it may be removed once the grace period is over, unless it is locked.
pub proof fn orphans_are_recognised(made: u64, unique: u64, now: u64, lock: LockState)
    requires
        now != 0,
    ensures
        spill_time(spill_name(made as nat, unique as nat)) == Some(made as nat),
        removable(now, spill_name(made as nat, unique as nat), true, lock) <==> (lock
            != LockState::Held && now >= made + SPILL_STALE_GRACE_SECS),
{
    reveal_strlit("spill_");
    reveal_strlit("_");
    let name = spill_name(made as nat, unique as nat);
    let time = decimal_text(made as nat);
    let tail = decimal_text(unique as nat);
    decimal_text_parses_back(made as nat);
    assert(name.take(6) =~= "spill_"@);
    assert(name.skip(6) =~= time.push('_') + tail);
    assert(!time.contains('_'));
    lemma_up_to_first(time, '_', tail);
}

/// Bytes that have to be free for a source file of this size.
pub open spec fn bytes_needed(file_size: u64) -> int {
    lower(file_size + file_size / DISK_SPACE_HEADROOM_PERCENT, u64::MAX as int)
}

/// Tests that there is room for the chunks of a source file: its size and a
/// tenth of it.
pub fn check_disk_space_for_spill(file_size: u64, available: u64, spill_root: &str) -> (r: Result<
    (),
    Error,
>)
    ensures
        r is Ok <==> available >= bytes_needed(file_size),
        r matches Err(e) ==> e matches Error::InsufficientDiskSpace(m) && m@ == "need ~"@
            + decimal_text((bytes_needed(file_size) / 1_048_576) as nat) + " MB in spill dir ("@
            + spill_root@ + ") but only "@ + decimal_text((available / 1_048_576) as nat)
            + " MB available"@,
{
    let headroom: u64 = file_size / DISK_SPACE_HEADROOM_PERCENT;
    let required: u64 = file_size.saturating_add(headroom);
    if available < required {
        let mut m = "need ~".to_owned();
        push_decimal(&mut m, (required / 1_048_576) as u128);
        m.append(" MB in spill dir (");
        m.append(spill_root);
        m.append(") but only ");
        push_decimal(&mut m, (available / 1_048_576) as u128);
        m.append(" MB available");
        return Err(Error::InsufficientDiskSpace(m));
    }
    Ok(())
}

/// Encrypting a file, chunk by chunk. A failure to read the file looks like its
/// end to the encryption, so it goes before everything that follows it.
pub enum EncryptionEnd {
    /// The file was not read to its end.
    Unread(String),
    /// The encryption failed.
    Failed(String),
    /// There is no data map.
    NoDataMap,
    /// Nobody takes the chunks any more.
    ReceiverDropped,
    /// The file is too large for this machine.
    TooLarge(String),
    /// The task that encrypts ended early.
    Panicked(String),
    /// The task that encrypts failed with this error.
    Task(Error),
}

/// Whether a chunk that the encryption made may be kept: not where reading or
/// encrypting failed.
pub fn accept_chunk(read_error: Option<String>, chunk: Result<Vec<u8>, String>) -> (r: Result<
    Vec<u8>,
    Error,
>)
    ensures
        match read_error {
            Some(text) => r matches Err(Error::Io(m)) && m@ == text@,
            None => match chunk {
                Ok(content) => r == Ok::<Vec<u8>, Error>(content),
                Err(text) => r matches Err(Error::Encryption(m)) && m@
                    == "chunk encryption failed: "@ + text@,
            },
        },
{
    match read_error {
        Some(text) => Err(Error::Io(text)),
        None => match chunk {
            Ok(content) => Ok(content),
            Err(text) => Err(Error::Encryption(joined("chunk encryption failed: ", text.as_str()))),
        },
    }
}

/// The error with which the encryption of a file ends.
pub fn encryption_error(end: EncryptionEnd) -> (r: Error)
    ensures
        match end {
            EncryptionEnd::Unread(text) => r matches Error::Io(m) && m@ == text@,
            EncryptionEnd::Failed(text) => r matches Error::Encryption(m) && m@
                == "stream_encrypt failed: "@ + text@,
            EncryptionEnd::NoDataMap => r matches Error::Encryption(m) && m@
                == "no DataMap after encryption"@,
            EncryptionEnd::ReceiverDropped => r matches Error::Encryption(m) && m@
                == "upload receiver dropped"@,
            EncryptionEnd::TooLarge(text) => r matches Error::Encryption(m) && m@
                == "file size exceeds platform usize: "@ + text@,
            EncryptionEnd::Panicked(text) => r matches Error::Encryption(m) && m@
                == "encryption task panicked: "@ + text@,
            EncryptionEnd::Task(e) => r matches Error::Encryption(m) && m@
                == "encryption failed: "@ + message_text(e),
        },
{
    match end {
        EncryptionEnd::Unread(text) => Error::Io(text),
        EncryptionEnd::Failed(text) => Error::Encryption(
            joined("stream_encrypt failed: ", text.as_str()),
        ),
        EncryptionEnd::NoDataMap => Error::Encryption("no DataMap after encryption".to_owned()),
        EncryptionEnd::ReceiverDropped => Error::Encryption("upload receiver dropped".to_owned()),
        EncryptionEnd::TooLarge(text) => Error::Encryption(
            joined("file size exceeds platform usize: ", text.as_str()),
        ),
        EncryptionEnd::Panicked(text) => Error::Encryption(
            joined("encryption task panicked: ", text.as_str()),
        ),
        EncryptionEnd::Task(e) => Error::Encryption(
            joined("encryption failed: ", e.message().as_str()),
        ),
    }
}

/// Progress of encryption is reported at every tenth chunk.
pub fn encryption_event(chunks_done: usize) -> (r: Option<UploadEvent>)
    ensures
        r == if chunks_done as int % 10 == 0 {
            Some(UploadEvent::Encrypting { chunks_done })
        } else {
            None
        },
{
    if chunks_done % 10 == 0 {
        Some(UploadEvent::Encrypting { chunks_done })
    } else {
        None
    }
}

/// The error where a chunk cannot be read back.
pub fn read_back_error(address: &[u8; 32], reason: &str) -> (r: Error)
    ensures
        r matches Error::Io(m) && m@ == "reading spilled chunk "@ + hex_text(address@) + ": "@
            + reason@,
{
    let mut m = joined("reading spilled chunk ", hex_encode(address).as_str());
    m.append(": ");
    m.append(reason);
    Error::Io(m)
}

/// The room that has to be free is that of the file and a tenth of it, as far as it can
/// be counted.
pub proof fn room_is_the_file_and_a_tenth(file_size: u64)
    ensures
        bytes_needed(file_size) >= file_size,
        bytes_needed(file_size) < u64::MAX ==> 10 * (bytes_needed(file_size) - file_size)
            <= file_size < 10 * (bytes_needed(file_size) - file_size + 1),
{
}

/// The lengths of chunks add up, one by one, and so do the sizes of addresses.
pub proof fn lengths_add_up(
    a: Seq<Seq<u8>>,
    b: Seq<Seq<u8>>,
    one: Seq<u8>,
    sizes: Map<Seq<u8>, u64>,
)
    ensures
        total_length(Seq::empty()) == 0,
        total_length(seq![one]) == one.len(),
        total_length(a + b) == total_length(a) + total_length(b),
        sizes_sum(seq![one], sizes) == sizes[one],
        sizes_sum(a + b, sizes) == sizes_sum(a, sizes) + sizes_sum(b, sizes),
    decreases b.len(),
{
    let none = Seq::<Seq<u8>>::empty();
    assert(seq![one].drop_last() =~= none);
    assert(seq![one].last() == one);
    assert(total_length(none) == 0);
    assert(sizes_sum(none, sizes) == 0);
    if b.len() == 0 {
        assert(a + b =~= a);
    } else {
        lengths_add_up(a, b.drop_last(), one, sizes);
        assert((a + b).drop_last() =~= a + b.drop_last());
        assert((a + b).last() == b.last());
    }
}

} // verus!
