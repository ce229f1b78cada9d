//! Choosing among collected quotes.

use vstd::prelude::*;

use crate::collections::{AddressMap, AddressSet};
use crate::data::client::quote::{StoreQuote, MEDIAN_QUOTE_INDEX};
use crate::order::{
    lemma_sort_map, sort_by_keys, sorted_place_is_the_rank, stable_sort,
    stable_sort_orders_and_keeps,
};
use crate::protocol::{CLOSE_GROUP_MAJORITY, CLOSE_GROUP_SIZE};
use crate::uint256::{Amount, U256};
use crate::xor::{distance, peer_distance, PeerId};

verus! {

/// Price of a quote.
pub open spec fn price_key() -> spec_fn(StoreQuote) -> nat {
    |q: StoreQuote| q.3.value()
}

/// Distance of a quote's issuer from an address.
pub open spec fn issuer_distance(address: Seq<u8>) -> spec_fn(StoreQuote) -> nat {
    |q: StoreQuote| distance(q.0@, address)
}

/// The quote that is paid: the one in the middle by price, earlier quotes
/// first among equal prices.
pub open spec fn paid_median(quotes: Seq<StoreQuote>) -> StoreQuote {
    stable_sort(quotes, price_key())[MEDIAN_QUOTE_INDEX as int]
}

spec fn offer_of() -> spec_fn(StoreQuote) -> (PeerId, Amount) {
    |q: StoreQuote| (q.0, q.3)
}

fn middle_offer(offers: Vec<(PeerId, Amount)>, Ghost(quotes): Ghost<Seq<StoreQuote>>) -> (r: (
    PeerId,
    Amount,
))
    requires
        offers@ == quotes.map_values(offer_of()),
        quotes.len() > MEDIAN_QUOTE_INDEX,
    ensures
        r == (paid_median(quotes).0, paid_median(quotes).3),
{
    let mut keys: Vec<U256> = Vec::new();
    let mut i: usize = 0;
    let ghost key = |e: (PeerId, Amount)| e.1.value();
    while i < offers.len()
        invariant
            i <= offers.len(),
            keys.len() == i,
            key == (|e: (PeerId, Amount)| e.1.value()),
            forall|k: int| 0 <= k < i ==> (#[trigger] keys[k]).value() == key(offers[k]),
        decreases offers.len() - i,
    {
        keys.push(offers[i].1);
        i = i + 1;
    }
    let ghost raw = offers@;
    let sorted = sort_by_keys(offers, &keys, Ghost(key));
    proof {
        lemma_sort_map(quotes, offer_of(), price_key(), key);
        stable_sort_orders_and_keeps(quotes, price_key());
        let m = stable_sort(quotes, price_key()).map_values(offer_of());
        assert(m == sorted@);
        assert(m[MEDIAN_QUOTE_INDEX as int] == offer_of()(paid_median(quotes)));
    }
    sorted[MEDIAN_QUOTE_INDEX]
}

/// Who issued the quote that is paid, and its price.
pub fn median_paid_quote_issuer(quotes: &Vec<StoreQuote>) -> (r: Option<(PeerId, Amount)>)
    ensures
        r == if quotes@.len() <= MEDIAN_QUOTE_INDEX {
            None
        } else {
            Some((paid_median(quotes@).0, paid_median(quotes@).3))
        },
{
    if quotes.len() <= MEDIAN_QUOTE_INDEX {
        return None;
    }
    let mut offers: Vec<(PeerId, Amount)> = Vec::new();
    let mut i: usize = 0;
    while i < quotes.len()
        invariant
            i <= quotes.len(),
            offers@ =~= quotes@.map_values(offer_of()).take(i as int),
        decreases quotes.len() - i,
    {
        let q = &quotes[i];
        offers.push((q.0, q.3));
        i = i + 1;
    }
    assert(offers@ =~= quotes@.map_values(offer_of()));
    Some(middle_offer(offers, Ghost(quotes@)))
}

/// The quotes at the given positions.
pub open spec fn pick(quotes: Seq<StoreQuote>, indices: Seq<usize>) -> Seq<StoreQuote> {
    Seq::new(indices.len(), |i: int| quotes[indices[i] as int])
}

/// Whether all positions lie in a sequence of `n` quotes.
pub open spec fn in_range(indices: Seq<usize>, n: int) -> bool {
    forall|i: int| 0 <= i < indices.len() ==> (#[trigger] indices[i]) < n
}

/// Who would be paid if the quotes at `indices` were chosen.
pub fn median_paid_quote_issuer_for_indices(
    quotes: &Vec<StoreQuote>,
    indices: &Vec<usize>,
) -> (r: Option<(PeerId, Amount)>)
    requires
        in_range(indices@, quotes@.len() as int),
    ensures
        r == if indices@.len() <= MEDIAN_QUOTE_INDEX {
            None
        } else {
            let m = paid_median(pick(quotes@, indices@));
            Some((m.0, m.3))
        },
{
    if indices.len() <= MEDIAN_QUOTE_INDEX {
        return None;
    }
    let mut offers: Vec<(PeerId, Amount)> = Vec::new();
    let mut i: usize = 0;
    let ghost picked = pick(quotes@, indices@);
    while i < indices.len()
        invariant
            i <= indices.len(),
            picked == pick(quotes@, indices@),
            in_range(indices@, quotes@.len() as int),
            offers@ =~= picked.map_values(offer_of()).take(i as int),
        decreases indices.len() - i,
    {
        assert(indices@[i as int] < quotes@.len());
        let q = &quotes[indices[i]];
        offers.push((q.0, q.3));
        i = i + 1;
    }
    assert(offers@ =~= picked.map_values(offer_of()));
    Some(middle_offer(offers, Ghost(picked)))
}

/// How many of the quotes were issued by one of the voters.
pub open spec fn support(selected: Seq<StoreQuote>, voters: Set<Seq<u8>>) -> nat
    decreases selected.len(),
{
    if selected.len() == 0 {
        0
    } else {
        support(selected.drop_last(), voters) + if voters.contains(selected.last().0@) {
            1nat
        } else {
            0nat
        }
    }
}

/// Whether a close-group majority of the chosen issuers vouches for the one
/// that would be paid.
pub open spec fn supported(
    selected: Seq<StoreQuote>,
    voters_by_peer: Map<Seq<u8>, AddressSet>,
) -> bool {
    let paid = paid_median(selected).0@;
    &&& selected.len() > MEDIAN_QUOTE_INDEX
    &&& voters_by_peer.dom().contains(paid)
    &&& support(selected, voters_by_peer[paid]@) >= CLOSE_GROUP_MAJORITY
}

/// The issuer that would be paid, and how many of the chosen issuers vouch for
/// it.
pub fn median_issuer_voter_support(
    quotes: &Vec<StoreQuote>,
    indices: &Vec<usize>,
    voters_by_peer: &AddressMap<AddressSet>,
) -> (r: Option<(PeerId, usize)>)
    requires
        in_range(indices@, quotes@.len() as int),
    ensures
        ({
            let selected = pick(quotes@, indices@);
            let paid = paid_median(selected).0;
            match r {
                None => indices@.len() <= MEDIAN_QUOTE_INDEX || !voters_by_peer@.dom().contains(
                    paid@,
                ),
                Some((p, n)) => indices@.len() > MEDIAN_QUOTE_INDEX && p == paid
                    && voters_by_peer@.dom().contains(paid@) && n == support(
                    selected,
                    voters_by_peer@[paid@]@,
                ),
            }
        }),
{
    let (median, _) = match median_paid_quote_issuer_for_indices(quotes, indices) {
        Some(m) => m,
        None => {
            return None;
        },
    };
    match voters_by_peer.get(&median.0) {
        None => None,
        Some(voters) => {
            let ghost selected = pick(quotes@, indices@);
            let mut n: usize = 0;
            let mut i: usize = 0;
            assert(selected.take(0) =~= Seq::empty());
            while i < indices.len()
                invariant
                    i <= indices.len(),
                    n <= i,
                    selected == pick(quotes@, indices@),
                    in_range(indices@, quotes@.len() as int),
                    n == support(selected.take(i as int), voters@),
                decreases indices.len() - i,
            {
                assert(indices@[i as int] < quotes@.len());
                proof {
                    assert(selected.take(i + 1).drop_last() =~= selected.take(i as int));
                    assert(selected.take(i + 1).last() == quotes@[indices@[i as int] as int]);
                }
                if voters.contains(&quotes[indices[i]].0.0) {
                    n = n + 1;
                }
                i = i + 1;
            }
            assert(selected.take(i as int) =~= selected);
            Some((median, n))
        },
    }
}

/// Lexicographic order.
pub open spec fn lex_le(a: Seq<usize>, b: Seq<usize>) -> bool
    decreases a.len(),
{
    a.len() == 0 || (b.len() > 0 && (a[0] < b[0] || (a[0] == b[0] && lex_le(
        a.drop_first(),
        b.drop_first(),
    ))))
}

proof fn lemma_lex_total(a: Seq<usize>, b: Seq<usize>)
    ensures
        lex_le(a, b) || lex_le(b, a),
    decreases a.len(),
{
    if a.len() > 0 && b.len() > 0 {
        lemma_lex_total(a.drop_first(), b.drop_first());
    }
}

proof fn lemma_lex_trans(a: Seq<usize>, b: Seq<usize>, c: Seq<usize>)
    requires
        lex_le(a, b),
        lex_le(b, c),
    ensures
        lex_le(a, c),
    decreases a.len(),
{
    if a.len() > 0 && a[0] == b[0] && b[0] == c[0] {
        lemma_lex_trans(a.drop_first(), b.drop_first(), c.drop_first());
    }
}

proof fn lemma_lex_refl(a: Seq<usize>)
    ensures
        lex_le(a, a),
    decreases a.len(),
{
    if a.len() > 0 {
        lemma_lex_refl(a.drop_first());
    }
}

/// Whether `a` does not come behind `b` in lexicographic order.
fn not_behind(a: &Vec<usize>, b: &Vec<usize>) -> (r: bool)
    ensures
        r == lex_le(a@, b@),
{
    let mut i: usize = 0;
    assert(a@.skip(0) =~= a@);
    assert(b@.skip(0) =~= b@);
    while i < a.len()
        invariant
            i <= a.len(),
            i <= b.len(),
            lex_le(a@, b@) == lex_le(a@.skip(i as int), b@.skip(i as int)),
        decreases a.len() - i,
    {
        let ghost x = a@.skip(i as int);
        let ghost y = b@.skip(i as int);
        if i >= b.len() {
            return false;
        }
        if a[i] < b[i] {
            return true;
        }
        if a[i] > b[i] {
            return false;
        }
        assert(x.drop_first() =~= a@.skip(i + 1));
        assert(y.drop_first() =~= b@.skip(i + 1));
        i = i + 1;
    }
    true
}

/// `k` positions below `n`, in ascending order.
pub open spec fn is_choice(n: int, k: int, s: Seq<usize>) -> bool {
    &&& s.len() == k
    &&& in_range(s, n)
    &&& forall|i: int, j: int| 0 <= i < j < s.len() ==> (#[trigger] s[i]) < (#[trigger] s[j])
}

/// The choices of `k` positions below `n` that begin with `current` and go on
/// with positions from `start` on, in lexicographic order.
pub open spec fn subsets(n: int, k: int, start: int, current: Seq<usize>) -> Seq<Seq<usize>>
    decreases n + 1 - start,
{
    if current.len() >= k {
        seq![current]
    } else if start < 0 || start > n - (k - current.len()) {
        Seq::empty()
    } else {
        subsets(n, k, start + 1, current.push(start as usize)) + subsets(n, k, start + 1, current)
    }
}

/// `len` positions from `start` on and below `n`, in ascending order.
pub open spec fn is_extension(n: int, len: int, start: int, s: Seq<usize>) -> bool {
    &&& s.len() == len
    &&& forall|i: int| 0 <= i < s.len() ==> start <= (#[trigger] s[i]) < n
    &&& forall|i: int, j: int| 0 <= i < j < s.len() ==> (#[trigger] s[i]) < (#[trigger] s[j])
}

/// Everything that is enumerated begins with the given positions and goes on with
/// ascending ones from `start` on.
pub proof fn subsets_extend_the_prefix(n: int, k: int, start: int, current: Seq<usize>, m: int)
    requires
        current.len() <= k,
        0 <= start,
        n <= usize::MAX,
        0 <= m < subsets(n, k, start, current).len(),
    ensures
        ({
            let s = subsets(n, k, start, current)[m];
            let c = current.len() as int;
            &&& s.len() == k
            &&& s.take(c) == current
            &&& is_extension(n, k - c, start, s.skip(c))
        }),
    decreases n + 1 - start,
{
    let c = current.len() as int;
    if c == k {
        assert(current.take(c) =~= current);
    } else if start <= n - (k - c) {
        let longer = current.push(start as usize);
        let a = subsets(n, k, start + 1, longer);
        let b = subsets(n, k, start + 1, current);
        if m < a.len() {
            subsets_extend_the_prefix(n, k, start + 1, longer, m);
            let s = (a + b)[m];
            assert(s == a[m]);
            assert(s.take(c) =~= longer.take(c + 1).take(c));
            assert(longer.take(c) =~= current);
            assert(s[c] == s.take(c + 1)[c]);
            let rest = s.skip(c + 1);
            assert forall|i: int| 0 <= i < s.skip(c).len() implies start <= (#[trigger] s.skip(
                c,
            )[i]) < n by {
                if i > 0 {
                    assert(s.skip(c)[i] == rest[i - 1]);
                }
            }
            assert forall|i: int, j: int| 0 <= i < j < s.skip(c).len() implies (#[trigger] s.skip(
                c,
            )[i]) < (#[trigger] s.skip(c)[j]) by {
                assert(s.skip(c)[j] == rest[j - 1]);
                if i > 0 {
                    assert(s.skip(c)[i] == rest[i - 1]);
                }
            }
        } else {
            subsets_extend_the_prefix(n, k, start + 1, current, m - a.len());
            let s = (a + b)[m];
            assert(s == b[m - a.len()]);
            assert forall|i: int| 0 <= i < s.skip(c).len() implies start <= (#[trigger] s.skip(
                c,
            )[i]) < n by {}
        }
    }
}

proof fn lemma_extension_gap(n: int, len: int, start: int, s: Seq<usize>, i: int)
    requires
        is_extension(n, len, start, s),
        0 <= i < len,
    ensures
        s[i] <= n - (len - i),
    decreases len - i,
{
    if i < len - 1 {
        lemma_extension_gap(n, len, start, s, i + 1);
        assert(s[i] < s[i + 1]);
    }
}

proof fn lemma_choice_gap(n: int, k: int, s: Seq<usize>, i: int)
    requires
        is_choice(n, k, s),
        0 <= i < k,
    ensures
        s[i] <= n - (k - i),
{
    lemma_extension_gap(n, k, 0, s, i);
}

/// Every ascending continuation of the given positions is enumerated.
pub proof fn extensions_are_enumerated(
    n: int,
    k: int,
    start: int,
    current: Seq<usize>,
    s: Seq<usize>,
)
    requires
        current.len() <= k,
        0 <= start,
        n <= usize::MAX,
        is_extension(n, k - current.len(), start, s),
    ensures
        subsets(n, k, start, current).contains(current + s),
    decreases n + 1 - start,
{
    let c = current.len() as int;
    if c == k {
        assert(current + s =~= current);
        assert(subsets(n, k, start, current)[0] == current);
    } else {
        lemma_extension_gap(n, k - c, start, s, 0);
        let longer = current.push(start as usize);
        let a = subsets(n, k, start + 1, longer);
        let b = subsets(n, k, start + 1, current);
        if s[0] == start {
            let rest = s.skip(1);
            assert forall|i: int| 0 <= i < rest.len() implies start + 1 <= (#[trigger] rest[i]) < n by {
                assert(s[0] < s[i + 1]);
            }
            extensions_are_enumerated(n, k, start + 1, longer, rest);
            assert(longer + rest =~= current + s);
            let m = choose|m: int| 0 <= m < a.len() && a[m] == current + s;
            assert((a + b)[m] == current + s);
        } else {
            assert forall|i: int| 0 <= i < s.len() implies start + 1 <= (#[trigger] s[i]) < n by {
                if i > 0 {
                    assert(s[0] < s[i]);
                }
            }
            extensions_are_enumerated(n, k, start + 1, current, s);
            let m = choose|m: int| 0 <= m < b.len() && b[m] == current + s;
            assert((a + b)[a.len() + m] == current + s);
        }
    }
}

proof fn lemma_lex_behind_prefix(p: Seq<usize>, a: Seq<usize>, b: Seq<usize>)
    requires
        p.len() < a.len(),
        p.len() < b.len(),
        a.take(p.len() as int) == p,
        b.take(p.len() as int) == p,
        a[p.len() as int] < b[p.len() as int],
    ensures
        lex_le(a, b),
        a != b,
    decreases p.len(),
{
    if p.len() > 0 {
        let c = p.len() as int;
        assert(a[0] == a.take(c)[0] && b[0] == b.take(c)[0]);
        assert(a.drop_first().take(c - 1) =~= a.take(c).drop_first());
        assert(b.drop_first().take(c - 1) =~= b.take(c).drop_first());
        lemma_lex_behind_prefix(p.drop_first(), a.drop_first(), b.drop_first());
    }
}

/// What is enumerated comes in lexicographic order, and nothing comes twice.
pub proof fn subsets_come_in_order(
    n: int,
    k: int,
    start: int,
    current: Seq<usize>,
    i: int,
    j: int,
)
    requires
        current.len() <= k,
        0 <= start,
        n <= usize::MAX,
        0 <= i < j < subsets(n, k, start, current).len(),
    ensures
        lex_le(subsets(n, k, start, current)[i], subsets(n, k, start, current)[j]),
        subsets(n, k, start, current)[i] != subsets(n, k, start, current)[j],
    decreases n + 1 - start,
{
    let c = current.len() as int;
    if c < k && start <= n - (k - c) {
        let longer = current.push(start as usize);
        let a = subsets(n, k, start + 1, longer);
        let b = subsets(n, k, start + 1, current);
        if j < a.len() {
            subsets_come_in_order(n, k, start + 1, longer, i, j);
            assert((a + b)[i] == a[i] && (a + b)[j] == a[j]);
        } else if i >= a.len() {
            subsets_come_in_order(n, k, start + 1, current, i - a.len(), j - a.len());
            assert((a + b)[i] == b[i - a.len()] && (a + b)[j] == b[j - a.len()]);
        } else {
            let x = a[i];
            let y = b[j - a.len()];
            assert((a + b)[i] == x && (a + b)[j] == y);
            subsets_extend_the_prefix(n, k, start + 1, longer, i);
            subsets_extend_the_prefix(n, k, start + 1, current, j - a.len());
            assert(x.take(c) =~= x.take(c + 1).take(c));
            assert(longer.take(c) =~= current);
            assert(x[c] == x.take(c + 1)[c]);
            assert(y[c] == y.skip(c)[0]);
            lemma_lex_behind_prefix(current, x, y);
        }
    }
}

/// What an enumeration calls with each choice.
pub trait SubsetVisitor {
    /// The choices that it was called with, in order.
    spec fn seen(&self) -> Seq<Seq<usize>>;

    /// Whether it can be called.
    spec fn ready(&self) -> bool;

    /// Whether it can be called with these positions.
    spec fn takes(&self, indices: Seq<usize>) -> bool;

    /// Whether it is the same visitor, but for what it has seen.
    spec fn same_visitor(&self, other: &Self) -> bool;

    /// A visitor is the same as itself, and so on.
    proof fn same_again(&self, other: &Self, third: &Self)
        ensures
            self.same_visitor(self),
            self.same_visitor(other) && other.same_visitor(third) ==> self.same_visitor(third),
            self.same_visitor(other) ==> forall|s: Seq<usize>| #[trigger]
                self.takes(s) == other.takes(s),
    ;

    fn visit(&mut self, indices: &Vec<usize>)
        requires
            old(self).ready(),
            old(self).takes(indices@),
        ensures
            final(self).ready(),
            final(self).same_visitor(old(self)),
            final(self).seen() == old(self).seen().push(indices@),
    ;
}

/// Looks for the first choice of quotes whose paid issuer has enough support.
pub struct SubsetSearch<'a> {
    pub quotes: &'a Vec<StoreQuote>,
    pub voters_by_peer: &'a AddressMap<AddressSet>,
    /// The lexicographically first supported choice so far.
    pub best: Option<Vec<usize>>,
    /// The choices visited so far.
    pub visited: Ghost<Seq<Seq<usize>>>,
}

impl<'a> SubsetSearch<'a> {
    /// Whether the choice has enough support.
    pub open spec fn good(&self, s: Seq<usize>) -> bool {
        supported(pick(self.quotes@, s), self.voters_by_peer@)
    }

    /// `best` is the first supported choice among those visited.
    pub open spec fn wf(&self) -> bool {
        match self.best {
            None => forall|m: int|
                0 <= m < self.visited@.len() ==> !self.good(#[trigger] self.visited@[m]),
            Some(b) => {
                &&& self.visited@.contains(b@)
                &&& self.good(b@)
                &&& forall|m: int|
                    0 <= m < self.visited@.len() && self.good(#[trigger] self.visited@[m])
                        ==> lex_le(b@, self.visited@[m])
            },
        }
    }

}

impl<'a> SubsetVisitor for SubsetSearch<'a> {
    open spec fn seen(&self) -> Seq<Seq<usize>> {
        self.visited@
    }

    open spec fn ready(&self) -> bool {
        self.wf()
    }

    open spec fn takes(&self, indices: Seq<usize>) -> bool {
        in_range(indices, self.quotes@.len() as int)
    }

    open spec fn same_visitor(&self, other: &Self) -> bool {
        self.quotes == other.quotes && self.voters_by_peer == other.voters_by_peer
    }

    proof fn same_again(&self, other: &Self, third: &Self) {
    }

    /// Takes one choice into account.
    fn visit(&mut self, indices: &Vec<usize>) {
        let ghost before = self.visited@;
        let ghost after = before.push(indices@);
        proof {
            assert(after[before.len() as int] == indices@);
            assert(after.contains(indices@));
            assert forall|x: Seq<usize>| before.contains(x) implies after.contains(x) by {
                let m = choose|m: int| 0 <= m < before.len() && before[m] == x;
                assert(after[m] == x);
            }
            lemma_lex_refl(indices@);
        }
        let enough = match median_issuer_voter_support(self.quotes, indices, self.voters_by_peer) {
            Some((_, n)) => n >= CLOSE_GROUP_MAJORITY,
            None => false,
        };
        assert(enough == self.good(indices@));
        if enough {
            let keep = match &self.best {
                Some(b) => not_behind(b, indices),
                None => false,
            };
            if !keep {
                proof {
                    if self.best is Some {
                        let b = self.best->0@;
                        lemma_lex_total(b, indices@);
                        assert forall|m: int|
                            0 <= m < before.len() && self.good(#[trigger] before[m]) implies lex_le(
                            indices@,
                            before[m],
                        ) by {
                            lemma_lex_trans(indices@, b, before[m]);
                        }
                    }
                }
                let copy = indices.clone();
                assert(copy@ =~= indices@);
                self.best = Some(copy);
            }
        }
        self.visited = Ghost(after);
        assert forall|m: int| 0 <= m < before.len() implies after[m] == before[m] by {}
    }
}

/// Visits every choice of `subset_size` positions that begins with `current`
/// and goes on from `start_index`, in lexicographic order.
pub fn visit_quote_subsets<V: SubsetVisitor>(
    quote_count: usize,
    subset_size: usize,
    start_index: usize,
    current: &mut Vec<usize>,
    visitor: &mut V,
)
    requires
        old(current)@.len() <= subset_size,
        subset_size - old(current)@.len() <= quote_count,
        old(visitor).ready(),
        forall|m: int|
            0 <= m < subsets(
                quote_count as int,
                subset_size as int,
                start_index as int,
                old(current)@,
            ).len() ==> old(visitor).takes(
                #[trigger] subsets(
                    quote_count as int,
                    subset_size as int,
                    start_index as int,
                    old(current)@,
                )[m],
            ),
    ensures
        final(current)@ == old(current)@,
        final(visitor).ready(),
        final(visitor).same_visitor(old(visitor)),
        final(visitor).seen() == old(visitor).seen() + subsets(
            quote_count as int,
            subset_size as int,
            start_index as int,
            old(current)@,
        ),
    decreases quote_count + 1 - start_index,
{
    let ghost cur = current@;
    let ghost n = quote_count as int;
    let ghost k = subset_size as int;
    let ghost all = subsets(n, k, start_index as int, cur);
    proof {
        visitor.same_again(visitor, visitor);
    }
    if current.len() == subset_size {
        assert(all[0] == cur);
        visitor.visit(current);
        assert(visitor.seen() =~= old(visitor).seen() + seq![cur]);
        return;
    }
    let remaining: usize = subset_size - current.len();
    let last_start: usize = quote_count - remaining;
    let ghost v0 = visitor.seen();
    let mut index: usize = start_index;
    let ghost mut done: int = 0;
    assert(all.skip(0) =~= all);
    assert(v0 + all.take(0) =~= v0);
    while index <= last_start
        invariant
            start_index <= index,
            index <= last_start + 1 || index == start_index,
            n == quote_count,
            k == subset_size,
            cur.len() < k,
            remaining == k - cur.len(),
            last_start == n - remaining,
            current@ == cur,
            all == subsets(n, k, start_index as int, cur),
            visitor.ready(),
            visitor.same_visitor(old(visitor)),
            forall|m: int| 0 <= m < all.len() ==> old(visitor).takes(#[trigger] all[m]),
            0 <= done <= all.len(),
            all.skip(done) == subsets(n, k, index as int, cur),
            visitor.seen() == v0 + all.take(done),
        decreases quote_count + 1 - index,
    {
        let ghost seen = visitor.seen();
        let ghost a = subsets(n, k, index + 1, cur.push(index));
        let ghost b = subsets(n, k, index + 1, cur);
        current.push(index);
        proof {
            assert(all.skip(done) == a + b);
            visitor.same_again(old(visitor), old(visitor));
            assert forall|m: int| 0 <= m < a.len() implies visitor.takes(#[trigger] a[m]) by {
                assert(all.skip(done)[m] == a[m]);
                assert(all[done + m] == a[m]);
                assert(old(visitor).takes(all[done + m]));
            }
        }
        let ghost before = *visitor;
        visit_quote_subsets(quote_count, subset_size, index + 1, current, visitor);
        let _ = current.pop();
        proof {
            visitor.same_again(&before, old(visitor));
            assert(current@ =~= cur);
            assert(all.skip(done + a.len()) =~= all.skip(done).skip(a.len() as int));
            assert((a + b).skip(a.len() as int) =~= b);
            assert(all.take(done + a.len()) =~= all.take(done) + (a + b).take(a.len() as int));
            assert((a + b).take(a.len() as int) =~= a);
            assert(visitor.seen() =~= v0 + all.take(done + a.len()));
            done = done + a.len();
        }
        index = index + 1;
    }
    proof {
        assert(all.skip(done).len() == 0);
        assert(all.take(done) =~= all);
    }
}

/// Sorts quotes by the distance of their issuers from the address.
pub fn sort_quotes_by_distance(quotes: &mut Vec<StoreQuote>, address: &[u8; 32])
    ensures
        final(quotes)@ == stable_sort(old(quotes)@, issuer_distance(address@)),
{
    let ghost key = issuer_distance(address@);
    let mut keys: Vec<U256> = Vec::new();
    let mut i: usize = 0;
    while i < quotes.len()
        invariant
            i <= quotes.len(),
            keys.len() == i,
            key == issuer_distance(address@),
            forall|k: int| 0 <= k < i ==> (#[trigger] keys[k]).value() == key(quotes[k]),
        decreases quotes.len() - i,
    {
        keys.push(peer_distance(&quotes[i].0, address));
        i = i + 1;
    }
    let mut items: Vec<StoreQuote> = Vec::new();
    std::mem::swap(&mut items, quotes);
    *quotes = sort_by_keys(items, &keys, Ghost(key));
}

/// The quotes of the closest issuers, one close group of them.
pub open spec fn closest_quotes(quotes: Seq<StoreQuote>, address: Seq<u8>) -> Seq<StoreQuote> {
    let sorted = stable_sort(quotes, issuer_distance(address));
    if sorted.len() <= CLOSE_GROUP_SIZE {
        sorted
    } else {
        sorted.take(CLOSE_GROUP_SIZE as int)
    }
}

/// Keeps the quotes of the closest issuers.
pub fn select_closest_quotes(quotes: Vec<StoreQuote>, address: &[u8; 32]) -> (r: Vec<StoreQuote>)
    ensures
        r@ == closest_quotes(quotes@, address@),
{
    let mut sorted = quotes;
    sort_quotes_by_distance(&mut sorted, address);
    sorted.truncate(CLOSE_GROUP_SIZE);
    sorted
}

/// Whether `selected` is the right choice among quotes that are sorted by
/// distance: a close group of them, supported, and the lexicographically first
/// of its kind.
pub open spec fn best_supported(
    selected: Seq<StoreQuote>,
    sorted: Seq<StoreQuote>,
    voters_by_peer: Map<Seq<u8>, AddressSet>,
) -> bool {
    exists|s: Seq<usize>|
        {
            &&& #[trigger] is_choice(sorted.len() as int, CLOSE_GROUP_SIZE as int, s)
            &&& selected == pick(sorted, s)
            &&& supported(selected, voters_by_peer)
            &&& forall|o: Seq<usize>|
                #[trigger] is_choice(sorted.len() as int, CLOSE_GROUP_SIZE as int, o) && supported(
                    pick(sorted, o),
                    voters_by_peer,
                ) ==> lex_le(s, o)
        }
}

/// Whether some close group of the quotes is supported.
pub open spec fn some_supported(
    sorted: Seq<StoreQuote>,
    voters_by_peer: Map<Seq<u8>, AddressSet>,
) -> bool {
    exists|s: Seq<usize>| #[trigger]
        is_choice(sorted.len() as int, CLOSE_GROUP_SIZE as int, s) && supported(
            pick(sorted, s),
            voters_by_peer,
        )
}

/// Takes out the quotes at ascending positions.
fn take_positions(quotes: Vec<StoreQuote>, indices: &Vec<usize>) -> (r: Vec<StoreQuote>)
    requires
        is_choice(quotes@.len() as int, indices@.len() as int, indices@),
    ensures
        r@ == pick(quotes@, indices@),
{
    let ghost all = quotes@;
    let mut rest = quotes;
    let total: usize = rest.len();
    let mut out: Vec<StoreQuote> = Vec::new();
    let mut i: usize = 0;
    assert(all.skip(0) =~= all);
    while i < total
        invariant
            i <= total,
            total == all.len(),
            rest@ == all.skip(i as int),
            is_choice(all.len() as int, indices@.len() as int, indices@),
            out.len() <= indices.len(),
            out@ == pick(all, indices@).take(out@.len() as int),
            forall|k: int| 0 <= k < out.len() ==> (#[trigger] indices@[k]) < i,
            out.len() < indices.len() ==> indices@[out.len() as int] >= i,
        decreases total - i,
    {
        let q = rest.remove(0);
        assert(rest@ =~= all.skip(i + 1));
        let ghost before = out@;
        let j: usize = out.len();
        if j < indices.len() && indices[j] == i {
            out.push(q);
            proof {
                assert(out@ =~= pick(all, indices@).take(out@.len() as int));
                if out.len() < indices.len() {
                    assert(indices@[j as int] < indices@[j + 1]);
                }
            }
        }
        i = i + 1;
    }
    proof {
        if out.len() < indices.len() {
            assert(indices@[out.len() as int] < all.len());
        }
        assert(out@ =~= pick(all, indices@));
    }
    out
}

/// Among the close groups that the quotes can form, the closest one whose paid
/// issuer is recognised by a majority of the chosen issuers.
pub fn select_witnessed_median_voter_quotes(
    quotes: Vec<StoreQuote>,
    address: &[u8; 32],
    voters_by_peer: &AddressMap<AddressSet>,
) -> (r: Option<Vec<StoreQuote>>)
    ensures
        ({
            let sorted = stable_sort(quotes@, issuer_distance(address@));
            match r {
                None => !some_supported(sorted, voters_by_peer@),
                Some(selected) => best_supported(selected@, sorted, voters_by_peer@),
            }
        }),
{
    let ghost given = quotes@;
    let ghost key = issuer_distance(address@);
    proof {
        stable_sort_orders_and_keeps(given, key);
    }
    if quotes.len() < CLOSE_GROUP_SIZE {
        proof {
            let sorted = stable_sort(given, key);
            assert forall|s: Seq<usize>| !(#[trigger] is_choice(
                sorted.len() as int,
                CLOSE_GROUP_SIZE as int,
                s,
            )) by {
                if is_choice(sorted.len() as int, CLOSE_GROUP_SIZE as int, s) {
                    lemma_choice_gap(sorted.len() as int, CLOSE_GROUP_SIZE as int, s, 0);
                }
            }
        }
        return None;
    }
    let mut sorted = quotes;
    sort_quotes_by_distance(&mut sorted, address);
    let count: usize = sorted.len();
    let ghost n = count as int;
    let ghost k = CLOSE_GROUP_SIZE as int;
    let mut search = SubsetSearch {
        quotes: &sorted,
        voters_by_peer,
        best: None,
        visited: Ghost(Seq::empty()),
    };
    let mut current: Vec<usize> = Vec::new();
    proof {
        let all = subsets(n, k, 0, current@);
        assert forall|m: int| 0 <= m < all.len() implies search.takes(#[trigger] all[m]) by {
            subsets_extend_the_prefix(n, k, 0, current@, m);
            assert(all[m].skip(0) =~= all[m]);
        }
    }
    visit_quote_subsets(count, CLOSE_GROUP_SIZE, 0, &mut current, &mut search);
    let ghost all = subsets(n, k, 0, Seq::empty());
    let ghost votes = voters_by_peer@;
    proof {
        assert(search.visited@ =~= all);
        assert forall|o: Seq<usize>| #[trigger] is_choice(n, k, o) implies all.contains(o) by {
            extensions_are_enumerated(n, k, 0, Seq::empty(), o);
            assert(Seq::<usize>::empty() + o =~= o);
        }
    }
    let best = search.best;
    match best {
        None => {
            proof {
                assert forall|o: Seq<usize>| #[trigger] is_choice(n, k, o) implies !supported(
                    pick(sorted@, o),
                    votes,
                ) by {
                    let m = choose|m: int| 0 <= m < all.len() && all[m] == o;
                    assert(!search.good(all[m]));
                }
            }
            None
        },
        Some(indices) => {
            proof {
                let m = choose|m: int| 0 <= m < all.len() && all[m] == indices@;
                subsets_extend_the_prefix(n, k, 0, Seq::empty(), m);
                assert(indices@.skip(0) =~= indices@);
                assert forall|o: Seq<usize>|
                    #[trigger] is_choice(n, k, o) && supported(pick(sorted@, o), votes) implies lex_le(
                    indices@,
                    o,
                ) by {
                    let m2 = choose|m2: int| 0 <= m2 < all.len() && all[m2] == o;
                    assert(search.good(all[m2]));
                }
            }
            Some(take_positions(sorted, &indices))
        },
    }
}

/// The quotes that are kept are those of the closest issuers: one close group of
/// them, or all where there are fewer, each as often as it was given, the closest
/// first, and nobody who is left out is closer than one who is kept.
pub proof fn kept_quotes_are_the_closest(quotes: Seq<StoreQuote>, address: Seq<u8>)
    ensures
        ({
            let c = closest_quotes(quotes, address);
            &&& c.len() == if quotes.len() < CLOSE_GROUP_SIZE {
                quotes.len()
            } else {
                CLOSE_GROUP_SIZE as nat
            }
            &&& forall|q: StoreQuote| #[trigger]
                c.to_multiset().count(q) <= quotes.to_multiset().count(q)
            &&& forall|i: int, j: int|
                0 <= i < j < c.len() ==> distance((#[trigger] c[i]).0@, address) <= distance(
                    (#[trigger] c[j]).0@,
                    address,
                )
            &&& forall|q: StoreQuote, i: int|
                #![trigger quotes.to_multiset().count(q), c[i]]
                c.to_multiset().count(q) < quotes.to_multiset().count(q) && 0 <= i < c.len()
                    ==> distance(c[i].0@, address) <= distance(q.0@, address)
        }),
{
    broadcast use vstd::seq_lib::group_to_multiset_ensures;

    let key = issuer_distance(address);
    let sorted = stable_sort(quotes, key);
    stable_sort_orders_and_keeps(quotes, key);
    let c = closest_quotes(quotes, address);
    let rest = sorted.skip(c.len() as int);
    assert(sorted =~= c + rest);
    vstd::seq_lib::lemma_multiset_commutative(c, rest);
    assert(sorted.to_multiset() =~= c.to_multiset().add(rest.to_multiset()));
    assert forall|q: StoreQuote| #[trigger]
        c.to_multiset().count(q) <= quotes.to_multiset().count(q) by {
        assert(quotes.to_multiset().count(q) == c.to_multiset().count(q)
            + rest.to_multiset().count(q));
    }
    assert forall|i: int, j: int| 0 <= i < j < c.len() implies distance(
        (#[trigger] c[i]).0@,
        address,
    ) <= distance((#[trigger] c[j]).0@, address) by {
        assert(key(sorted[i]) <= key(sorted[j]));
    }
    assert forall|q: StoreQuote, i: int|
        #![trigger quotes.to_multiset().count(q), c[i]]
        c.to_multiset().count(q) < quotes.to_multiset().count(q) && 0 <= i < c.len() implies distance(
        c[i].0@,
        address,
    ) <= distance(q.0@, address) by {
        assert(quotes.to_multiset().count(q) == c.to_multiset().count(q)
            + rest.to_multiset().count(q));
        assert(rest.contains(q));
        let k = choose|k: int| 0 <= k < rest.len() && rest[k] == q;
        assert(sorted[c.len() + k] == q);
        assert(key(sorted[i]) <= key(sorted[c.len() + k]));
    }
}

/// The quote that is paid is a median of its close group: one of the quotes, with
/// no more than half a group cheaper and no more than half a group dearer.
pub proof fn paid_quote_is_a_median(quotes: Seq<StoreQuote>)
    requires
        quotes.len() == CLOSE_GROUP_SIZE,
    ensures
        ({
            let paid = paid_median(quotes);
            &&& quotes.contains(paid)
            &&& 2 * quotes.filter(|q: StoreQuote| q.3.value() < paid.3.value()).len()
                < CLOSE_GROUP_SIZE
            &&& 2 * quotes.filter(|q: StoreQuote| q.3.value() > paid.3.value()).len()
                < CLOSE_GROUP_SIZE
        }),
{
    let paid = paid_median(quotes);
    sorted_place_is_the_rank(quotes, price_key(), MEDIAN_QUOTE_INDEX as int);
    let below = |q: StoreQuote| price_key()(q) < price_key()(paid);
    let above = |q: StoreQuote| price_key()(q) > price_key()(paid);
    assert(below =~= |q: StoreQuote| q.3.value() < paid.3.value());
    assert(above =~= |q: StoreQuote| q.3.value() > paid.3.value());
}

/// A close group is supported exactly where more than half of its members are among
/// those that vouch for the issuer of the quote that it would pay.
pub proof fn majority_of_the_group_vouches(
    selected: Seq<StoreQuote>,
    voters_by_peer: Map<Seq<u8>, AddressSet>,
)
    requires
        selected.len() == CLOSE_GROUP_SIZE,
    ensures
        ({
            let paid = paid_median(selected).0@;
            supported(selected, voters_by_peer) <==> voters_by_peer.dom().contains(paid) && 2
                * selected.filter(
                |q: StoreQuote| voters_by_peer[paid]@.contains(q.0@),
            ).len() > CLOSE_GROUP_SIZE
        }),
{
    let paid = paid_median(selected).0@;
    lemma_support_counts(selected, voters_by_peer[paid]@);
}

proof fn lemma_support_counts(selected: Seq<StoreQuote>, voters: Set<Seq<u8>>)
    ensures
        support(selected, voters) == selected.filter(
            |q: StoreQuote| voters.contains(q.0@),
        ).len(),
    decreases selected.len(),
{
    broadcast use Seq::lemma_filter_len_push;

    if selected.len() > 0 {
        lemma_support_counts(selected.drop_last(), voters);
        assert(selected =~= selected.drop_last().push(selected.last()));
    }
}

/// Of two different lists of the same length the one comes first that is lower
/// where they first differ.
pub proof fn first_difference_decides(a: Seq<usize>, b: Seq<usize>, i: int)
    requires
        a.len() == b.len(),
        0 <= i < a.len(),
        forall|k: int| 0 <= k < i ==> a[k] == b[k],
        a[i] < b[i],
    ensures
        lex_le(a, b),
        !lex_le(b, a),
    decreases a.len(),
{
    if i > 0 {
        let x = a.drop_first();
        let y = b.drop_first();
        assert(forall|k: int| 0 <= k < i - 1 ==> x[k] == a[k + 1] && y[k] == b[k + 1]);
        assert(x[i - 1] == a[i] && y[i - 1] == b[i]);
        first_difference_decides(x, y, i - 1);
    }
}

proof fn lemma_lex_difference(a: Seq<usize>, b: Seq<usize>) -> (i: int)
    requires
        a.len() == b.len(),
        lex_le(a, b),
    ensures
        0 <= i <= a.len(),
        forall|k: int| 0 <= k < i ==> a[k] == b[k],
        i < a.len() ==> a[i] < b[i],
    decreases a.len(),
{
    if a.len() == 0 || a[0] < b[0] {
        0
    } else {
        let x = a.drop_first();
        let y = b.drop_first();
        let j = lemma_lex_difference(x, y);
        assert forall|k: int| 0 <= k < j + 1 implies a[k] == b[k] by {
            if k > 0 {
                assert(x[k - 1] == a[k] && y[k - 1] == b[k]);
            }
        }
        if j < x.len() {
            assert(x[j] == a[j + 1] && y[j] == b[j + 1]);
        }
        j + 1
    }
}

/// The chosen close group is supported and consists of quotes that were given, taken
/// at ascending positions of their order by distance. No other supported close group
/// is closer: where the positions of another one first differ, they are higher. Any
/// ascending choice of one close group of positions is such another one.
pub proof fn chosen_group_is_the_closest(
    selected: Seq<StoreQuote>,
    quotes: Seq<StoreQuote>,
    address: Seq<u8>,
    voters_by_peer: Map<Seq<u8>, AddressSet>,
    other: Seq<usize>,
) -> (r: (Seq<usize>, int))
    requires
        best_supported(
            selected,
            stable_sort(quotes, issuer_distance(address)),
            voters_by_peer,
        ),
        other.len() == CLOSE_GROUP_SIZE,
        forall|i: int| 0 <= i < other.len() ==> (#[trigger] other[i]) < quotes.len(),
        forall|i: int, j: int|
            0 <= i < j < other.len() ==> (#[trigger] other[i]) < (#[trigger] other[j]),
        supported(
            Seq::new(
                other.len(),
                |i: int| stable_sort(quotes, issuer_distance(address))[other[i] as int],
            ),
            voters_by_peer,
        ),
    ensures
        supported(selected, voters_by_peer),
        selected.len() == CLOSE_GROUP_SIZE,
        r.0.len() == CLOSE_GROUP_SIZE,
        forall|i: int|
            0 <= i < r.0.len() ==> (#[trigger] r.0[i]) < quotes.len() && selected[i]
                == stable_sort(quotes, issuer_distance(address))[r.0[i] as int],
        forall|i: int, j: int|
            0 <= i < j < r.0.len() ==> (#[trigger] r.0[i]) < (#[trigger] r.0[j]),
        0 <= r.1 <= CLOSE_GROUP_SIZE,
        forall|k: int| 0 <= k < r.1 ==> #[trigger] r.0[k] == other[k],
        r.1 < CLOSE_GROUP_SIZE ==> r.0[r.1] < other[r.1],
{
    let key = issuer_distance(address);
    let sorted = stable_sort(quotes, key);
    stable_sort_orders_and_keeps(quotes, key);
    let n = sorted.len() as int;
    let k = CLOSE_GROUP_SIZE as int;
    let s = choose|s: Seq<usize>|
        {
            &&& #[trigger] is_choice(n, k, s)
            &&& selected == pick(sorted, s)
            &&& supported(selected, voters_by_peer)
            &&& forall|o: Seq<usize>|
                #[trigger] is_choice(n, k, o) && supported(pick(sorted, o), voters_by_peer)
                    ==> lex_le(s, o)
        };
    assert(is_choice(n, k, other));
    assert(pick(sorted, other) =~= Seq::new(other.len(), |i: int| sorted[other[i] as int]));
    let i = lemma_lex_difference(s, other);
    (s, i)
}

/// Where no close group was chosen, none is supported: no ascending choice of one
/// close group of positions.
pub proof fn no_group_is_passed_over(
    sorted: Seq<StoreQuote>,
    voters_by_peer: Map<Seq<u8>, AddressSet>,
    other: Seq<usize>,
)
    requires
        !some_supported(sorted, voters_by_peer),
        other.len() == CLOSE_GROUP_SIZE,
        forall|i: int| 0 <= i < other.len() ==> (#[trigger] other[i]) < sorted.len(),
        forall|i: int, j: int|
            0 <= i < j < other.len() ==> (#[trigger] other[i]) < (#[trigger] other[j]),
    ensures
        !supported(
            Seq::new(other.len(), |i: int| sorted[other[i] as int]),
            voters_by_peer,
        ),
{
    assert(is_choice(sorted.len() as int, CLOSE_GROUP_SIZE as int, other));
    assert(pick(sorted, other) =~= Seq::new(other.len(), |i: int| sorted[other[i] as int]));
}

} // verus!
