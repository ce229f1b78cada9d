//! Sets and maps keyed by 32-byte addresses.

use vstd::prelude::*;

use crate::xor::same_bytes;

verus! {

/// The addresses of `items`, by their bytes.
pub open spec fn address_views(items: Seq<[u8; 32]>) -> Seq<Seq<u8>> {
    items.map_values(|a: [u8; 32]| a@)
}

/// The position of `key` in `items`, where it stands there.
pub fn position_of(items: &Vec<[u8; 32]>, key: &[u8; 32]) -> (r: Option<usize>)
    ensures
        match r {
            Some(i) => i < items.len() && items[i as int]@ == key@ && forall|k: int|
                0 <= k < i ==> (#[trigger] items[k])@ != key@,
            None => !address_views(items@).contains(key@),
        },
{
    let mut i: usize = 0;
    while i < items.len()
        invariant
            i <= items.len(),
            forall|k: int| 0 <= k < i ==> (#[trigger] items[k])@ != key@,
        decreases items.len() - i,
    {
        if same_bytes(&items[i], key) {
            return Some(i);
        }
        i = i + 1;
    }
    None
}

/// A set of addresses that keeps the order of insertion.
pub struct AddressSet {
    items: Vec<[u8; 32]>,
}

impl View for AddressSet {
    type V = Set<Seq<u8>>;

    closed spec fn view(&self) -> Set<Seq<u8>> {
        self.order().to_set()
    }
}

impl AddressSet {
    /// The members in the order of their insertion.
    pub closed spec fn order(&self) -> Seq<Seq<u8>> {
        address_views(self.items@)
    }

    #[verifier::type_invariant]
    spec fn distinct(&self) -> bool {
        self.order().no_duplicates()
    }

    pub fn new() -> (r: AddressSet)
        ensures
            r@ == Set::<Seq<u8>>::empty(),
            r.order() == Seq::<Seq<u8>>::empty(),
    {
        let r = AddressSet { items: Vec::new() };
        assert(r.order() =~= Seq::<Seq<u8>>::empty());
        assert(r@ =~= Set::<Seq<u8>>::empty());
        r
    }

    pub fn contains(&self, key: &[u8; 32]) -> (r: bool)
        ensures
            r == self@.contains(key@),
    {
        match position_of(&self.items, key) {
            Some(i) => {
                assert(self.order()[i as int] == key@);
                true
            },
            None => false,
        }
    }

    /// Adds `key`; false where it was there before.
    pub fn insert(&mut self, key: [u8; 32]) -> (r: bool)
        ensures
            r == !old(self)@.contains(key@),
            final(self)@ == old(self)@.insert(key@),
            final(self).order() == if old(self)@.contains(key@) {
                old(self).order()
            } else {
                old(self).order().push(key@)
            },
    {
        proof {
            use_type_invariant(&*self);
        }
        if self.contains(&key) {
            assert(self@ =~= self@.insert(key@));
            return false;
        }
        let ghost before = self.order();
        let ghost old_items = self.items@;
        let mut items: Vec<[u8; 32]> = Vec::new();
        assert(address_views(items@) =~= Seq::<Seq<u8>>::empty());
        std::mem::swap(&mut items, &mut self.items);
        items.push(key);
        proof {
            assert(address_views(items@) =~= before.push(key@));
            lemma_push_set(before, key@);
        }
        self.items = items;
        assert(self@ =~= old(self)@.insert(key@));
        true
    }

    pub fn len(&self) -> (r: usize)
        ensures
            r == self@.len(),
            r == self.order().len(),
            self.order().no_duplicates(),
            self@.finite(),
    {
        proof {
            use_type_invariant(self);
            self.order().unique_seq_to_set();
        }
        self.items.len()
    }

    /// The member that was inserted as number `i`.
    pub fn get(&self, i: usize) -> (r: &[u8; 32])
        requires
            i < self.order().len(),
        ensures
            r@ == self.order()[i as int],
    {
        &self.items[i]
    }

    /// The set with the same members.
    pub fn duplicate(&self) -> (r: AddressSet)
        ensures
            r@ == self@,
            r.order() == self.order(),
    {
        proof {
            use_type_invariant(self);
        }
        let mut items: Vec<[u8; 32]> = Vec::new();
        let mut i: usize = 0;
        while i < self.items.len()
            invariant
                i <= self.items.len(),
                items@ =~= self.items@.take(i as int),
            decreases self.items.len() - i,
        {
            items.push(self.items[i]);
            i = i + 1;
        }
        assert(items@ =~= self.items@);
        AddressSet { items }
    }
}

proof fn lemma_push_set<A>(s: Seq<A>, x: A)
    requires
        s.no_duplicates(),
        !s.contains(x),
    ensures
        s.push(x).no_duplicates(),
        s.push(x).to_set() == s.to_set().insert(x),
{
    let p = s.push(x);
    assert(p[s.len() as int] == x);
    assert forall|y: A| p.to_set().contains(y) == s.to_set().insert(x).contains(y) by {
        if s.contains(y) {
            let i = choose|i: int| 0 <= i < s.len() && s[i] == y;
            assert(p[i] == y);
        }
        if p.contains(y) {
            let i = choose|i: int| 0 <= i < p.len() && p[i] == y;
            if i < s.len() {
                assert(s[i] == y);
            }
        }
    }
    assert(p.to_set() =~= s.to_set().insert(x));
}

/// A map from addresses to values.
pub struct AddressMap<V> {
    keys: Vec<[u8; 32]>,
    values: Vec<V>,
}

/// The map that pairs `keys[i]` with `values[i]`.
pub open spec fn paired<V>(keys: Seq<Seq<u8>>, values: Seq<V>) -> Map<Seq<u8>, V> {
    Map::new(|k: Seq<u8>| keys.contains(k), |k: Seq<u8>| values[keys.index_of(k)])
}

impl<V> View for AddressMap<V> {
    type V = Map<Seq<u8>, V>;

    closed spec fn view(&self) -> Map<Seq<u8>, V> {
        paired(self.order(), self.values@)
    }
}

impl<V> AddressMap<V> {
    /// The keys in the order of their insertion.
    pub closed spec fn order(&self) -> Seq<Seq<u8>> {
        address_views(self.keys@)
    }

    #[verifier::type_invariant]
    spec fn distinct(&self) -> bool {
        self.order().no_duplicates() && self.keys.len() == self.values.len()
    }

    pub fn new() -> (r: AddressMap<V>)
        ensures
            r@ == Map::<Seq<u8>, V>::empty(),
            r.order() == Seq::<Seq<u8>>::empty(),
    {
        let r = AddressMap { keys: Vec::new(), values: Vec::new() };
        assert(r.order() =~= Seq::<Seq<u8>>::empty());
        assert(r@ =~= Map::<Seq<u8>, V>::empty());
        r
    }

    pub fn len(&self) -> (r: usize)
        ensures
            r == self.order().len(),
            self.order().no_duplicates(),
            r == self@.dom().len(),
            self@.dom().finite(),
            self@.dom() == self.order().to_set(),
    {
        proof {
            use_type_invariant(self);
            self.order().unique_seq_to_set();
            assert(self@.dom() =~= self.order().to_set());
        }
        self.keys.len()
    }

    /// The key that was inserted as number `i`.
    pub fn key_at(&self, i: usize) -> (r: &[u8; 32])
        requires
            i < self.order().len(),
        ensures
            r@ == self.order()[i as int],
            self@.dom().contains(r@),
    {
        assert(self.order().contains(self.order()[i as int]));
        &self.keys[i]
    }

    pub fn contains_key(&self, key: &[u8; 32]) -> (r: bool)
        ensures
            r == self@.dom().contains(key@),
    {
        match position_of(&self.keys, key) {
            Some(i) => {
                assert(self.order()[i as int] == key@);
                true
            },
            None => false,
        }
    }

    pub fn get(&self, key: &[u8; 32]) -> (r: Option<&V>)
        ensures
            match r {
                Some(v) => self@.dom().contains(key@) && *v == self@[key@],
                None => !self@.dom().contains(key@),
            },
    {
        proof {
            use_type_invariant(self);
        }
        match position_of(&self.keys, key) {
            Some(i) => {
                assert(self.order()[i as int] == key@);
                assert(self.order().index_of(key@) == i);
                Some(&self.values[i])
            },
            None => None,
        }
    }

    /// Adds the pair, or replaces the value of a key that is there.
    pub fn insert(&mut self, key: [u8; 32], value: V)
        ensures
            final(self)@ == old(self)@.insert(key@, value),
            final(self).order() == if old(self)@.dom().contains(key@) {
                old(self).order()
            } else {
                old(self).order().push(key@)
            },
    {
        proof {
            use_type_invariant(&*self);
        }
        let ghost before = self.order();
        let ghost before_values = self.values@;
        let ghost before_map = self@;
        match position_of(&self.keys, &key) {
            Some(i) => {
                assert(before[i as int] == key@);
                let mut keys: Vec<[u8; 32]> = Vec::new();
                let mut values: Vec<V> = Vec::new();
                assert(address_views(keys@) =~= Seq::<Seq<u8>>::empty());
                self.swap_parts(&mut keys, &mut values);
                values.set(i, value);
                proof {
                    lemma_paired_replace(before, before_values, i as int, value);
                }
                let next = AddressMap { keys, values };
                *self = next;
            },
            None => {
                let mut keys: Vec<[u8; 32]> = Vec::new();
                let mut values: Vec<V> = Vec::new();
                assert(address_views(keys@) =~= Seq::<Seq<u8>>::empty());
                self.swap_parts(&mut keys, &mut values);
                keys.push(key);
                values.push(value);
                proof {
                    assert(address_views(keys@) =~= before.push(key@));
                    lemma_push_set(before, key@);
                    lemma_paired_push(before, before_values, key@, value);
                }
                let next = AddressMap { keys, values };
                *self = next;
            },
        }
    }

    fn swap_parts(&mut self, keys: &mut Vec<[u8; 32]>, values: &mut Vec<V>)
        requires
            old(keys)@.len() == 0,
            old(values)@.len() == 0,
        ensures
            final(keys)@ == old(self).keys@,
            final(values)@ == old(self).values@,
    {
        let mut own: AddressMap<V> = AddressMap::new();
        std::mem::swap(self, &mut own);
        let AddressMap { keys: own_keys, values: own_values } = own;
        *keys = own_keys;
        *values = own_values;
    }

    /// Adds all pairs of `other`, whose values replace those of the same key.
    pub fn extend(&mut self, other: AddressMap<V>)
        ensures
            final(self)@ == old(self)@.union_prefer_right(other@),
    {
        proof {
            use_type_invariant(&other);
        }
        let ghost before = self@;
        let ghost all_keys = other.keys@;
        let ghost all_values = other.values@;
        let AddressMap { keys, values } = other;
        let mut values = values;
        let n: usize = keys.len();
        let mut i: usize = 0;
        assert(all_values.skip(0) =~= all_values);
        assert(address_views(all_keys.take(0)) =~= Seq::<Seq<u8>>::empty());
        assert(paired(address_views(all_keys.take(0)), all_values.take(0)) =~= Map::empty());
        assert(self@ =~= before.union_prefer_right(Map::empty()));
        while i < n
            invariant
                i <= n,
                n == keys.len(),
                keys@ == all_keys,
                all_values.len() == n,
                values@ == all_values.skip(i as int),
                address_views(all_keys).no_duplicates(),
                self@ == before.union_prefer_right(
                    paired(address_views(all_keys.take(i as int)), all_values.take(i as int)),
                ),
            decreases n - i,
        {
            let value = values.remove(0);
            let key: [u8; 32] = keys[i];
            proof {
                let ks = address_views(all_keys);
                let part = address_views(all_keys.take(i as int));
                assert(values@ =~= all_values.skip(i + 1));
                assert(address_views(all_keys.take(i + 1)) =~= part.push(key@));
                assert(all_values.take(i + 1) =~= all_values.take(i as int).push(value));
                assert forall|x: int, y: int| 0 <= x < part.len() && 0 <= y < part.len() && x
                    != y implies part[x] != part[y] by {
                    assert(part[x] == ks[x] && part[y] == ks[y]);
                }
                if part.contains(key@) {
                    let x = choose|x: int| 0 <= x < part.len() && part[x] == key@;
                    assert(ks[x] == ks[i as int]);
                }
                lemma_paired_push(part, all_values.take(i as int), key@, value);
                assert(before.union_prefer_right(
                    paired(part, all_values.take(i as int)).insert(key@, value),
                ) =~= before.union_prefer_right(paired(part, all_values.take(i as int))).insert(
                    key@,
                    value,
                ));
            }
            self.insert(key, value);
            i = i + 1;
        }
        assert(all_keys.take(i as int) =~= all_keys);
        assert(all_values.take(i as int) =~= all_values);
    }

    /// Takes the pair of `key` out, where there is one.
    pub fn remove(&mut self, key: &[u8; 32]) -> (r: Option<V>)
        ensures
            final(self)@ == old(self)@.remove(key@),
            match r {
                Some(v) => old(self)@.dom().contains(key@) && v == old(self)@[key@],
                None => !old(self)@.dom().contains(key@),
            },
    {
        proof {
            use_type_invariant(&*self);
        }
        let ghost before = self.order();
        let ghost before_values = self.values@;
        match position_of(&self.keys, key) {
            Some(i) => {
                assert(before[i as int] == key@);
                assert(before.index_of(key@) == i);
                let mut keys: Vec<[u8; 32]> = Vec::new();
                let mut values: Vec<V> = Vec::new();
                assert(address_views(keys@) =~= Seq::<Seq<u8>>::empty());
                self.swap_parts(&mut keys, &mut values);
                let _ = keys.remove(i);
                let value = values.remove(i);
                proof {
                    assert(address_views(keys@) =~= before.remove(i as int));
                    lemma_paired_remove(before, before_values, i as int);
                }
                let next = AddressMap { keys, values };
                *self = next;
                Some(value)
            },
            None => {
                assert(self@ =~= self@.remove(key@));
                None
            },
        }
    }
}

proof fn lemma_paired_replace<V>(keys: Seq<Seq<u8>>, values: Seq<V>, i: int, value: V)
    requires
        keys.no_duplicates(),
        keys.len() == values.len(),
        0 <= i < keys.len(),
    ensures
        paired(keys, values.update(i, value)) == paired(keys, values).insert(keys[i], value),
{
    let a = paired(keys, values.update(i, value));
    let b = paired(keys, values).insert(keys[i], value);
    assert(keys.contains(keys[i]));
    assert forall|k: Seq<u8>| a.dom().contains(k) implies a[k] == b[k] by {
        let j = keys.index_of(k);
        assert(keys[j] == k);
        if k == keys[i] {
            assert(j == i);
        }
    }
    assert(a =~= b);
}

proof fn lemma_paired_push<V>(keys: Seq<Seq<u8>>, values: Seq<V>, key: Seq<u8>, value: V)
    requires
        keys.no_duplicates(),
        keys.len() == values.len(),
        !keys.contains(key),
    ensures
        paired(keys.push(key), values.push(value)) == paired(keys, values).insert(key, value),
{
    let ks = keys.push(key);
    let a = paired(ks, values.push(value));
    let b = paired(keys, values).insert(key, value);
    lemma_push_set(keys, key);
    assert(ks[keys.len() as int] == key);
    assert forall|k: Seq<u8>| ks.contains(k) == (keys.contains(k) || k == key) by {
        if keys.contains(k) {
            let i = choose|i: int| 0 <= i < keys.len() && keys[i] == k;
            assert(ks[i] == k);
        }
    }
    assert forall|k: Seq<u8>| a.dom().contains(k) implies a[k] == b[k] by {
        let j = ks.index_of(k);
        assert(ks[j] == k);
        if k == key {
            assert(j == keys.len());
        } else {
            let i = keys.index_of(k);
            assert(keys[i] == k);
            assert(ks[i] == k);
            assert(i == j);
        }
    }
    assert(a.dom() =~= b.dom());
    assert(a =~= b);
}

proof fn lemma_paired_remove<V>(keys: Seq<Seq<u8>>, values: Seq<V>, i: int)
    requires
        keys.no_duplicates(),
        keys.len() == values.len(),
        0 <= i < keys.len(),
    ensures
        keys.remove(i).no_duplicates(),
        paired(keys.remove(i), values.remove(i)) == paired(keys, values).remove(keys[i]),
{
    let ks = keys.remove(i);
    let vs = values.remove(i);
    let a = paired(ks, vs);
    let b = paired(keys, values).remove(keys[i]);
    assert forall|x: int, y: int| 0 <= x < ks.len() && 0 <= y < ks.len() && x != y implies ks[x]
        != ks[y] by {
        let x2 = if x < i { x } else { x + 1 };
        let y2 = if y < i { y } else { y + 1 };
        assert(keys[x2] == ks[x] && keys[y2] == ks[y]);
    }
    assert forall|k: Seq<u8>| ks.contains(k) == (keys.contains(k) && k != keys[i]) by {
        if ks.contains(k) {
            let x = choose|x: int| 0 <= x < ks.len() && ks[x] == k;
            let x2 = if x < i { x } else { x + 1 };
            assert(keys[x2] == k);
        }
        if keys.contains(k) && k != keys[i] {
            let x = choose|x: int| 0 <= x < keys.len() && keys[x] == k;
            let x2 = if x < i { x } else { x - 1 };
            assert(ks[x2] == k);
        }
    }
    assert forall|k: Seq<u8>| a.dom().contains(k) implies a[k] == b[k] by {
        let x = ks.index_of(k);
        assert(ks[x] == k);
        let x2 = if x < i { x } else { x + 1 };
        assert(keys[x2] == k);
        let y = keys.index_of(k);
        assert(keys[y] == k);
        assert(y == x2);
        assert(vs[x] == values[x2]);
    }
    assert(a.dom() =~= b.dom());
    assert(a =~= b);
}

} // verus!
