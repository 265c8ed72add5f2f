use vstd::prelude::*;
use vstd::set_lib::lemma_subset_equality;

verus! {

/// The map formed by inserting `ks[i] => vs[i]` for each `i` in order, so a
/// later entry for the same key wins.
pub open spec fn entries_map(ks: Seq<Seq<char>>, vs: Seq<u32>) -> Map<Seq<char>, u32>
    decreases ks.len(),
{
    if ks.len() == 0 || vs.len() != ks.len() {
        Map::empty()
    } else {
        entries_map(ks.drop_last(), vs.drop_last()).insert(ks.last(), vs.last())
    }
}

/// What a map of strings to indices answers for `k`: its index, or `0` where
/// it holds none.
pub open spec fn lookup_or_zero(m: Map<Seq<char>, u32>, k: Seq<char>) -> u32 {
    if m.contains_key(k) {
        m[k]
    } else {
        0
    }
}

pub(crate) proof fn lemma_entries_map_lookup(ks: Seq<Seq<char>>, vs: Seq<u32>)
    requires
        ks.len() == vs.len(),
        ks.no_duplicates(),
    ensures
        forall|i: int|
            0 <= i < ks.len() ==> #[trigger] entries_map(ks, vs).contains_key(ks[i])
                && entries_map(ks, vs)[ks[i]] == vs[i],
        forall|k: Seq<char>| #[trigger]
            entries_map(ks, vs).contains_key(k) ==> ks.contains(k),
        entries_map(ks, vs).dom().len() == ks.len(),
        entries_map(ks, vs).dom().finite(),
    decreases ks.len(),
{
    if ks.len() > 0 {
        let pk = ks.drop_last();
        let pv = vs.drop_last();
        assert(pk.no_duplicates());
        lemma_entries_map_lookup(pk, pv);
        assert forall|i: int| 0 <= i < ks.len() implies #[trigger] entries_map(
            ks,
            vs,
        ).contains_key(ks[i]) && entries_map(ks, vs)[ks[i]] == vs[i] by {
            if i < ks.len() - 1 {
                assert(pk[i] == ks[i]);
                assert(ks[i] != ks.last());
            }
        }
        assert forall|k: Seq<char>| #[trigger]
            entries_map(ks, vs).contains_key(k) implies ks.contains(k) by {
            if k != ks.last() {
                let j = choose|j: int| 0 <= j < pk.len() && pk[j] == k;
                assert(ks[j] == k);
            } else {
                assert(ks[ks.len() - 1] == k);
            }
        }
        assert(!entries_map(pk, pv).contains_key(ks.last())) by {
            if entries_map(pk, pv).contains_key(ks.last()) {
                let j = choose|j: int| 0 <= j < pk.len() && pk[j] == ks.last();
                assert(ks[j] == ks[ks.len() - 1]);
            }
        }
    }
}

proof fn lemma_entries_map_update(ks: Seq<Seq<char>>, vs: Seq<u32>, j: int, v: u32)
    requires
        ks.len() == vs.len(),
        ks.no_duplicates(),
        0 <= j < ks.len(),
    ensures
        entries_map(ks, vs.update(j, v)) == entries_map(ks, vs).insert(ks[j], v),
{
    let nv = vs.update(j, v);
    lemma_entries_map_lookup(ks, vs);
    lemma_entries_map_lookup(ks, nv);
    let a = entries_map(ks, nv);
    let b = entries_map(ks, vs).insert(ks[j], v);
    assert forall|k: Seq<char>| a.contains_key(k) <==> b.contains_key(k) by {
        if b.contains_key(k) && k != ks[j] {
            let i = choose|i: int| 0 <= i < ks.len() && ks[i] == k;
            assert(a.contains_key(ks[i]));
        }
        if a.contains_key(k) {
            let i = choose|i: int| 0 <= i < ks.len() && ks[i] == k;
            assert(entries_map(ks, vs).contains_key(ks[i]));
        }
    }
    assert forall|k: Seq<char>| a.contains_key(k) implies a[k] == b[k] by {
        let i = choose|i: int| 0 <= i < ks.len() && ks[i] == k;
        assert(a[ks[i]] == nv[i]);
        if i != j {
            assert(ks[i] != ks[j]);
        }
    }
    assert(a =~= b);
}

/// A map from strings to `u32` indices with unique keys, kept in insertion
/// order.
#[derive(Debug)]
pub struct TokenMap {
    keys: Vec<String>,
    values: Vec<u32>,
}

impl View for TokenMap {
    type V = Map<Seq<char>, u32>;

    closed spec fn view(&self) -> Map<Seq<char>, u32> {
        entries_map(self.keys.deep_view(), self.values@)
    }
}

impl TokenMap {
    #[verifier::type_invariant]
    spec fn well_formed(self) -> bool {
        &&& self.keys.len() == self.values.len()
        &&& self.keys.deep_view().no_duplicates()
    }

    /// An empty map.
    pub fn new() -> (m: TokenMap)
        ensures
            m@ == Map::<Seq<char>, u32>::empty(),
    {
        TokenMap { keys: Vec::new(), values: Vec::new() }
    }

    /// Position of `key` among the keys, if it is one.
    fn position(&self, key: &String) -> (r: Option<usize>)
        ensures
            match r {
                Some(j) => j < self.keys.len() && self.keys.deep_view()[j as int] == key@,
                None => !self.keys.deep_view().contains(key@),
            },
    {
        let mut j: usize = 0;
        while j < self.keys.len()
            invariant
                j <= self.keys.len(),
                forall|i: int| 0 <= i < j ==> self.keys.deep_view()[i] != key@,
            decreases self.keys.len() - j,
        {
            if self.keys[j] == *key {
                return Some(j);
            }
            j = j + 1;
        }
        None
    }

    /// The index that `key` maps to, if any.
    pub fn get(&self, key: &str) -> (r: Option<u32>)
        ensures
            r == (if self@.contains_key(key@) {
                Some(self@[key@])
            } else {
                None::<u32>
            }),
    {
        proof {
            use_type_invariant(self);
            lemma_entries_map_lookup(self.keys.deep_view(), self.values@);
        }
        let owned = key.to_owned();
        match self.position(&owned) {
            Some(j) => Some(self.values[j]),
            None => None,
        }
    }

    /// Whether `key` is mapped.
    pub fn contains_key(&self, key: &str) -> (r: bool)
        ensures
            r == self@.contains_key(key@),
    {
        self.get(key).is_some()
    }

    /// The number of keys.
    pub fn len(&self) -> (r: usize)
        ensures
            r == self@.dom().len(),
    {
        proof {
            use_type_invariant(self);
            lemma_entries_map_lookup(self.keys.deep_view(), self.values@);
        }
        self.keys.len()
    }

    /// Maps `key` to `value`, replacing any index it had.
    pub fn insert(&mut self, key: String, value: u32)
        ensures
            final(self)@ == old(self)@.insert(key@, value),
    {
        proof {
            use_type_invariant(&*self);
        }
        let found = self.position(&key);
        let mut taken = TokenMap::new();
        std::mem::swap(self, &mut taken);
        let TokenMap { mut keys, mut values } = taken;
        match found {
            Some(j) => {
                proof {
                    lemma_entries_map_update(keys.deep_view(), values@, j as int, value);
                }
                values.set(j, value);
            },
            None => {
                let ghost ks = keys.deep_view();
                keys.push(key);
                values.push(value);
                proof {
                    assert(keys.deep_view() =~= ks.push(key@));
                    assert(keys.deep_view().drop_last() =~= ks);
                    assert(values@.drop_last() =~= old(self).values@);
                    assert(keys.deep_view().no_duplicates());
                }
            },
        }
        *self = TokenMap { keys, values };
    }

    /// A map holding each pair in turn, a later pair for the same key replacing
    /// an earlier one.
    pub fn from_pairs(pairs: Vec<(String, u32)>) -> (m: TokenMap)
        ensures
            m@ == entries_map(pairs@.map_values(|p: (String, u32)| p.0@), pairs@.map_values(|p: (String, u32)| p.1)),
    {
        let mut m = TokenMap::new();
        let ghost ks = pairs@.map_values(|p: (String, u32)| p.0@);
        let ghost vs = pairs@.map_values(|p: (String, u32)| p.1);
        let mut i: usize = 0;
        while i < pairs.len()
            invariant
                i <= pairs.len(),
                ks == pairs@.map_values(|p: (String, u32)| p.0@),
                vs == pairs@.map_values(|p: (String, u32)| p.1),
                m@ == entries_map(ks.take(i as int), vs.take(i as int)),
            decreases pairs.len() - i,
        {
            assert(ks.take(i + 1).drop_last() =~= ks.take(i as int));
            assert(vs.take(i + 1).drop_last() =~= vs.take(i as int));
            m.insert(pairs[i].0.clone(), pairs[i].1);
            i = i + 1;
        }
        assert(ks.take(i as int) =~= ks);
        assert(vs.take(i as int) =~= vs);
        m
    }
}

impl PartialEq for TokenMap {
    /// Two maps are equal when they hold the same keys with the same indices.
    fn eq(&self, other: &TokenMap) -> (r: bool)
        ensures
            r == (self@ == other@),
    {
        proof {
            use_type_invariant(self);
            use_type_invariant(other);
            lemma_entries_map_lookup(self.keys.deep_view(), self.values@);
            lemma_entries_map_lookup(other.keys.deep_view(), other.values@);
        }
        if self.keys.len() != other.keys.len() {
            return false;
        }
        let mut i: usize = 0;
        while i < self.keys.len()
            invariant
                i <= self.keys.len(),
                self.keys.len() == self.values.len(),
                forall|j: int|
                    0 <= j < i ==> #[trigger] other@.contains_key(self.keys.deep_view()[j])
                        && other@[self.keys.deep_view()[j]] == self.values@[j],
            decreases self.keys.len() - i,
        {
            let found = other.get(self.keys[i].as_str());
            let matched = match found {
                Some(v) => v == self.values[i],
                None => false,
            };
            if !matched {
                proof {
                    use_type_invariant(self);
                    lemma_entries_map_lookup(self.keys.deep_view(), self.values@);
                    let ks = self.keys.deep_view();
                    let k = ks[i as int];
                    assert(entries_map(ks, self.values@).contains_key(ks[i as int]));
                    assert(self@.contains_key(k) && self@[k] == self.values@[i as int]);
                }
                return false;
            }
            assert(self.keys.deep_view()[i as int] == self.keys@[i as int]@);
            i = i + 1;
        }
        proof {
            assert(self@.dom().subset_of(other@.dom()));
            lemma_subset_equality(self@.dom(), other@.dom());
            assert(self@ =~= other@);
        }
        true
    }
}

impl vstd::std_specs::cmp::PartialEqSpecImpl for TokenMap {
    open spec fn obeys_eq_spec() -> bool {
        true
    }

    open spec fn eq_spec(&self, other: &TokenMap) -> bool {
        self@ == other@
    }
}

} // verus!
