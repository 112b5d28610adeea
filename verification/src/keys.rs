//! Small collections keyed by [`TileKey`]: a hash map whose table is keyed
//! by the integer code of each tile key, and a set built on it.

use vstd::prelude::*;
use crate::lod::TileKey;
use std::collections::HashMap;
use vstd::std_specs::hash::spec_hash_map_iter;
use vstd::std_specs::iter::IteratorSpec;

verus! {

broadcast use vstd::std_specs::hash::group_hash_axioms;

/// The integer code of a tile key: zoom, column and row as three digits of
/// a number in base 2^32 (column and row shifted to be non-negative).
pub open spec fn key_code(k: TileKey) -> u128 {
    (k.zoom as int * 0x1_0000_0000_0000_0000 + (k.x as int + 0x8000_0000) * 0x1_0000_0000 + (k.z as int
        + 0x8000_0000)) as u128
}

/// Distinct tile keys have distinct codes.
pub proof fn lemma_key_code_injective(a: TileKey, b: TileKey)
    ensures
        key_code(a) == key_code(b) ==> a == b,
{
    let ca = a.zoom as int * 0x1_0000_0000_0000_0000 + (a.x as int + 0x8000_0000) * 0x1_0000_0000 + (a.z as int
        + 0x8000_0000);
    let cb = b.zoom as int * 0x1_0000_0000_0000_0000 + (b.x as int + 0x8000_0000) * 0x1_0000_0000 + (b.z as int
        + 0x8000_0000);
    assert(key_code(a) == ca);
    assert(key_code(b) == cb);
    if ca == cb {
        assert(a.zoom == b.zoom);
        assert(a.x == b.x);
        assert(a.z == b.z);
    }
}

/// Computes [`key_code`].
fn code_of(k: &TileKey) -> (c: u128)
    ensures
        c == key_code(*k),
{
    let zoom = k.zoom as u128;
    let x = (k.x as i64 + 0x8000_0000) as u128;
    let z = (k.z as i64 + 0x8000_0000) as u128;
    zoom * 0x1_0000_0000_0000_0000 + x * 0x1_0000_0000 + z
}

/// A finite map from tile keys to values.
pub struct KeyMap<V> {
    table: HashMap<u128, (TileKey, V)>,
}

impl<V> KeyMap<V> {
    /// Each entry of the table sits under the code of the key it holds.
    #[verifier::type_invariant]
    spec fn coded(self) -> bool {
        forall|c: u128| #[trigger] self.table@.contains_key(c) ==> key_code(self.table@[c].0) == c
    }

    /// The map this collection holds.
    pub closed spec fn view(&self) -> Map<TileKey, V> {
        Map::new(|k: TileKey| self.table@.contains_key(key_code(k)), |k: TileKey| self.table@[key_code(k)].1)
    }

    /// The view's domain is the table's domain, read through the codes.
    proof fn lemma_dom(self)
        requires
            self.coded(),
        ensures
            self@.dom().finite(),
            self@.dom().len() == self.table@.dom().len(),
    {
        let g = |c: u128| self.table@[c].0;
        assert(vstd::relations::injective_on(g, self.table@.dom())) by {
            assert forall|c: u128, d: u128|
                self.table@.dom().contains(c) && self.table@.dom().contains(d) && #[trigger] g(c) == #[trigger] g(
                    d,
                ) implies c == d by {
                assert(key_code(g(c)) == c);
                assert(key_code(g(d)) == d);
            }
        }
        assert(self.table@.dom().map(g) =~= self@.dom()) by {
            assert forall|k: TileKey| #[trigger] self@.dom().contains(k) implies self.table@.dom().map(g).contains(
                k,
            ) by {
                let c = key_code(k);
                lemma_key_code_injective(g(c), k);
                assert(self.table@.dom().contains(c) && g(c) == k);
            }
        }
        vstd::set_lib::lemma_map_size(self.table@.dom(), self@.dom(), g);
    }

    /// An empty map.
    pub fn new() -> (m: Self)
        ensures
            m@ == Map::<TileKey, V>::empty(),
    {
        let m = KeyMap { table: HashMap::new() };
        assert(m@ =~= Map::<TileKey, V>::empty());
        m
    }

    /// Number of keys.
    pub fn len(&self) -> (n: usize)
        ensures
            n == self@.len(),
            self@.dom().finite(),
    {
        proof {
            use_type_invariant(self);
            self.lemma_dom();
        }
        self.table.len()
    }

    /// `true` when no key is present.
    pub fn is_empty(&self) -> (b: bool)
        ensures
            b == (self@.len() == 0),
            b == (self@ == Map::<TileKey, V>::empty()),
    {
        let n = self.len();
        proof {
            if n == 0 {
                self@.dom().lemma_len0_is_empty();
                assert(self@ =~= Map::<TileKey, V>::empty());
            } else {
                assert(self@.dom() != Set::<TileKey>::empty());
            }
        }
        n == 0
    }

    /// Whether `k` is present.
    pub fn contains_key(&self, k: &TileKey) -> (b: bool)
        ensures
            b == self@.contains_key(*k),
    {
        let c = code_of(k);
        self.table.contains_key(&c)
    }

    /// The value stored under `k`.
    pub fn get(&self, k: &TileKey) -> (r: Option<&V>)
        ensures
            match r {
                Some(v) => self@.contains_key(*k) && *v == self@[*k],
                None => !self@.contains_key(*k),
            },
    {
        let c = code_of(k);
        match self.table.get(&c) {
            Some(e) => Some(&e.1),
            None => None,
        }
    }

    /// Stores `v` under `k`, replacing a previous value.
    pub fn insert(&mut self, k: TileKey, v: V)
        ensures
            final(self)@ == old(self)@.insert(k, v),
    {
        proof {
            use_type_invariant(&*self);
        }
        let ghost pre = self.table@;
        let c = code_of(&k);
        let mut table: HashMap<u128, (TileKey, V)> = HashMap::new();
        std::mem::swap(&mut table, &mut self.table);
        table.insert(c, (k, v));
        self.table = table;
        proof {
            assert forall|key: TileKey| #[trigger] self@.contains_key(key) <==> old(self)@.insert(
                k,
                v,
            ).contains_key(key) by {
                lemma_key_code_injective(key, k);
            }
            assert forall|key: TileKey| #[trigger] self@.contains_key(key) implies self@[key] == old(
                self,
            )@.insert(k, v)[key] by {
                lemma_key_code_injective(key, k);
            }
            assert(self@ =~= old(self)@.insert(k, v));
        }
    }

    /// Removes `k`, giving back its value.
    pub fn remove(&mut self, k: &TileKey) -> (r: Option<V>)
        ensures
            final(self)@ == old(self)@.remove(*k),
            match r {
                Some(v) => old(self)@.contains_key(*k) && v == old(self)@[*k],
                None => !old(self)@.contains_key(*k),
            },
    {
        proof {
            use_type_invariant(&*self);
        }
        let c = code_of(k);
        let mut table: HashMap<u128, (TileKey, V)> = HashMap::new();
        std::mem::swap(&mut table, &mut self.table);
        let r = table.remove(&c);
        self.table = table;
        proof {
            assert forall|key: TileKey| #[trigger] self@.contains_key(key) <==> old(self)@.remove(
                *k,
            ).contains_key(key) by {
                lemma_key_code_injective(key, *k);
            }
            assert(self@ =~= old(self)@.remove(*k));
        }
        match r {
            Some(e) => Some(e.1),
            None => None,
        }
    }

    /// Removes every key.
    pub fn clear(&mut self)
        ensures
            final(self)@ == Map::<TileKey, V>::empty(),
    {
        self.table = HashMap::new();
        proof {
            assert(self@ =~= Map::<TileKey, V>::empty());
        }
    }

    /// The keys, each once, in the table's order (which is unspecified).
    pub fn keys(&self) -> (ks: Vec<TileKey>)
        ensures
            ks@.no_duplicates(),
            ks@.to_set() == self@.dom(),
    {
        proof {
            use_type_invariant(self);
        }
        let ghost s0 = spec_hash_map_iter(&self.table).remaining();
        let mut ks: Vec<TileKey> = Vec::new();
        for entry in it: self.table.iter()
            invariant
                it.seq() == s0,
                ks@.len() == it.index(),
                forall|i: int| 0 <= i < ks@.len() ==> #[trigger] ks@[i] == s0[i].1.0,
        {
            ks.push(entry.1.0);
        }
        assert(ks@.len() == s0.len());
        proof {
            assert forall|i: int, j: int| 0 <= i < ks@.len() && 0 <= j < ks@.len() && i != j implies ks@[i]
                != ks@[j] by {
                assert(self.table@.contains_key(*s0[i].0));
                assert(self.table@.contains_key(*s0[j].0));
                if ks@[i] == ks@[j] {
                    assert(s0[i] == s0[j]);
                }
            }
            assert forall|k: TileKey| ks@.to_set().contains(k) <==> self@.dom().contains(k) by {
                if ks@.to_set().contains(k) {
                    let i = choose|i: int| 0 <= i < ks@.len() && ks@[i] == k;
                    assert(self.table@.contains_key(*s0[i].0));
                }
                if self@.dom().contains(k) {
                    let c = key_code(k);
                    assert(self.table@.contains_key(c));
                    assert(s0.contains((&c, &self.table@[c])));
                    let i = choose|i: int| 0 <= i < s0.len() && s0[i] == (&c, &self.table@[c]);
                    lemma_key_code_injective(self.table@[c].0, k);
                    assert(ks@[i] == k);
                }
            }
            assert(ks@.to_set() =~= self@.dom());
        }
        ks
    }
}

/// A finite set of tile keys.
pub struct TileSet {
    map: KeyMap<()>,
}

impl TileSet {
    /// The set this collection holds.
    pub closed spec fn view(&self) -> Set<TileKey> {
        self.map@.dom()
    }

    /// An empty set.
    pub fn new() -> (s: Self)
        ensures
            s@ == Set::<TileKey>::empty(),
    {
        let s = TileSet { map: KeyMap::new() };
        assert(s@ =~= Set::<TileKey>::empty());
        s
    }

    /// The set of the keys in `keys`.
    pub fn from_keys(keys: &Vec<TileKey>) -> (s: Self)
        ensures
            s@ == keys@.to_set(),
    {
        let mut s = TileSet::new();
        let mut i: usize = 0;
        while i < keys.len()
            invariant
                i <= keys@.len(),
                s@ == keys@.take(i as int).to_set(),
            decreases keys@.len() - i,
        {
            s.insert(keys[i]);
            proof {
                assert(keys@.take(i + 1) == keys@.take(i as int).push(keys@[i as int]));
                keys@.take(i as int).lemma_push_to_set_commute(keys@[i as int]);
            }
            i = i + 1;
        }
        proof {
            assert(keys@.take(keys@.len() as int) == keys@);
        }
        s
    }

    /// Number of keys.
    pub fn len(&self) -> (n: usize)
        ensures
            n == self@.len(),
            self@.finite(),
    {
        self.map.len()
    }

    /// `true` when no key is present.
    pub fn is_empty(&self) -> (b: bool)
        ensures
            b == (self@ == Set::<TileKey>::empty()),
            b == (self@.len() == 0),
    {
        let n = self.map.len();
        proof {
            if n == 0 {
                self@.lemma_len0_is_empty();
            }
        }
        n == 0
    }

    /// Whether `k` is present.
    pub fn contains(&self, k: &TileKey) -> (b: bool)
        ensures
            b == self@.contains(*k),
    {
        self.map.contains_key(k)
    }

    /// Adds `k`; `true` when it was absent.
    pub fn insert(&mut self, k: TileKey) -> (b: bool)
        ensures
            final(self)@ == old(self)@.insert(k),
            b == !old(self)@.contains(k),
    {
        let b = !self.map.contains_key(&k);
        self.map.insert(k, ());
        proof {
            assert(self@ =~= old(self)@.insert(k));
        }
        b
    }

    /// Removes `k`; `true` when it was present.
    pub fn remove(&mut self, k: &TileKey) -> (b: bool)
        ensures
            final(self)@ == old(self)@.remove(*k),
            b == old(self)@.contains(*k),
    {
        let r = self.map.remove(k);
        proof {
            assert(self@ =~= old(self)@.remove(*k));
        }
        r.is_some()
    }

    /// The keys, each once.
    pub fn to_vec(&self) -> (ks: Vec<TileKey>)
        ensures
            ks@.no_duplicates(),
            ks@.to_set() == self@,
    {
        self.map.keys()
    }
}

} // verus!
