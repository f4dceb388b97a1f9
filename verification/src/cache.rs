//! A small least-recently-used cache of loaded cells, keyed by cell
//! coordinates. Every lookup and every store advances a clock; each entry
//! remembers the clock reading of its last use, and a store that overfills the
//! cache drops the entry used longest ago.
use vstd::prelude::*;
use std::collections::HashMap;
use crate::world::{cell_key, cell_key_exec};

verus! {

broadcast use {vstd::seq_lib::seq_to_set_is_finite, vstd::std_specs::hash::group_hash_axioms};

/// The mathematical value of a [`CellCache`]: its capacity, its clock, and for
/// each cached cell its value and the clock reading of its last use.
pub struct CacheView<V> {
    pub cap: nat,
    pub tick: u64,
    pub entries: Map<(u32, u32), (V, u64)>,
}

impl<V> CacheView<V> {
    /// What every cache state satisfies: room for at least one cell, no more
    /// cells than that, every use at or before the clock, and no two cells
    /// last used at the same reading.
    pub open spec fn valid(self) -> bool {
        &&& self.cap >= 1
        &&& self.entries.dom().finite()
        &&& self.entries.len() <= self.cap
        &&& forall|k: (u32, u32)| #[trigger] self.entries.contains_key(k) ==> self.entries[k].1 <= self.tick
        &&& forall|k1: (u32, u32), k2: (u32, u32)|
            #[trigger] self.entries.contains_key(k1) && #[trigger] self.entries.contains_key(k2) && k1 != k2
                ==> self.entries[k1].1 != self.entries[k2].1
    }

    /// Whether `k` is the cell used longest ago.
    pub open spec fn is_lru(self, k: (u32, u32)) -> bool {
        &&& self.entries.contains_key(k)
        &&& forall|k2: (u32, u32)| #[trigger] self.entries.contains_key(k2) ==> self.entries[k].1 <= self.entries[k2].1
    }

    /// The state after looking up `key`: the clock advances, and a cached
    /// `key` is marked as used now.
    pub open spec fn get_spec(self, key: (u32, u32)) -> CacheView<V> {
        let t = (self.tick + 1) as u64;
        CacheView {
            cap: self.cap,
            tick: t,
            entries: if self.entries.contains_key(key) {
                self.entries.insert(key, (self.entries[key].0, t))
            } else {
                self.entries
            },
        }
    }

    /// The state after storing `value` under `key`: the clock advances, `key`
    /// holds `value` and is marked as used now, and when that leaves more
    /// cells than the capacity, the cell used longest ago is dropped.
    pub open spec fn put_spec(self, key: (u32, u32), value: V) -> CacheView<V> {
        let t = (self.tick + 1) as u64;
        let stored = CacheView { cap: self.cap, tick: t, entries: self.entries.insert(key, (value, t)) };
        if stored.entries.len() > self.cap {
            CacheView { entries: stored.entries.remove(choose|k: (u32, u32)| stored.is_lru(k)), ..stored }
        } else {
            stored
        }
    }
}

/// The cell a hash-map key stands for: the key's high and low 32 bits.
pub open spec fn key_cell(k: u64) -> (u32, u32) {
    ((k / 0x1_0000_0000) as u32, (k % 0x1_0000_0000) as u32)
}

/// A bounded cache of values keyed by cell coordinates, dropping the least
/// recently used cell when full. Each cell `(x, y)` is stored in a hash map
/// under `cell_key(x, y)`, with the clock reading of its last use.
pub struct CellCache<V> {
    cap: usize,
    tick: u64,
    map: HashMap<u64, (V, u64)>,
}

impl<V> View for CellCache<V> {
    type V = CacheView<V>;

    closed spec fn view(&self) -> CacheView<V> {
        CacheView {
            cap: self.cap as nat,
            tick: self.tick,
            entries: Map::new(
                |c: (u32, u32)| self.map@.contains_key(cell_key(c.0, c.1)),
                |c: (u32, u32)| self.map@[cell_key(c.0, c.1)],
            ),
        }
    }
}

/// Every key stands for exactly one cell.
proof fn lemma_key_cell(k: u64, c: (u32, u32))
    ensures
        cell_key(key_cell(k).0, key_cell(k).1) == k,
        key_cell(cell_key(c.0, c.1)) == c,
{
}

impl<V> CellCache<V> {
    /// Room for a cell, no more cells than that, uses distinct and at or
    /// before the clock.
    pub closed spec fn wf(&self) -> bool {
        &&& self.cap >= 1
        &&& self.map@.dom().finite()
        &&& self.map@.len() <= self.cap
        &&& forall|k: u64| #[trigger] self.map@.contains_key(k) ==> self.map@[k].1 <= self.tick
        &&& forall|k1: u64, k2: u64|
            #[trigger] self.map@.contains_key(k1) && #[trigger] self.map@.contains_key(k2) && k1 != k2
                ==> self.map@[k1].1 != self.map@[k2].1
    }

    /// The cells are the hash map's keys, one for one.
    proof fn lemma_entries(&self)
        requires
            self.map@.dom().finite(),
        ensures
            self@.entries.dom().finite(),
            self@.entries.len() == self.map@.len(),
            forall|c: (u32, u32)| #[trigger] self@.entries.contains_key(c) ==> self.map@.contains_key(cell_key(c.0, c.1)),
    {
        let decode = |k: u64| key_cell(k);
        assert forall|c: (u32, u32)| #[trigger] self.map@.dom().map(decode).contains(c) == self@.entries.contains_key(c) by {
            lemma_key_cell(cell_key(c.0, c.1), c);
            if self@.entries.contains_key(c) {
                assert(decode(cell_key(c.0, c.1)) == c);
            }
            if self.map@.dom().map(decode).contains(c) {
                let k = choose|k: u64| self.map@.dom().contains(k) && decode(k) == c;
                lemma_key_cell(k, c);
            }
        }
        assert(self.map@.dom().map(decode) =~= self@.entries.dom());
        assert forall|k1: u64, k2: u64| self.map@.dom().contains(k1) && self.map@.dom().contains(k2) && #[trigger] decode(k1)
            == #[trigger] decode(k2) implies k1 == k2 by {
            lemma_key_cell(k1, decode(k1));
            lemma_key_cell(k2, decode(k2));
        }
        vstd::set_lib::lemma_map_size(self.map@.dom(), self@.entries.dom(), decode);
    }

    /// Every cache state is valid.
    pub proof fn lemma_valid(&self)
        requires
            self.wf(),
        ensures
            self@.valid(),
    {
        self.lemma_entries();
        let m = self@.entries;
        assert forall|k1: (u32, u32), k2: (u32, u32)|
            #[trigger] m.contains_key(k1) && #[trigger] m.contains_key(k2) && k1 != k2 implies m[k1].1 != m[k2].1 by {
            lemma_key_cell(cell_key(k1.0, k1.1), k1);
            lemma_key_cell(cell_key(k2.0, k2.1), k2);
        }
    }

    /// An empty cache with room for `cap` cells, at least one.
    pub fn new(cap: usize) -> (r: Self)
        ensures
            r.wf(),
            r@.cap == (if cap >= 1 { cap as nat } else { 1 }),
            r@.tick == 0,
            r@.entries == Map::<(u32, u32), (V, u64)>::empty(),
    {
        let r = CellCache { cap: if cap >= 1 { cap } else { 1 }, tick: 0, map: HashMap::new() };
        assert(r@.entries =~= Map::<(u32, u32), (V, u64)>::empty());
        r
    }

    /// The reading of the clock.
    pub fn tick(&self) -> (r: u64)
        ensures
            r == self@.tick,
    {
        self.tick
    }

    /// Looks up `key`, marking it as used now. The clock advances whether or
    /// not the cell is cached.
    pub fn get(&mut self, key: (u32, u32)) -> (r: Option<&V>)
        requires
            old(self).wf(),
            old(self)@.tick < u64::MAX,
        ensures
            final(self).wf(),
            final(self)@ == old(self)@.get_spec(key),
            match r {
                Some(v) => old(self)@.entries.contains_key(key) && *v == old(self)@.entries[key].0,
                None => !old(self)@.entries.contains_key(key),
            },
    {
        self.tick = self.tick + 1;
        let t = self.tick;
        let k = cell_key_exec(key.0, key.1);
        proof {
            lemma_key_cell(k, key);
        }
        match self.map.remove(&k) {
            None => {
                proof {
                    assert(self.map@ =~= old(self).map@);
                    assert(self@.entries =~= old(self)@.entries);
                }
                None
            },
            Some(e) => {
                let (v, _) = e;
                self.map.insert(k, (v, t));
                proof {
                    assert(self.map@ =~= old(self).map@.insert(k, (v, t)));
                    assert forall|c: (u32, u32)| #[trigger] self@.entries.contains_key(c) == old(self)@.get_spec(key).entries.contains_key(c)
                        && (self@.entries.contains_key(c) ==> self@.entries[c] == old(self)@.get_spec(key).entries[c]) by {
                        lemma_key_cell(cell_key(c.0, c.1), c);
                    }
                    assert(self@.entries =~= old(self)@.get_spec(key).entries);
                    assert(old(self).map@.dom().insert(k) =~= old(self).map@.dom());
                }
                match self.map.get(&k) {
                    Some(e2) => Some(&e2.0),
                    None => None,
                }
            },
        }
    }

    /// The key used longest ago.
    fn oldest(&self) -> (r: u64)
        requires
            self.map@.len() > 0,
            self.map@.dom().finite(),
        ensures
            self.map@.contains_key(r),
            forall|k: u64| #[trigger] self.map@.contains_key(k) ==> self.map@[r].1 <= self.map@[k].1,
    {
        let mut best: u64 = 0;
        let mut best_t: u64 = 0;
        let mut found = false;
        let ghost mut seen: Set<u64> = Set::empty();
        for kk in it: self.map.keys()
            invariant
                self.map@.dom().finite(),
                it.seq().unref().to_set() == self.map@.dom(),
                seen == it.seq().unref().take(it.index() as int).to_set(),
                it.index() == it.seq().len() ==> seen == self.map@.dom(),
                found <==> it.index() > 0,
                found ==> self.map@.contains_key(best) && best_t == self.map@[best].1,
                forall|k: u64| #[trigger] seen.contains(k) ==> best_t <= self.map@[k].1,
        {
            let ghost i = it.index() as int;
            proof {
                assert(it.seq().unref()[i] == *kk);
                assert(it.seq().unref().to_set().contains(*kk));
            }
            let t2 = match self.map.get(kk) {
                Some(e) => e.1,
                None => 0,
            };
            if !found || t2 < best_t {
                best = *kk;
                best_t = t2;
                found = true;
            }
            let ghost before = seen;
            proof {
                seen = seen.insert(*kk);
            }
            proof {
                assert(it.seq().unref().take(i + 1) =~= it.seq().unref().take(i).push(*kk));
                it.seq().unref().take(i).lemma_push_to_set_commute(*kk);
                assert(it.seq().unref().take(i + 1).to_set() =~= before.insert(*kk));
                assert(i + 1 == it.seq().unref().len() ==> it.seq().unref().take(i + 1) =~= it.seq().unref());
            }
        }
        proof {
            if !found {
                let k = self.map@.dom().choose();
                assert(self.map@.contains_key(k));
                assert(seen.contains(k));
            }
        }
        best
    }

    /// Stores `value` under `key`, marking it as used now; when that leaves
    /// more cells than the capacity, drops the least recently used one.
    pub fn put(&mut self, key: (u32, u32), value: V)
        requires
            old(self).wf(),
            old(self)@.tick < u64::MAX,
        ensures
            final(self).wf(),
            final(self)@ == old(self)@.put_spec(key, value),
    {
        self.tick = self.tick + 1;
        let t = self.tick;
        let k = cell_key_exec(key.0, key.1);
        let ghost stored = CacheView { cap: old(self)@.cap, tick: t, entries: old(self)@.entries.insert(key, (value, t)) };
        self.map.insert(k, (value, t));
        proof {
            lemma_key_cell(k, key);
            assert forall|c: (u32, u32)| #[trigger] self@.entries.contains_key(c) == stored.entries.contains_key(c)
                && (self@.entries.contains_key(c) ==> self@.entries[c] == stored.entries[c]) by {
                lemma_key_cell(cell_key(c.0, c.1), c);
            }
            assert(self@.entries =~= stored.entries);
            self.lemma_entries();
            assert forall|k1: u64, k2: u64|
                #[trigger] self.map@.contains_key(k1) && #[trigger] self.map@.contains_key(k2) && k1 != k2
                    implies self.map@[k1].1 != self.map@[k2].1 by {
                if k1 != k && k2 != k {
                    assert(old(self).map@.contains_key(k1) && old(self).map@.contains_key(k2));
                } else if k1 == k {
                    assert(old(self).map@.contains_key(k2));
                } else {
                    assert(old(self).map@.contains_key(k1));
                }
            }
            if old(self).map@.contains_key(k) {
                assert(self.map@.dom() =~= old(self).map@.dom());
            } else {
                assert(self.map@.dom() =~= old(self).map@.dom().insert(k));
            }
        }
        if self.map.len() > self.cap {
            let o = self.oldest();
            let ghost full = self.map@;
            let ghost lru = key_cell(o);
            proof {
                lemma_key_cell(o, lru);
                assert(stored.is_lru(lru)) by {
                    assert forall|c2: (u32, u32)| #[trigger] stored.entries.contains_key(c2) implies stored.entries[lru].1 <= stored.entries[c2].1 by {
                        assert(full.contains_key(cell_key(c2.0, c2.1)));
                    }
                }
                let c = choose|c: (u32, u32)| stored.is_lru(c);
                assert(stored.is_lru(c));
                if c != lru {
                    lemma_key_cell(cell_key(c.0, c.1), c);
                    assert(full.contains_key(cell_key(c.0, c.1)));
                    assert(stored.entries[c].1 <= stored.entries[lru].1);
                    assert(stored.entries[lru].1 <= stored.entries[c].1);
                    assert(full[cell_key(c.0, c.1)].1 != full[o].1);
                }
            }
            self.map.remove(&o);
            proof {
                assert(self.map@ =~= full.remove(o));
                assert forall|c: (u32, u32)| #[trigger] self@.entries.contains_key(c) == stored.entries.remove(lru).contains_key(c)
                    && (self@.entries.contains_key(c) ==> self@.entries[c] == stored.entries.remove(lru)[c]) by {
                    lemma_key_cell(cell_key(c.0, c.1), c);
                }
                assert(self@.entries =~= stored.entries.remove(lru));
                assert(self.map@.dom() =~= full.dom().remove(o));
            }
        }
    }
}

/// Looking a cell up changes no cached value and no set of cached cells, and
/// keeps the state valid.
pub proof fn lemma_get_keeps_contents<V>(c: CacheView<V>, key: (u32, u32))
    requires
        c.valid(),
        c.tick < u64::MAX,
    ensures
        c.get_spec(key).valid(),
        c.get_spec(key).entries.dom() == c.entries.dom(),
        forall|k: (u32, u32)| #[trigger] c.entries.contains_key(k) ==> c.get_spec(key).entries[k].0 == c.entries[k].0,
{
    let g = c.get_spec(key);
    if c.entries.contains_key(key) {
        assert(g.entries.dom() =~= c.entries.dom());
    }
}

/// Storing a cell keeps the state valid: in particular the cache never holds
/// more cells than its capacity.
pub proof fn lemma_put_keeps_valid<V>(c: CacheView<V>, key: (u32, u32), value: V)
    requires
        c.valid(),
        c.tick < u64::MAX,
    ensures
        c.put_spec(key, value).valid(),
        c.put_spec(key, value).entries.len() <= c.cap,
{
    let t = (c.tick + 1) as u64;
    let stored = CacheView { cap: c.cap, tick: t, entries: c.entries.insert(key, (value, t)) };
    assert(stored.valid() || stored.entries.len() > c.cap);
    if stored.entries.len() > c.cap {
        let lru = choose|k: (u32, u32)| stored.is_lru(k);
        lemma_lru_exists(stored);
        let r = stored.entries.remove(lru);
        assert(r.len() == stored.entries.len() - 1);
        if c.entries.contains_key(key) {
            assert(stored.entries.dom() =~= c.entries.dom());
        } else {
            assert(stored.entries.dom() =~= c.entries.dom().insert(key));
        }
    }
}

/// A finite non-empty map of uses has a cell used longest ago.
proof fn lemma_lru_exists<V>(c: CacheView<V>)
    requires
        c.entries.dom().finite(),
        c.entries.len() > 0,
    ensures
        exists|k: (u32, u32)| c.is_lru(k),
    decreases c.entries.len(),
{
    let k0 = c.entries.dom().choose();
    assert(c.entries.contains_key(k0));
    let rest = CacheView { entries: c.entries.remove(k0), ..c };
    if rest.entries.len() == 0 {
        assert forall|k2: (u32, u32)| #[trigger] c.entries.contains_key(k2) implies c.entries[k0].1 <= c.entries[k2].1 by {
            if k2 != k0 {
                assert(rest.entries.contains_key(k2));
            }
        }
        assert(c.is_lru(k0));
    } else {
        lemma_lru_exists(rest);
        let k1 = choose|k: (u32, u32)| rest.is_lru(k);
        if c.entries[k0].1 <= c.entries[k1].1 {
            assert forall|k2: (u32, u32)| #[trigger] c.entries.contains_key(k2) implies c.entries[k0].1 <= c.entries[k2].1 by {
                if k2 != k0 {
                    assert(rest.entries.contains_key(k2));
                }
            }
            assert(c.is_lru(k0));
        } else {
            assert forall|k2: (u32, u32)| #[trigger] c.entries.contains_key(k2) implies c.entries[k1].1 <= c.entries[k2].1 by {
                if k2 != k0 {
                    assert(rest.entries.contains_key(k2));
                }
            }
            assert(c.is_lru(k1));
        }
    }
}

/// A cell just stored is found, with the stored value, by the next lookup.
pub proof fn lemma_put_then_get<V>(c: CacheView<V>, key: (u32, u32), value: V)
    requires
        c.valid(),
        c.tick < u64::MAX,
    ensures
        c.put_spec(key, value).entries.contains_key(key),
        c.put_spec(key, value).entries[key].0 == value,
{
    let t = (c.tick + 1) as u64;
    let stored = CacheView { cap: c.cap, tick: t, entries: c.entries.insert(key, (value, t)) };
    if stored.entries.len() > c.cap {
        lemma_lru_exists(stored);
        let lru = choose|k: (u32, u32)| stored.is_lru(k);
        if lru == key {
            // another cell is cached, used before now
            let other = stored.entries.remove(key).dom().choose();
            assert(stored.entries.remove(key).len() > 0);
            assert(stored.entries.remove(key).contains_key(other));
            assert(stored.entries[other].1 <= c.tick);
            assert(stored.entries[key].1 <= stored.entries[other].1);
        }
    }
}

/// When a new cell is stored in a full cache, the cell used longest ago is
/// the one dropped.
pub proof fn lemma_put_drops_lru<V>(c: CacheView<V>, key: (u32, u32), value: V)
    requires
        c.valid(),
        c.tick < u64::MAX,
        !c.entries.contains_key(key),
        c.entries.len() == c.cap,
    ensures
        exists|lru: (u32, u32)|
            c.is_lru(lru) && c.put_spec(key, value).entries == c.entries.remove(lru).insert(key, (value, (c.tick + 1) as u64)),
{
    let t = (c.tick + 1) as u64;
    let stored = CacheView { cap: c.cap, tick: t, entries: c.entries.insert(key, (value, t)) };
    assert(stored.entries.dom() =~= c.entries.dom().insert(key));
    lemma_lru_exists(stored);
    let lru = choose|k: (u32, u32)| stored.is_lru(k);
    lemma_put_then_get(c, key, value);
    assert(lru != key);
    assert(c.is_lru(lru)) by {
        assert forall|k2: (u32, u32)| #[trigger] c.entries.contains_key(k2) implies c.entries[lru].1 <= c.entries[k2].1 by {
            assert(stored.entries.contains_key(k2));
        }
    }
    assert(stored.entries.remove(lru) =~= c.entries.remove(lru).insert(key, (value, t)));
}

} // verus!
