//! A small map from byte-string keys to byte-string values with
//! last-write-wins insertion, used for query parameters and header fields.

use vstd::prelude::*;

verus! {

/// The map described by a sequence of key-value pairs, inserted from first
/// to last, a later pair overwriting an earlier one with the same key.
pub open spec fn pairs_to_map(ps: Seq<(Seq<u8>, Seq<u8>)>) -> Map<Seq<u8>, Seq<u8>>
    decreases ps.len(),
{
    if ps.len() == 0 {
        Map::empty()
    } else {
        pairs_to_map(ps.drop_last()).insert(ps.last().0, ps.last().1)
    }
}

/// A key of some pair of `ps`.
pub open spec fn pairs_contain_key(ps: Seq<(Seq<u8>, Seq<u8>)>, k: Seq<u8>) -> bool {
    exists|i: int| 0 <= i < ps.len() && ps[i].0 == k
}

/// The domain of `pairs_to_map(ps)` is the set of keys of `ps`.
pub proof fn lemma_pairs_to_map_dom(ps: Seq<(Seq<u8>, Seq<u8>)>, k: Seq<u8>)
    ensures
        pairs_to_map(ps).contains_key(k) <==> pairs_contain_key(ps, k),
    decreases ps.len(),
{
    if ps.len() > 0 {
        lemma_pairs_to_map_dom(ps.drop_last(), k);
        if pairs_contain_key(ps, k) && ps.last().0 != k {
            let i = choose|i: int| 0 <= i < ps.len() && ps[i].0 == k;
            assert(i == ps.len() - 1 || ps.drop_last()[i].0 == k);
            assert(pairs_contain_key(ps.drop_last(), k));
        }
        if pairs_contain_key(ps.drop_last(), k) {
            let i = choose|i: int| 0 <= i < ps.drop_last().len() && ps.drop_last()[i].0 == k;
            assert(ps[i].0 == k);
        }
    }
}

/// With pairwise distinct keys, the map holds exactly one entry per pair.
pub proof fn lemma_pairs_to_map_len(ps: Seq<(Seq<u8>, Seq<u8>)>)
    requires
        forall|i: int, j: int| 0 <= i < j < ps.len() ==> ps[i].0 != ps[j].0,
    ensures
        pairs_to_map(ps).dom().len() == ps.len(),
        pairs_to_map(ps).dom().finite(),
    decreases ps.len(),
{
    if ps.len() == 0 {
        assert(pairs_to_map(ps).dom() =~= Set::<Seq<u8>>::empty());
    } else {
        let head = ps.drop_last();
        lemma_pairs_to_map_len(head);
        lemma_pairs_to_map_dom(head, ps.last().0);
        assert(forall|i: int| 0 <= i < head.len() ==> head[i] == ps[i]);
        assert(!pairs_contain_key(head, ps.last().0));
        assert(pairs_to_map(ps).dom() =~= pairs_to_map(head).dom().insert(ps.last().0));
        vstd::set::axiom_set_insert_finite(pairs_to_map(head).dom(), ps.last().0);
        vstd::set::axiom_set_insert_len(pairs_to_map(head).dom(), ps.last().0);
    }
}

/// A map from byte-string keys to byte-string values.  Its view is the
/// mathematical `Map` built from its pairs; keys are stored at most once.
pub struct KeyValueMap {
    pairs: Vec<(Vec<u8>, Vec<u8>)>,
}

impl View for KeyValueMap {
    type V = Map<Seq<u8>, Seq<u8>>;

    closed spec fn view(&self) -> Map<Seq<u8>, Seq<u8>> {
        pairs_to_map(self.pair_views())
    }
}

impl KeyValueMap {
    /// The views of the stored pairs, in storage order.
    closed spec fn pair_views(&self) -> Seq<(Seq<u8>, Seq<u8>)> {
        self.pairs@.map_values(|p: (Vec<u8>, Vec<u8>)| (p.0@, p.1@))
    }

    /// The keys stored in `pairs` are pairwise distinct.  Constructors
    /// establish this and every method preserves it.
    pub closed spec fn wf(&self) -> bool {
        forall|i: int, j: int|
            0 <= i < j < self.pair_views().len() ==> self.pair_views()[i].0
                != self.pair_views()[j].0
    }

    /// The empty map.
    pub fn new() -> (r: KeyValueMap)
        ensures
            r@ == Map::<Seq<u8>, Seq<u8>>::empty(),
            r.wf(),
    {
        let r = KeyValueMap { pairs: Vec::new() };
        proof {
            assert(r.pair_views().len() == 0);
        }
        r
    }

    /// Inserts `v` under `k`, overwriting the value stored for `k` if there
    /// is one.
    pub fn insert(&mut self, k: Vec<u8>, v: Vec<u8>)
        requires
            old(self).wf(),
        ensures
            final (self)@ == old(self)@.insert(k@, v@),
            final (self).wf(),
    {
        let ghost ps = self.pair_views();
        let n = self.pairs.len();
        let mut i: usize = 0;
        while i < n
            invariant
                i <= n == ps.len(),
                ps == self.pair_views(),
                *self == *old(self),
                self.wf(),
                forall|j: int| 0 <= j < i ==> ps[j].0 != k@,
            decreases n - i,
        {
            if crate::bytes::bytes_eq(self.pairs[i].0.as_slice(), k.as_slice()) {
                let ghost old_pairs = self.pair_views();
                self.pairs[i] = (k, v);
                proof {
                    assert(self.pair_views() =~~= old_pairs.update(i as int, (k@, v@)));
                    lemma_pairs_to_map_update(old_pairs, i as int, k@, v@);
                    assert forall|a: int, b: int|
                        0 <= a < b < self.pair_views().len() implies self.pair_views()[a].0
                        != self.pair_views()[b].0 by {
                        assert(old_pairs[a].0 != old_pairs[b].0);
                        assert(old_pairs[i as int].0 == k@);
                    }
                    assert(self.wf());
                }
                return ;
            }
            i = i + 1;
        }
        let ghost old_pairs = self.pair_views();
        self.pairs.push((k, v));
        proof {
            assert(self.pair_views() =~~= old_pairs.push((k@, v@)));
            assert(old_pairs.push((k@, v@)).drop_last() =~~= old_pairs);
            assert(self.wf());
        }
    }

    /// The value stored under `k`, if any.
    pub fn get(&self, k: &[u8]) -> (r: Option<&Vec<u8>>)
        requires
            self.wf(),
        ensures
            match r {
                Some(v) => self@.contains_key(k@) && v@ == self@[k@],
                None => !self@.contains_key(k@),
            },
    {
        let ghost ps = self.pair_views();
        let n = self.pairs.len();
        let mut i: usize = 0;
        while i < n
            invariant
                i <= n == ps.len(),
                ps == self.pair_views(),
                self.wf(),
                forall|j: int| 0 <= j < i ==> ps[j].0 != k@,
            decreases n - i,
        {
            if crate::bytes::bytes_eq(self.pairs[i].0.as_slice(), k) {
                proof {
                    lemma_pairs_to_map_get(ps, i as int);
                }
                return Some(&self.pairs[i].1);
            }
            i = i + 1;
        }
        proof {
            lemma_pairs_to_map_dom(ps, k@);
        }
        None
    }

    /// The number of entries.
    pub fn len(&self) -> (r: usize)
        requires
            self.wf(),
        ensures
            r == self@.dom().len(),
    {
        proof {
            lemma_pairs_to_map_len(self.pair_views());
        }
        self.pairs.len()
    }
}

/// Updating the pair at `i`, whose key is `k` and occurs only there, makes
/// the map that inserts `v` under `k`.
proof fn lemma_pairs_to_map_update(ps: Seq<(Seq<u8>, Seq<u8>)>, i: int, k: Seq<u8>, v: Seq<u8>)
    requires
        0 <= i < ps.len(),
        ps[i].0 == k,
        forall|a: int, b: int| 0 <= a < b < ps.len() ==> ps[a].0 != ps[b].0,
    ensures
        pairs_to_map(ps.update(i, (k, v))) == pairs_to_map(ps).insert(k, v),
    decreases ps.len(),
{
    let upd = ps.update(i, (k, v));
    if i == ps.len() - 1 {
        assert(upd.drop_last() =~~= ps.drop_last());
        assert(pairs_to_map(upd) =~~= pairs_to_map(ps).insert(k, v));
    } else {
        assert(upd.drop_last() =~~= ps.drop_last().update(i, (k, v)));
        lemma_pairs_to_map_update(ps.drop_last(), i, k, v);
        assert(ps.last().0 != k);
        assert(pairs_to_map(upd) =~~= pairs_to_map(ps.drop_last()).insert(k, v).insert(
            ps.last().0,
            ps.last().1,
        ));
        assert(pairs_to_map(ps.drop_last()).insert(k, v).insert(ps.last().0, ps.last().1)
            =~~= pairs_to_map(ps.drop_last()).insert(ps.last().0, ps.last().1).insert(k, v));
    }
}

/// With pairwise distinct keys, the map's value for the key of pair `i` is
/// that pair's value.
proof fn lemma_pairs_to_map_get(ps: Seq<(Seq<u8>, Seq<u8>)>, i: int)
    requires
        0 <= i < ps.len(),
        forall|a: int, b: int| 0 <= a < b < ps.len() ==> ps[a].0 != ps[b].0,
    ensures
        pairs_to_map(ps).contains_key(ps[i].0),
        pairs_to_map(ps)[ps[i].0] == ps[i].1,
    decreases ps.len(),
{
    if i < ps.len() - 1 {
        lemma_pairs_to_map_get(ps.drop_last(), i);
        assert(ps.last().0 != ps[i].0);
    }
}

} // verus!
