//! A sorted association list from byte keys to byte values.
//!
//! This is the ordered keyspace at the heart of the store: entries are kept
//! strictly ascending in the lexicographic order, so point lookups, ordered
//! scans and prefix iteration are all answered from one structure. Its
//! abstract value is a `Map<Seq<u8>, Seq<u8>>`, and the entry sequence itself
//! is exposed for the scan functions, which walk it by index.

use vstd::prelude::*;

use crate::order::{bytes_cmp, lex_le, lex_lt, lemma_lex_antisym, lemma_lex_total_at, Cmp};

verus! {

/// The entries of a sorted list, as mathematical pairs.
pub open spec fn pairs_of(es: Seq<(Vec<u8>, Vec<u8>)>) -> Seq<(Seq<u8>, Seq<u8>)> {
    Seq::new(es.len(), |i: int| (es[i].0@, es[i].1@))
}

/// Keys strictly ascend.
pub open spec fn strictly_sorted(ps: Seq<(Seq<u8>, Seq<u8>)>) -> bool {
    forall|i: int, j: int| 0 <= i < j < ps.len() ==> lex_lt(#[trigger] ps[i].0, #[trigger] ps[j].0)
}

/// The mapping an entry sequence denotes.
pub open spec fn map_of(ps: Seq<(Seq<u8>, Seq<u8>)>) -> Map<Seq<u8>, Seq<u8>> {
    Map::new(
        |k: Seq<u8>| exists|i: int| 0 <= i < ps.len() && (#[trigger] ps[i]).0 == k,
        |k: Seq<u8>| ps[choose|i: int| 0 <= i < ps.len() && (#[trigger] ps[i]).0 == k].1,
    )
}

/// In a strictly sorted sequence, the entry at `i` is what the map holds for
/// its key.
pub proof fn lemma_entry_in_map(ps: Seq<(Seq<u8>, Seq<u8>)>, i: int)
    requires
        strictly_sorted(ps),
        0 <= i < ps.len(),
    ensures
        map_of(ps).contains_key(ps[i].0),
        map_of(ps)[ps[i].0] == ps[i].1,
{
    let k = ps[i].0;
    assert(map_of(ps).contains_key(k));
    let j = choose|j: int| 0 <= j < ps.len() && (#[trigger] ps[j]).0 == k;
    if j != i {
        assert(lex_lt(ps[i].0, ps[j].0) || lex_lt(ps[j].0, ps[i].0));
    }
}

/// A sorted association list from byte keys to byte values.
pub struct SortedKv {
    entries: Vec<(Vec<u8>, Vec<u8>)>,
}

impl SortedKv {
    /// The entries as mathematical pairs, in storage (ascending) order.
    pub closed spec fn pairs(&self) -> Seq<(Seq<u8>, Seq<u8>)> {
        pairs_of(self.entries@)
    }

    /// Well-formed: keys strictly ascend.
    pub open spec fn wf(&self) -> bool {
        strictly_sorted(self.pairs())
    }

    /// The mapping this list denotes.
    pub open spec fn view_map(&self) -> Map<Seq<u8>, Seq<u8>> {
        map_of(self.pairs())
    }

    /// The lookup this list answers, as an `Option`.
    pub open spec fn spec_get(&self, k: Seq<u8>) -> Option<Seq<u8>> {
        if self.view_map().contains_key(k) {
            Some(self.view_map()[k])
        } else {
            None
        }
    }

    /// An empty keyspace.
    pub fn new() -> (r: SortedKv)
        ensures
            r.wf(),
            r.pairs() =~= Seq::<(Seq<u8>, Seq<u8>)>::empty(),
            r.view_map() =~= Map::<Seq<u8>, Seq<u8>>::empty(),
    {
        SortedKv { entries: Vec::new() }
    }

    /// How many entries the keyspace holds.
    pub fn len(&self) -> (r: usize)
        ensures
            r == self.pairs().len(),
    {
        self.entries.len()
    }

    /// The key of the entry at position `i`.
    pub fn key_at(&self, i: usize) -> (r: &Vec<u8>)
        requires
            i < self.pairs().len(),
        ensures
            r@ == self.pairs()[i as int].0,
    {
        &self.entries[i].0
    }

    /// The value of the entry at position `i`.
    pub fn val_at(&self, i: usize) -> (r: &Vec<u8>)
        requires
            i < self.pairs().len(),
        ensures
            r@ == self.pairs()[i as int].1,
    {
        &self.entries[i].1
    }

    /// The position of the first key at or above `lo`, and whether it equals
    /// `lo`.
    fn locate(&self, lo: &Vec<u8>) -> (r: (usize, bool))
        requires
            self.wf(),
        ensures
            r.0 <= self.pairs().len(),
            forall|j: int| 0 <= j < r.0 ==> lex_lt(#[trigger] self.pairs()[j].0, lo@),
            r.0 < self.pairs().len() ==> lex_le(lo@, self.pairs()[r.0 as int].0),
            r.1 <==> (r.0 < self.pairs().len() && self.pairs()[r.0 as int].0 == lo@),
    {
        let n = self.entries.len();
        let mut p: usize = 0;
        while p < n
            invariant
                0 <= p <= n,
                n == self.pairs().len(),
                self.wf(),
                forall|j: int| 0 <= j < p ==> lex_lt(#[trigger] self.pairs()[j].0, lo@),
            decreases n - p,
        {
            match bytes_cmp(&self.entries[p].0, lo) {
                Cmp::Below => {
                    p = p + 1;
                },
                Cmp::Equal => {
                    proof {
                        lemma_lex_total_at(lo@, lo@, 0);
                    }
                    return (p, true);
                },
                Cmp::Above => {
                    proof {
                        lemma_lex_total_at(lo@, self.pairs()[p as int].0, 0);
                    }
                    return (p, false);
                },
            }
        }
        (p, false)
    }

    /// The index of the first entry whose key is at or above `lo`; entries
    /// before it are strictly below `lo`.
    pub fn first_ge(&self, lo: &Vec<u8>) -> (r: usize)
        requires
            self.wf(),
        ensures
            r <= self.pairs().len(),
            forall|j: int| 0 <= j < r ==> lex_lt(#[trigger] self.pairs()[j].0, lo@),
            r < self.pairs().len() ==> lex_le(lo@, self.pairs()[r as int].0),
    {
        self.locate(lo).0
    }

    /// The index of the first entry whose key is strictly above `lo`.
    pub fn first_gt(&self, lo: &Vec<u8>) -> (r: usize)
        requires
            self.wf(),
        ensures
            r <= self.pairs().len(),
            forall|j: int| 0 <= j < r ==> lex_le(#[trigger] self.pairs()[j].0, lo@),
            r < self.pairs().len() ==> lex_lt(lo@, self.pairs()[r as int].0),
    {
        let (p, found) = self.locate(lo);
        let n = self.entries.len();
        if found {
            proof {
                assert(self.pairs().len() == self.entries@.len());
                assert(p < n);
                assert forall|j: int| 0 <= j < p + 1 implies lex_le(
                    #[trigger] self.pairs()[j].0,
                    lo@,
                ) by {
                    if j < p {
                        assert(lex_lt(self.pairs()[j].0, lo@));
                    }
                }
                if p + 1 < self.pairs().len() {
                    assert(lex_lt(self.pairs()[p as int].0, self.pairs()[p + 1].0));
                }
            }
            p + 1
        } else {
            proof {
                assert forall|j: int| 0 <= j < p implies lex_le(
                    #[trigger] self.pairs()[j].0,
                    lo@,
                ) by {
                    assert(lex_lt(self.pairs()[j].0, lo@));
                }
                if p < self.pairs().len() {
                    if !lex_lt(lo@, self.pairs()[p as int].0) {
                        lemma_lex_antisym(lo@, self.pairs()[p as int].0);
                    }
                }
            }
            p
        }
    }

    /// Look a key up.
    pub fn get(&self, k: &Vec<u8>) -> (r: Option<&Vec<u8>>)
        requires
            self.wf(),
        ensures
            match r {
                Some(v) => self.view_map().contains_key(k@) && self.view_map()[k@] == v@,
                None => !self.view_map().contains_key(k@),
            },
    {
        let (p, found) = self.locate(k);
        if found {
            proof {
                lemma_entry_in_map(self.pairs(), p as int);
            }
            Some(&self.entries[p].1)
        } else {
            proof {
                if self.view_map().contains_key(k@) {
                    let i = choose|i: int|
                        0 <= i < self.pairs().len() && (#[trigger] self.pairs()[i]).0 == k@;
                    if i < p {
                        assert(lex_lt(self.pairs()[i].0, k@));
                    } else {
                        assert(p < self.pairs().len());
                        assert(lex_le(k@, self.pairs()[p as int].0));
                        if i > p {
                            assert(lex_lt(self.pairs()[p as int].0, self.pairs()[i].0));
                            crate::order::lemma_lex_le_lt_trans(
                                k@,
                                self.pairs()[p as int].0,
                                self.pairs()[i].0,
                            );
                        } else {
                            lemma_lex_antisym(k@, self.pairs()[p as int].0);
                        }
                    }
                }
            }
            None
        }
    }

    /// Whether a key is present.
    pub fn contains(&self, k: &Vec<u8>) -> (r: bool)
        requires
            self.wf(),
        ensures
            r == self.view_map().contains_key(k@),
    {
        self.get(k).is_some()
    }

    /// Bind or rebind a key to a value.
    pub fn set(&mut self, k: Vec<u8>, v: Vec<u8>)
        requires
            old(self).wf(),
        ensures
            final(self).wf(),
            final(self).view_map() =~= old(self).view_map().insert(k@, v@),
    {
        let ghost oldps = self.pairs();
        let (p, found) = self.locate(&k);
        let ghost kk = k@;
        let ghost vv = v@;
        if found {
            self.entries.remove(p);
            self.entries.insert(p, (k, v));
            proof {
                let ps = self.pairs();
                assert(ps =~= oldps.update(p as int, (kk, vv)));
                assert forall|i: int, j: int| 0 <= i < j < ps.len() implies lex_lt(
                    #[trigger] ps[i].0,
                    #[trigger] ps[j].0,
                ) by {
                    assert(ps[i].0 == oldps[i].0);
                    assert(ps[j].0 == oldps[j].0);
                }
                lemma_set_updates_map(oldps, ps, p as int, kk, vv);
            }
        } else {
            proof {
                assert forall|j: int| p <= j < oldps.len() implies lex_lt(
                    kk,
                    #[trigger] oldps[j].0,
                ) by {
                    assert(lex_le(kk, oldps[p as int].0));
                    if oldps[p as int].0 == kk {
                        assert(false);
                    }
                    if j > p {
                        assert(lex_lt(oldps[p as int].0, oldps[j].0));
                        crate::order::lemma_lex_lt_le_trans(kk, oldps[p as int].0, oldps[j].0);
                    }
                }
            }
            self.entries.insert(p, (k, v));
            proof {
                let ps = self.pairs();
                assert(ps =~= oldps.insert(p as int, (kk, vv)));
                assert forall|i: int, j: int| 0 <= i < j < ps.len() implies lex_lt(
                    #[trigger] ps[i].0,
                    #[trigger] ps[j].0,
                ) by {
                    lemma_wedge(oldps, ps, p as int, kk, i, j);
                }
                lemma_insert_updates_map(oldps, ps, p as int, kk, vv);
            }
        }
    }

    /// Unbind a key; absent keys are left alone.
    pub fn remove(&mut self, k: &Vec<u8>)
        requires
            old(self).wf(),
        ensures
            final(self).wf(),
            final(self).view_map() =~= old(self).view_map().remove(k@),
    {
        let ghost oldps = self.pairs();
        let (p, found) = self.locate(k);
        if found {
            self.entries.remove(p);
            proof {
                let ps = self.pairs();
                assert(ps =~= oldps.remove(p as int));
                assert forall|i: int, j: int| 0 <= i < j < ps.len() implies lex_lt(
                    #[trigger] ps[i].0,
                    #[trigger] ps[j].0,
                ) by {
                    let ii: int = if i < p { i } else { i + 1 };
                    let jj: int = if j < p { j } else { j + 1 };
                    assert(ps[i].0 == oldps[ii].0);
                    assert(ps[j].0 == oldps[jj].0);
                }
                lemma_remove_updates_map(oldps, ps, p as int, k@);
            }
        } else {
            proof {
                if old(self).view_map().contains_key(k@) {
                    let i = choose|i: int|
                        0 <= i < oldps.len() && (#[trigger] oldps[i]).0 == k@;
                    if i < p {
                        assert(lex_lt(oldps[i].0, k@));
                    } else if i == p {
                        assert(lex_le(k@, oldps[p as int].0));
                        lemma_lex_antisym(k@, oldps[p as int].0);
                    } else {
                        assert(lex_le(k@, oldps[p as int].0));
                        assert(lex_lt(oldps[p as int].0, oldps[i].0));
                        crate::order::lemma_lex_le_lt_trans(k@, oldps[p as int].0, oldps[i].0);
                    }
                }
                assert(self.view_map() =~= old(self).view_map().remove(k@));
            }
        }
    }

    /// An independent copy with the same contents.
    pub fn duplicate(&self) -> (r: SortedKv)
        requires
            self.wf(),
        ensures
            r.wf(),
            r.pairs() == self.pairs(),
            r.view_map() == self.view_map(),
    {
        let n = self.entries.len();
        let mut out: Vec<(Vec<u8>, Vec<u8>)> = Vec::new();
        let mut i: usize = 0;
        while i < n
            invariant
                0 <= i <= n,
                n == self.entries@.len(),
                out@.len() == i,
                forall|j: int|
                    0 <= j < i ==> (#[trigger] out@[j]).0@ == self.entries@[j].0@ && out@[j].1@
                        == self.entries@[j].1@,
            decreases n - i,
        {
            let kc = clone_bytes(&self.entries[i].0);
            let vc = clone_bytes(&self.entries[i].1);
            out.push((kc, vc));
            i = i + 1;
        }
        let r = SortedKv { entries: out };
        proof {
            assert forall|j: int| 0 <= j < r.pairs().len() implies r.pairs()[j]
                == self.pairs()[j] by {
                assert(out@[j].0@ == self.entries@[j].0@);
            }
            assert(r.pairs() =~= self.pairs());
        }
        r
    }
}

/// Copy a byte string.
pub fn clone_bytes(v: &Vec<u8>) -> (r: Vec<u8>)
    ensures
        r@ == v@,
{
    let mut out: Vec<u8> = Vec::new();
    let n = v.len();
    let mut i: usize = 0;
    while i < n
        invariant
            0 <= i <= n,
            n == v@.len(),
            out@ =~= v@.subrange(0, i as int),
        decreases n - i,
    {
        out.push(v[i]);
        proof {
            assert(out@ =~= v@.subrange(0, i + 1));
        }
        i = i + 1;
    }
    proof {
        assert(out@ =~= v@);
    }
    out
}

/// The denoted map has finitely many keys: no more than there are entries.
pub proof fn lemma_map_finite(ps: Seq<(Seq<u8>, Seq<u8>)>)
    ensures
        map_of(ps).dom().finite(),
        map_of(ps).dom().len() <= ps.len(),
    decreases ps.len(),
{
    if ps.len() == 0 {
        assert(map_of(ps).dom() =~= Set::<Seq<u8>>::empty());
    } else {
        let head = ps[0].0;
        let rest = ps.drop_first();
        lemma_map_finite(rest);
        assert(map_of(ps).dom() =~= map_of(rest).dom().insert(head)) by {
            assert forall|k: Seq<u8>| #[trigger] map_of(ps).dom().contains(k) implies map_of(
                rest,
            ).dom().contains(k) || k == head by {
                let i = choose|i: int| 0 <= i < ps.len() && (#[trigger] ps[i]).0 == k;
                if i > 0 {
                    assert(rest[i - 1].0 == k);
                }
            }
            assert forall|k: Seq<u8>| map_of(rest).dom().contains(k) || k == head implies #[trigger] map_of(
                ps,
            ).dom().contains(k) by {
                if k == head {
                    assert(ps[0].0 == k);
                } else {
                    let i = choose|i: int| 0 <= i < rest.len() && (#[trigger] rest[i]).0 == k;
                    assert(ps[i + 1].0 == k);
                }
            }
        }
        if map_of(rest).dom().contains(head) {
            vstd::set_lib::lemma_len_subset(map_of(ps).dom(), map_of(rest).dom());
        }
    }
}

/// A sorted list is empty exactly when its map is.
pub proof fn lemma_empty_iff(s: SortedKv)
    requires
        s.wf(),
    ensures
        s.pairs().len() == 0 ==> s.view_map() =~= Map::<Seq<u8>, Seq<u8>>::empty(),
        s.pairs().len() > 0 ==> s.view_map() != Map::<Seq<u8>, Seq<u8>>::empty(),
        s.pairs().len() == 0 ==> s.view_map().dom() =~= Set::<Seq<u8>>::empty(),
        s.pairs().len() > 0 ==> s.view_map().dom() != Set::<Seq<u8>>::empty(),
{
    if s.pairs().len() > 0 {
        lemma_entry_in_map(s.pairs(), 0);
        assert(s.view_map().contains_key(s.pairs()[0].0));
        assert(!Map::<Seq<u8>, Seq<u8>>::empty().contains_key(s.pairs()[0].0));
        assert(s.view_map().dom().contains(s.pairs()[0].0));
        assert(!Set::<Seq<u8>>::empty().contains(s.pairs()[0].0));
    }
}

/// Replacing the entry at `p` (same key) rebinds that key in the map.
proof fn lemma_set_updates_map(
    oldps: Seq<(Seq<u8>, Seq<u8>)>,
    ps: Seq<(Seq<u8>, Seq<u8>)>,
    p: int,
    k: Seq<u8>,
    v: Seq<u8>,
)
    requires
        strictly_sorted(oldps),
        strictly_sorted(ps),
        0 <= p < oldps.len(),
        oldps[p].0 == k,
        ps == oldps.update(p, (k, v)),
    ensures
        map_of(ps) =~= map_of(oldps).insert(k, v),
{
    assert forall|x: Seq<u8>| #[trigger] map_of(ps).contains_key(x) implies map_of(
        oldps,
    ).insert(k, v).contains_key(x) by {
        let i = choose|i: int| 0 <= i < ps.len() && (#[trigger] ps[i]).0 == x;
        if i != p {
            assert(oldps[i].0 == x);
        }
    }
    assert forall|x: Seq<u8>| #[trigger]
        map_of(oldps).insert(k, v).contains_key(x) implies map_of(ps).contains_key(x) by {
        if x == k {
            assert(ps[p].0 == x);
        } else {
            let i = choose|i: int| 0 <= i < oldps.len() && (#[trigger] oldps[i]).0 == x;
            assert(ps[i].0 == x);
        }
    }
    assert forall|x: Seq<u8>| map_of(ps).contains_key(x) implies #[trigger] map_of(ps)[x]
        == map_of(oldps).insert(k, v)[x] by {
        let i = choose|i: int| 0 <= i < ps.len() && (#[trigger] ps[i]).0 == x;
        lemma_entry_in_map(ps, i);
        if x == k {
            if i != p {
                assert(lex_lt(ps[i].0, ps[p].0) || lex_lt(ps[p].0, ps[i].0));
            }
            assert(map_of(ps)[x] == v);
        } else {
            assert(i != p);
            assert(oldps[i].0 == x);
            lemma_entry_in_map(oldps, i);
        }
    }
}

/// Inserting a fresh entry at its sort position adds one binding to the map.
proof fn lemma_insert_updates_map(
    oldps: Seq<(Seq<u8>, Seq<u8>)>,
    ps: Seq<(Seq<u8>, Seq<u8>)>,
    p: int,
    k: Seq<u8>,
    v: Seq<u8>,
)
    requires
        strictly_sorted(oldps),
        strictly_sorted(ps),
        0 <= p <= oldps.len(),
        ps == oldps.insert(p, (k, v)),
        forall|j: int| 0 <= j < p ==> lex_lt(#[trigger] oldps[j].0, k),
        forall|j: int| p <= j < oldps.len() ==> lex_lt(k, #[trigger] oldps[j].0),
    ensures
        map_of(ps) =~= map_of(oldps).insert(k, v),
{
    assert forall|x: Seq<u8>| #[trigger] map_of(ps).contains_key(x) implies map_of(
        oldps,
    ).insert(k, v).contains_key(x) by {
        let i = choose|i: int| 0 <= i < ps.len() && (#[trigger] ps[i]).0 == x;
        if i < p {
            assert(oldps[i].0 == x);
        } else if i > p {
            assert(oldps[i - 1].0 == x);
        }
    }
    assert forall|x: Seq<u8>| #[trigger]
        map_of(oldps).insert(k, v).contains_key(x) implies map_of(ps).contains_key(x) by {
        if x == k {
            assert(ps[p].0 == x);
        } else {
            let i = choose|i: int| 0 <= i < oldps.len() && (#[trigger] oldps[i]).0 == x;
            if i < p {
                assert(ps[i].0 == x);
            } else {
                assert(ps[i + 1].0 == x);
            }
        }
    }
    assert forall|x: Seq<u8>| map_of(ps).contains_key(x) implies #[trigger] map_of(ps)[x]
        == map_of(oldps).insert(k, v)[x] by {
        let i = choose|i: int| 0 <= i < ps.len() && (#[trigger] ps[i]).0 == x;
        lemma_entry_in_map(ps, i);
        if x == k {
            if i != p {
                let iold: int = if i < p { i } else { i - 1 };
                assert(oldps[iold].0 == x);
                assert(false) by {
                    if iold < p {
                        assert(lex_lt(oldps[iold].0, k));
                    } else {
                        assert(lex_lt(k, oldps[iold].0));
                    }
                }
            }
            assert(map_of(ps)[x] == v);
        } else {
            assert(i != p);
            let iold: int = if i < p { i } else { i - 1 };
            assert(oldps[iold].0 == x);
            assert(oldps[iold].1 == ps[i].1);
            lemma_entry_in_map(oldps, iold);
        }
    }
}

/// Removing the entry at `p` removes exactly its key from the map.
proof fn lemma_remove_updates_map(
    oldps: Seq<(Seq<u8>, Seq<u8>)>,
    ps: Seq<(Seq<u8>, Seq<u8>)>,
    p: int,
    k: Seq<u8>,
)
    requires
        strictly_sorted(oldps),
        strictly_sorted(ps),
        0 <= p < oldps.len(),
        oldps[p].0 == k,
        ps == oldps.remove(p),
    ensures
        map_of(ps) =~= map_of(oldps).remove(k),
{
    assert forall|x: Seq<u8>| #[trigger] map_of(ps).contains_key(x) implies map_of(
        oldps,
    ).remove(k).contains_key(x) by {
        let i = choose|i: int| 0 <= i < ps.len() && (#[trigger] ps[i]).0 == x;
        let iold: int = if i < p { i } else { i + 1 };
        assert(oldps[iold].0 == x);
        if x == k {
            assert(lex_lt(oldps[p].0, oldps[iold].0) || lex_lt(oldps[iold].0, oldps[p].0));
        }
    }
    assert forall|x: Seq<u8>| #[trigger]
        map_of(oldps).remove(k).contains_key(x) implies map_of(ps).contains_key(x) by {
        let i = choose|i: int| 0 <= i < oldps.len() && (#[trigger] oldps[i]).0 == x;
        if i < p {
            assert(ps[i].0 == x);
        } else if i > p {
            assert(ps[i - 1].0 == x);
        }
    }
    assert forall|x: Seq<u8>| map_of(ps).contains_key(x) implies #[trigger] map_of(ps)[x]
        == map_of(oldps).remove(k)[x] by {
        let i = choose|i: int| 0 <= i < ps.len() && (#[trigger] ps[i]).0 == x;
        lemma_entry_in_map(ps, i);
        let iold: int = if i < p { i } else { i + 1 };
        assert(oldps[iold].0 == x);
        assert(oldps[iold].1 == ps[i].1);
        lemma_entry_in_map(oldps, iold);
    }
}

/// Sortedness is kept when a fresh key is wedged between smaller and larger
/// neighbours.
proof fn lemma_wedge(
    oldps: Seq<(Seq<u8>, Seq<u8>)>,
    ps: Seq<(Seq<u8>, Seq<u8>)>,
    p: int,
    k: Seq<u8>,
    i: int,
    j: int,
)
    requires
        strictly_sorted(oldps),
        0 <= p <= oldps.len(),
        ps == oldps.insert(p, (k, ps[p].1)),
        ps[p].0 == k,
        forall|q: int| 0 <= q < p ==> lex_lt(#[trigger] oldps[q].0, k),
        p < oldps.len() ==> lex_le(k, oldps[p].0) && oldps[p].0 != k,
        0 <= i < j < ps.len(),
    ensures
        lex_lt(ps[i].0, ps[j].0),
{
    if p < oldps.len() {
        assert(lex_lt(k, oldps[p].0));
    }
    if i < p && j < p {
    } else if i < p && j == p {
        assert(lex_lt(oldps[i].0, k));
    } else if i < p && j > p {
        assert(ps[j].0 == oldps[j - 1].0);
        if j - 1 == i {
        } else {
            assert(lex_lt(oldps[i].0, oldps[j - 1].0));
        }
    } else if i == p {
        assert(ps[j].0 == oldps[j - 1].0);
        if j - 1 == p {
            assert(lex_lt(k, oldps[p].0));
        } else {
            assert(lex_lt(k, oldps[p].0));
            assert(lex_lt(oldps[p].0, oldps[j - 1].0));
            crate::order::lemma_lex_lt_le_trans(k, oldps[p].0, oldps[j - 1].0);
        }
    } else {
        assert(ps[i].0 == oldps[i - 1].0);
        assert(ps[j].0 == oldps[j - 1].0);
    }
}

} // verus!
