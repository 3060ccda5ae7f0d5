//! The datastore: an ordered keyspace, column families serving as secondary
//! indexes, and the bookkeeping that backs optimistic transactions.
//!
//! The store keeps one default keyspace and any number of named column
//! families. Every committed write is recorded in a log together with the
//! commit sequence number, and each transaction remembers the sequence number
//! current when it began: at commit, a write conflicts exactly when some key
//! it touches was committed by another transaction after that point.
//!
//! The store lives in memory and is owned by its callers. The column-family
//! name `default` is reserved: it stands for the default keyspace and never
//! appears in the user-visible index list.

use vstd::prelude::*;

use crate::error::Error;
use crate::sorted::SortedKv;

verus! {

/// A committed write set applied to a keyspace: deletions fall away, puts
/// overwrite.
pub open spec fn apply_writes(
    m: Map<Seq<u8>, Seq<u8>>,
    puts: Map<Seq<u8>, Seq<u8>>,
    dels: Set<Seq<u8>>,
) -> Map<Seq<u8>, Seq<u8>> {
    Map::new(
        |k: Seq<u8>| puts.contains_key(k) || (m.contains_key(k) && !dels.contains(k)),
        |k: Seq<u8>|
            if puts.contains_key(k) {
                puts[k]
            } else {
                m[k]
            },
    )
}

/// The datastore.
pub struct Datastore {
    /// The directory name the store was opened under; an identity only.
    pub(crate) path: String,
    /// The default keyspace.
    pub(crate) space: SortedKv,
    /// The column families, by name; `default` never appears here.
    pub(crate) cfs: Vec<(String, SortedKv)>,
    /// Every committed write: which keyspace, which key, at which sequence.
    pub(crate) log: Vec<(String, Vec<u8>, u64)>,
    /// The sequence number of the latest commit.
    pub(crate) seq: u64,
    /// The user-visible index names.
    pub(crate) indexes: Vec<String>,
}

/// Whether one of the strings reads as the given name.
pub open spec fn has_name(ns: Seq<String>, nm: Seq<char>) -> bool {
    exists|j: int| 0 <= j < ns.len() && (#[trigger] ns[j])@ == nm
}

/// `b` is `a` with one occurrence of `name` taken out, at its position.
pub open spec fn name_removed(a: Seq<Seq<char>>, b: Seq<Seq<char>>, name: Seq<char>) -> bool {
    exists|i: int| 0 <= i < a.len() && (#[trigger] a[i]) == name && b == a.remove(i)
}

/// The name reserved for the default keyspace.
pub open spec fn default_name() -> Seq<char> {
    "default"@
}

impl Datastore {
    /// The names of the column families, in creation order.
    pub closed spec fn cf_names(&self) -> Seq<Seq<char>> {
        Seq::new(self.cfs@.len(), |i: int| self.cfs@[i].0@)
    }

    /// Well-formed: keyspaces are sorted, column-family names are unique,
    /// none of them is the reserved name, and the user-visible index list is
    /// exactly the column-family catalogue — so every index name appears in
    /// it exactly once.
    pub closed spec fn wf(&self) -> bool {
        &&& self.space.wf()
        &&& forall|i: int| 0 <= i < self.cfs@.len() ==> (#[trigger] self.cfs@[i]).1.wf()
        &&& forall|i: int, j: int|
            0 <= i < j < self.cfs@.len() ==> (#[trigger] self.cfs@[i]).0@ != (
            #[trigger] self.cfs@[j]).0@
        &&& forall|i: int| 0 <= i < self.cfs@.len() ==> (#[trigger] self.cfs@[i]).0@
            != default_name()
        &&& forall|i: int| 0 <= i < self.log@.len() ==> (#[trigger] self.log@[i]).2 <= self.seq
        &&& self.index_list() == self.cf_names()
    }

    /// The default keyspace, as a map.
    pub closed spec fn data(&self) -> Map<Seq<u8>, Seq<u8>> {
        self.space.view_map()
    }

    /// Whether a column family of this name exists; the reserved name always
    /// does.
    pub open spec fn cf_exists(&self, name: Seq<char>) -> bool {
        name == default_name() || self.cf_names().contains(name)
    }

    /// The contents of the column family of this name.
    pub closed spec fn cf_data(&self, name: Seq<char>) -> Option<Map<Seq<u8>, Seq<u8>>> {
        if exists|i: int| 0 <= i < self.cfs@.len() && (#[trigger] self.cfs@[i]).0@ == name {
            let i = choose|i: int| 0 <= i < self.cfs@.len() && (#[trigger] self.cfs@[i]).0@ == name;
            Some(self.cfs@[i].1.view_map())
        } else {
            None
        }
    }

    /// The sequence number of the latest commit.
    pub closed spec fn seq_no(&self) -> u64 {
        self.seq
    }

    /// The commit log: keyspace name, key, commit sequence.
    pub closed spec fn log_view(&self) -> Seq<(Seq<char>, Seq<u8>, u64)> {
        Seq::new(self.log@.len(), |i: int| (self.log@[i].0@, self.log@[i].1@, self.log@[i].2))
    }

    /// The user-visible index names.
    pub closed spec fn index_list(&self) -> Seq<Seq<char>> {
        Seq::new(self.indexes@.len(), |i: int| self.indexes@[i]@)
    }

    /// Open a store under the given directory name. The store starts empty:
    /// no documents, no indexes, no committed writes.
    pub fn new(path: &str) -> (r: Result<Datastore, Error>)
        ensures
            match r {
                Ok(ds) => {
                    &&& ds.wf()
                    &&& ds.data() =~= Map::<Seq<u8>, Seq<u8>>::empty()
                    &&& ds.cf_names() =~= Seq::<Seq<char>>::empty()
                    &&& ds.index_list() =~= Seq::<Seq<char>>::empty()
                    &&& ds.seq_no() == 0
                    &&& ds.log_view() =~= Seq::<(Seq<char>, Seq<u8>, u64)>::empty()
                },
                Err(_) => false,
            },
    {
        let ds = Datastore {
            path: path.to_owned(),
            space: SortedKv::new(),
            cfs: Vec::new(),
            log: Vec::new(),
            seq: 0,
            indexes: Vec::new(),
        };
        proof {
            assert(ds.index_list() =~= ds.cf_names());
        }
        Ok(ds)
    }

    /// Whether a column family (index keyspace) of this name exists in the
    /// catalogue. The reserved default keyspace always exists.
    pub fn index_exists(&self, idx_name: &str) -> (r: bool)
        requires
            self.wf(),
        ensures
            r == self.cf_exists(idx_name@),
    {
        let name = idx_name.to_owned();
        let dflt = String::from_str("default");
        if name == dflt {
            return true;
        }
        let n = self.cfs.len();
        let mut i: usize = 0;
        while i < n
            invariant
                0 <= i <= n,
                n == self.cfs@.len(),
                name@ == idx_name@,
                forall|j: int| 0 <= j < i ==> (#[trigger] self.cfs@[j]).0@ != idx_name@,
            decreases n - i,
        {
            if self.cfs[i].0 == name {
                assert(self.cf_names()[i as int] == idx_name@);
                return true;
            }
            i = i + 1;
        }
        proof {
            if self.cf_names().contains(idx_name@) {
                let j = choose|j: int|
                    0 <= j < self.cf_names().len() && self.cf_names()[j] == idx_name@;
                assert(self.cfs@[j].0@ == idx_name@);
            }
        }
        false
    }

    /// Create a column family of this name, unless one already exists; the
    /// name then also joins the user-visible index list. Idempotent.
    pub fn add_index(&mut self, idx_name: &str)
        requires
            old(self).wf(),
        ensures
            final(self).wf(),
            old(self).cf_exists(idx_name@) ==> *final(self) == *old(self),
            !old(self).cf_exists(idx_name@) ==> {
                &&& final(self).cf_names() =~= old(self).cf_names().push(idx_name@)
                &&& final(self).cf_data(idx_name@) == Some(Map::<Seq<u8>, Seq<u8>>::empty())
                &&& final(self).index_list() =~= old(self).index_list().push(idx_name@)
                &&& final(self).data() == old(self).data()
                &&& final(self).seq_no() == old(self).seq_no()
                &&& final(self).log_view() == old(self).log_view()
            },
            forall|other: Seq<char>|
                other != idx_name@ ==> #[trigger] final(self).cf_data(other) == old(self).cf_data(
                    other,
                ),
            final(self).cf_exists(idx_name@),
    {
        if !self.index_exists(idx_name) {
            let ghost before = *self;
            let fresh = SortedKv::new();
            self.indexes.push(idx_name.to_owned());
            self.cfs.push((idx_name.to_owned(), fresh));
            proof {
                assert(self.cf_names() =~= before.cf_names().push(idx_name@));
                assert(self.index_list() =~= before.index_list().push(idx_name@));
                let n = self.cfs@.len() - 1;
                assert(self.cfs@[n].0@ == idx_name@);
                assert(self.cf_exists(idx_name@)) by {
                    assert(self.cf_names()[n] == idx_name@);
                }
                assert(self.cf_data(idx_name@) == Some(Map::<Seq<u8>, Seq<u8>>::empty())) by {
                    let i = choose|i: int|
                        0 <= i < self.cfs@.len() && (#[trigger] self.cfs@[i]).0@ == idx_name@;
                    if i != n {
                        assert(before.cf_names()[i] == idx_name@);
                    }
                    assert(self.cfs@[i].1.view_map() =~= Map::<Seq<u8>, Seq<u8>>::empty());
                }
                assert forall|i: int, j: int| 0 <= i < j < self.cfs@.len() implies (
                #[trigger] self.cfs@[i]).0@ != (#[trigger] self.cfs@[j]).0@ by {
                    if j == n {
                        assert(before.cf_names()[i] == self.cfs@[i].0@);
                    }
                }
                assert(self.index_list() =~= self.cf_names());
                assert forall|other: Seq<char>| other != idx_name@ implies #[trigger] self.cf_data(
                    other,
                ) == before.cf_data(other) by {
                    if exists|q: int|
                        0 <= q < before.cfs@.len() && (#[trigger] before.cfs@[q]).0@ == other {
                        let q = choose|q: int|
                            0 <= q < before.cfs@.len() && (#[trigger] before.cfs@[q]).0@ == other;
                        assert(self.cfs@[q] == before.cfs@[q]);
                        lemma_cf_lookup(*self, q, other);
                        lemma_cf_lookup(before, q, other);
                    } else {
                        assert forall|q: int| 0 <= q < self.cfs@.len() implies (
                        #[trigger] self.cfs@[q]).0@ != other by {
                            if q < n {
                                assert(self.cfs@[q] == before.cfs@[q]);
                            }
                        }
                        lemma_cf_none(*self, other);
                        lemma_cf_none(before, other);
                    }
                }
            }
        }
    }

    /// The user-visible index names, in creation order.
    pub fn index_names(&self) -> (r: Vec<String>)
        ensures
            r@.len() == self.index_list().len(),
            forall|i: int| 0 <= i < r@.len() ==> (#[trigger] r@[i])@ == self.index_list()[i],
    {
        let n = self.indexes.len();
        let mut out: Vec<String> = Vec::new();
        let mut i: usize = 0;
        while i < n
            invariant
                0 <= i <= n,
                n == self.indexes@.len(),
                out@.len() == i,
                forall|j: int| 0 <= j < i ==> (#[trigger] out@[j])@ == self.indexes@[j]@,
            decreases n - i,
        {
            out.push(self.indexes[i].clone());
            i = i + 1;
        }
        proof {
            assert forall|i2: int| 0 <= i2 < out@.len() implies (#[trigger] out@[i2])@
                == self.index_list()[i2] by {
                assert(out@[i2]@ == self.indexes@[i2]@);
            }
        }
        out
    }

    /// Drop the column family of this name, if one exists, and remove the
    /// name from the user-visible index list. Idempotent.
    pub fn drop_index(&mut self, idx_name: &str)
        requires
            old(self).wf(),
        ensures
            final(self).wf(),
            !final(self).cf_names().contains(idx_name@),
            !final(self).index_list().contains(idx_name@),
            final(self).data() == old(self).data(),
            final(self).seq_no() == old(self).seq_no(),
            final(self).log_view() == old(self).log_view(),
            !old(self).cf_names().contains(idx_name@) ==> *final(self) == *old(self),
            old(self).cf_names().contains(idx_name@) ==> name_removed(
                old(self).cf_names(),
                final(self).cf_names(),
                idx_name@,
            ),
            old(self).index_list().contains(idx_name@) ==> name_removed(
                old(self).index_list(),
                final(self).index_list(),
                idx_name@,
            ),
            forall|other: Seq<char>|
                other != idx_name@ ==> (final(self).cf_names().contains(other) == old(
                    self,
                ).cf_names().contains(other) && #[trigger] final(self).cf_data(other) == old(
                    self,
                ).cf_data(other)),
    {
        let name = idx_name.to_owned();
        let n = self.cfs.len();
        let mut i: usize = 0;
        loop
            invariant
                0 <= i <= n,
                n == self.cfs@.len(),
                self.wf(),
                name@ == idx_name@,
                forall|j: int| 0 <= j < i ==> (#[trigger] self.cfs@[j]).0@ != idx_name@,
            ensures
                i <= n,
                forall|j: int| 0 <= j < i ==> (#[trigger] self.cfs@[j]).0@ != idx_name@,
                i < n ==> self.cfs@[i as int].0@ == idx_name@,
            decreases n - i,
        {
            if i >= n {
                break;
            }
            if self.cfs[i].0 == name {
                break;
            }
            i = i + 1;
        }
        if i == n {
            proof {
                if self.cf_names().contains(idx_name@) {
                    let j = choose|j: int|
                        0 <= j < self.cf_names().len() && self.cf_names()[j] == idx_name@;
                    assert(self.cfs@[j].0@ == idx_name@);
                }
                assert(!self.index_list().contains(idx_name@));
            }
            return ;
        }
        // The name sits at one position, the same in the catalogue and in the
        // index list; remove it from both.
        let ghost before = *self;
        self.cfs.remove(i);
        proof {
            assert(before.index_list().len() == before.cf_names().len());
            assert(before.indexes@.len() == before.cfs@.len());
        }
        self.indexes.remove(i);
        proof {
            let gi = i as int;
            assert(self.cfs@ =~= before.cfs@.remove(gi));
            assert(self.indexes@ =~= before.indexes@.remove(gi));
            assert forall|p: int, q: int| 0 <= p < q < self.cfs@.len() implies (
            #[trigger] self.cfs@[p]).0@ != (#[trigger] self.cfs@[q]).0@ by {
                let pp: int = if p < gi {
                    p
                } else {
                    p + 1
                };
                let qq: int = if q < gi {
                    q
                } else {
                    q + 1
                };
                assert(self.cfs@[p] == before.cfs@[pp]);
                assert(self.cfs@[q] == before.cfs@[qq]);
            }
            assert forall|p: int| 0 <= p < self.cfs@.len() implies (#[trigger] self.cfs@[p]).1.wf()
                && (#[trigger] self.cfs@[p]).0@ != default_name() by {
                let pp: int = if p < gi {
                    p
                } else {
                    p + 1
                };
                assert(self.cfs@[p] == before.cfs@[pp]);
            }
            assert(self.cf_names() =~= before.cf_names().remove(gi)) by {
                assert forall|p: int| 0 <= p < self.cfs@.len() implies #[trigger] self.cf_names()[p]
                    == before.cf_names().remove(gi)[p] by {
                    let pp: int = if p < gi {
                        p
                    } else {
                        p + 1
                    };
                    assert(self.cfs@[p] == before.cfs@[pp]);
                    assert(before.cf_names()[pp] == before.cfs@[pp].0@);
                }
            }
            assert(self.index_list() =~= before.index_list().remove(gi)) by {
                assert forall|p: int| 0 <= p < self.indexes@.len() implies #[trigger] self.index_list()[p]
                    == before.index_list().remove(gi)[p] by {
                    let pp: int = if p < gi {
                        p
                    } else {
                        p + 1
                    };
                    assert(self.indexes@[p] == before.indexes@[pp]);
                    assert(before.index_list()[pp] == before.indexes@[pp]@);
                }
            }
            assert(self.index_list() =~= self.cf_names()) by {
                assert(before.index_list() == before.cf_names());
            }
            assert(!self.cf_names().contains(idx_name@)) by {
                if self.cf_names().contains(idx_name@) {
                    let q = choose|q: int|
                        0 <= q < self.cf_names().len() && self.cf_names()[q] == idx_name@;
                    let qq: int = if q < gi {
                        q
                    } else {
                        q + 1
                    };
                    assert(self.cfs@[q] == before.cfs@[qq]);
                    assert(before.cfs@[qq].0@ == idx_name@);
                    assert(before.cfs@[gi].0@ == idx_name@);
                    assert(qq != gi);
                }
            }
            assert(before.cf_names()[gi] == idx_name@);
            assert(before.cf_names().contains(idx_name@));
            assert forall|other: Seq<char>| other != idx_name@ implies (self.cf_names().contains(
                other,
            ) == before.cf_names().contains(other) && #[trigger] self.cf_data(other)
                == before.cf_data(other)) by {
                if exists|q: int|
                    0 <= q < before.cfs@.len() && (#[trigger] before.cfs@[q]).0@ == other {
                    let q = choose|q: int|
                        0 <= q < before.cfs@.len() && (#[trigger] before.cfs@[q]).0@ == other;
                    assert(q != gi);
                    let qn: int = if q < gi {
                        q
                    } else {
                        q - 1
                    };
                    assert(self.cfs@[qn] == before.cfs@[q]);
                    assert(self.cf_names()[qn] == other);
                    assert(before.cf_names()[q] == other);
                    lemma_cf_lookup(*self, qn, other);
                    lemma_cf_lookup(before, q, other);
                } else {
                    assert forall|q: int| 0 <= q < self.cfs@.len() implies (
                    #[trigger] self.cfs@[q]).0@ != other by {
                        let qq: int = if q < gi {
                            q
                        } else {
                            q + 1
                        };
                        assert(self.cfs@[q] == before.cfs@[qq]);
                    }
                    lemma_cf_none(*self, other);
                    lemma_cf_none(before, other);
                    assert(!self.cf_names().contains(other)) by {
                        if self.cf_names().contains(other) {
                            let q = choose|q: int|
                                0 <= q < self.cf_names().len() && self.cf_names()[q] == other;
                            assert(self.cfs@[q].0@ == other);
                        }
                    }
                    assert(!before.cf_names().contains(other)) by {
                        if before.cf_names().contains(other) {
                            let q = choose|q: int|
                                0 <= q < before.cf_names().len() && before.cf_names()[q] == other;
                            assert(before.cfs@[q].0@ == other);
                        }
                    }
                }
            }
        }
    }

    /// Open a store carrying the column-family names recovered from an
    /// earlier run — the caller lists them from wherever the store was kept.
    /// The reserved name and any repeats are dropped; first occurrences keep
    /// their order. The keyspaces start empty.
    pub fn open_with(path: &str, names: &Vec<String>) -> (r: Result<Datastore, Error>)
        ensures
            match r {
                Ok(ds) => {
                    &&& ds.wf()
                    &&& ds.data() =~= Map::<Seq<u8>, Seq<u8>>::empty()
                    &&& ds.seq_no() == 0
                    &&& ds.log_view() =~= Seq::<(Seq<char>, Seq<u8>, u64)>::empty()
                    &&& forall|j: int|
                        0 <= j < names@.len() && (#[trigger] names@[j])@ != default_name()
                            ==> ds.cf_names().contains(names@[j]@)
                    &&& forall|i: int|
                        0 <= i < ds.cf_names().len() ==> has_name(
                            names@,
                            #[trigger] ds.cf_names()[i],
                        )
                    &&& forall|nm: Seq<char>|
                        ds.cf_names().contains(nm) ==> #[trigger] ds.cf_data(nm) == Some(
                            Map::<Seq<u8>, Seq<u8>>::empty(),
                        )
                    &&& ds.index_list() == ds.cf_names()
                },
                Err(_) => false,
            },
    {
        let mut ds = match Datastore::new(path) {
            Ok(d) => d,
            Err(e) => {
                return Err(e);
            },
        };
        let n = names.len();
        let mut j: usize = 0;
        while j < n
            invariant
                0 <= j <= n,
                n == names@.len(),
                ds.wf(),
                ds.data() =~= Map::<Seq<u8>, Seq<u8>>::empty(),
                ds.seq_no() == 0,
                ds.log_view() =~= Seq::<(Seq<char>, Seq<u8>, u64)>::empty(),
                forall|q: int|
                    0 <= q < j && (#[trigger] names@[q])@ != default_name()
                        ==> ds.cf_names().contains(names@[q]@),
                forall|i: int|
                    0 <= i < ds.cf_names().len() ==> has_name(
                        names@.take(j as int),
                        #[trigger] ds.cf_names()[i],
                    ),
                forall|nm: Seq<char>|
                    ds.cf_names().contains(nm) ==> #[trigger] ds.cf_data(nm) == Some(
                        Map::<Seq<u8>, Seq<u8>>::empty(),
                    ),
            decreases n - j,
        {
            let ghost before = ds;
            ds.add_index(names[j].as_str());
            proof {
                if !before.cf_exists(names@[j as int]@) {
                    assert(ds.cf_names() =~= before.cf_names().push(names@[j as int]@));
                }
                assert forall|q: int|
                    0 <= q < j + 1 && (#[trigger] names@[q])@ != default_name() implies
                    ds.cf_names().contains(names@[q]@) by {
                    if q < j {
                        let w = choose|w: int|
                            0 <= w < before.cf_names().len() && before.cf_names()[w]
                                == names@[q]@;
                        assert(ds.cf_names()[w] == names@[q]@);
                    } else {
                        assert(ds.cf_exists(names@[q]@));
                    }
                }
                assert forall|i: int| 0 <= i < ds.cf_names().len() implies has_name(
                    names@.take(j + 1),
                    #[trigger] ds.cf_names()[i],
                ) by {
                    if before.cf_exists(names@[j as int]@) {
                        assert(has_name(names@.take(j as int), ds.cf_names()[i]));
                        let q = choose|q: int|
                            0 <= q < names@.take(j as int).len() && (#[trigger] names@.take(
                                j as int,
                            )[q])@ == ds.cf_names()[i];
                        assert(names@.take(j + 1)[q]@ == ds.cf_names()[i]);
                    } else {
                        if i < before.cf_names().len() {
                            assert(ds.cf_names()[i] == before.cf_names()[i]);
                            assert(has_name(names@.take(j as int), ds.cf_names()[i]));
                            let q = choose|q: int|
                                0 <= q < names@.take(j as int).len() && (#[trigger] names@.take(
                                    j as int,
                                )[q])@ == ds.cf_names()[i];
                            assert(names@.take(j + 1)[q]@ == ds.cf_names()[i]);
                        } else {
                            assert(ds.cf_names()[i] == names@[j as int]@);
                            assert(names@.take(j + 1)[j as int]@ == ds.cf_names()[i]);
                        }
                    }
                }
                assert forall|nm: Seq<char>| ds.cf_names().contains(nm) implies #[trigger] ds.cf_data(
                    nm,
                ) == Some(Map::<Seq<u8>, Seq<u8>>::empty()) by {
                    if before.cf_exists(names@[j as int]@) {
                    } else {
                        if nm != names@[j as int]@ {
                            assert(ds.cf_data(nm) == before.cf_data(nm));
                            assert(before.cf_names().contains(nm)) by {
                                let q = choose|q: int|
                                    0 <= q < ds.cf_names().len() && ds.cf_names()[q] == nm;
                                if q < before.cf_names().len() {
                                    assert(before.cf_names()[q] == nm);
                                }
                            }
                        }
                    }
                }
            }
            j = j + 1;
        }
        proof {
            assert(names@.take(j as int) =~= names@);
        }
        Ok(ds)
    }
}

/// Unfold the store's specification functions onto its fields, for the
/// crate's other modules.
pub(crate) proof fn ds_reveal(ds: Datastore)
    ensures
        ds.wf() == {
            &&& ds.space.wf()
            &&& forall|i: int| 0 <= i < ds.cfs@.len() ==> (#[trigger] ds.cfs@[i]).1.wf()
            &&& forall|i: int, j: int|
                0 <= i < j < ds.cfs@.len() ==> (#[trigger] ds.cfs@[i]).0@ != (
                #[trigger] ds.cfs@[j]).0@
            &&& forall|i: int| 0 <= i < ds.cfs@.len() ==> (#[trigger] ds.cfs@[i]).0@
                != default_name()
            &&& forall|i: int| 0 <= i < ds.log@.len() ==> (#[trigger] ds.log@[i]).2 <= ds.seq
            &&& ds.index_list() == ds.cf_names()
        },
        ds.data() == ds.space.view_map(),
        ds.seq_no() == ds.seq,
        ds.cf_names() == Seq::new(ds.cfs@.len(), |i: int| ds.cfs@[i].0@),
        ds.log_view() == Seq::new(
            ds.log@.len(),
            |i: int| (ds.log@[i].0@, ds.log@[i].1@, ds.log@[i].2),
        ),
        ds.index_list() == Seq::new(ds.indexes@.len(), |i: int| ds.indexes@[i]@),
{
}

/// Find the position of a column family by name.
pub(crate) fn find_cf(ds: &Datastore, name: &String) -> (r: Option<usize>)
    ensures
        match r {
            Some(q) => q < ds.cfs@.len() && ds.cfs@[q as int].0@ == name@,
            None => forall|q: int| 0 <= q < ds.cfs@.len() ==> (#[trigger] ds.cfs@[q]).0@ != name@,
        },
{
    let n = ds.cfs.len();
    let mut i: usize = 0;
    while i < n
        invariant
            0 <= i <= n,
            n == ds.cfs@.len(),
            forall|q: int| 0 <= q < i ==> (#[trigger] ds.cfs@[q]).0@ != name@,
        decreases n - i,
    {
        if ds.cfs[i].0 == *name {
            return Some(i);
        }
        i = i + 1;
    }
    None
}

/// A name matching no column family is unbound.
pub(crate) proof fn lemma_cf_none(ds: Datastore, name: Seq<char>)
    requires
        forall|i: int| 0 <= i < ds.cfs@.len() ==> (#[trigger] ds.cfs@[i]).0@ != name,
    ensures
        ds.cf_data(name) is None,
{
}

/// In a well-formed store, the column family found for a name is the one at
/// any position carrying that name.
pub(crate) proof fn lemma_cf_lookup(ds: Datastore, i: int, name: Seq<char>)
    requires
        ds.wf(),
        0 <= i < ds.cfs@.len(),
        ds.cfs@[i].0@ == name,
    ensures
        ds.cf_data(name) == Some(ds.cfs@[i].1.view_map()),
{
    let j = choose|j: int| 0 <= j < ds.cfs@.len() && (#[trigger] ds.cfs@[j]).0@ == name;
    if j != i {
        assert(ds.cfs@[i].0@ != ds.cfs@[j].0@);
    }
}

} // verus!
