//! Snapshot-isolated optimistic transactions.
//!
//! A transaction captures, when it begins, a copy of every keyspace and the
//! store's current commit sequence number. Reads answer from that snapshot
//! overlaid with the transaction's own writes (kept eagerly applied in
//! `local`); the writes themselves are recorded as a put set and a delete set
//! per keyspace. `commit` first validates against the store's log — a write
//! conflicts exactly when a key this transaction touches was committed after
//! it began — and only then applies the write sets atomically.
//!
//! Once a transaction is `completed` (by `commit` or `rollback`), every
//! operation fails with `TxFinished`; writes in a read-only transaction fail
//! with `TxReadonly`.

use vstd::prelude::*;

use crate::error::Error;
use crate::sorted::{clone_bytes, SortedKv};
use crate::store::{apply_writes, default_name, Datastore};

verus! {

/// The transaction's view of one column family.
pub(crate) struct CfState {
    pub(crate) name: String,
    pub(crate) local: SortedKv,
    pub(crate) puts: SortedKv,
    pub(crate) dels: SortedKv,
}

/// A snapshot-isolated optimistic transaction over a `Datastore`.
pub struct Transaction {
    /// The default keyspace as this transaction sees it: the begin-time
    /// snapshot with this transaction's writes applied.
    pub(crate) local: SortedKv,
    /// Keys this transaction has put, with their values.
    pub(crate) puts: SortedKv,
    /// Keys this transaction has deleted (values unused).
    pub(crate) dels: SortedKv,
    /// The column families as this transaction sees them.
    pub(crate) cf_states: Vec<CfState>,
    /// The store's commit sequence number when this transaction began.
    pub(crate) begin_seq: u64,
    /// Whether the transaction has been committed or rolled back.
    pub(crate) completed: bool,
    /// Whether the transaction may write.
    pub(crate) rw: bool,
}

impl CfState {
    pub(crate) open spec fn wf(&self) -> bool {
        &&& self.local.wf()
        &&& self.puts.wf()
        &&& self.dels.wf()
        &&& self.puts.view_map().dom().disjoint(self.dels.view_map().dom())
    }
}

impl Transaction {
    /// The column-family names this transaction knows, in catalogue order.
    pub closed spec fn cf_names(&self) -> Seq<Seq<char>> {
        Seq::new(self.cf_states@.len(), |i: int| self.cf_states@[i].name@)
    }

    /// Well-formed: each keyspace is sorted, put and delete sets never share
    /// a key, and column-family names are unique.
    pub closed spec fn wf(&self) -> bool {
        &&& self.local.wf()
        &&& self.puts.wf()
        &&& self.dels.wf()
        &&& self.puts.view_map().dom().disjoint(self.dels.view_map().dom())
        &&& forall|i: int| 0 <= i < self.cf_states@.len() ==> (#[trigger] self.cf_states@[i]).wf()
        &&& forall|i: int, j: int|
            0 <= i < j < self.cf_states@.len() ==> (#[trigger] self.cf_states@[i]).name@ != (
            #[trigger] self.cf_states@[j]).name@
    }

    /// Whether the transaction has been committed or rolled back.
    pub closed spec fn completed(&self) -> bool {
        self.completed
    }

    /// Whether the transaction may write.
    pub closed spec fn is_rw(&self) -> bool {
        self.rw
    }

    /// The store's commit sequence number when this transaction began.
    pub closed spec fn begin(&self) -> u64 {
        self.begin_seq
    }

    /// The default keyspace as this transaction sees it.
    pub closed spec fn visible(&self) -> Map<Seq<u8>, Seq<u8>> {
        self.local.view_map()
    }

    /// The keys this transaction has put, with their values.
    pub closed spec fn pending(&self) -> Map<Seq<u8>, Seq<u8>> {
        self.puts.view_map()
    }

    /// The keys this transaction has deleted.
    pub closed spec fn deletes(&self) -> Set<Seq<u8>> {
        self.dels.view_map().dom()
    }

    /// The named column family as this transaction sees it.
    pub closed spec fn cf_visible(&self, name: Seq<char>) -> Option<Map<Seq<u8>, Seq<u8>>> {
        if exists|i: int|
            0 <= i < self.cf_states@.len() && (#[trigger] self.cf_states@[i]).name@ == name {
            let i = choose|i: int|
                0 <= i < self.cf_states@.len() && (#[trigger] self.cf_states@[i]).name@ == name;
            Some(self.cf_states@[i].local.view_map())
        } else {
            None
        }
    }

    /// The pending puts of the named column family.
    pub closed spec fn cf_pending(&self, name: Seq<char>) -> Option<Map<Seq<u8>, Seq<u8>>> {
        if exists|i: int|
            0 <= i < self.cf_states@.len() && (#[trigger] self.cf_states@[i]).name@ == name {
            let i = choose|i: int|
                0 <= i < self.cf_states@.len() && (#[trigger] self.cf_states@[i]).name@ == name;
            Some(self.cf_states@[i].puts.view_map())
        } else {
            None
        }
    }

    /// The pending deletes of the named column family.
    pub closed spec fn cf_deletes(&self, name: Seq<char>) -> Option<Set<Seq<u8>>> {
        if exists|i: int|
            0 <= i < self.cf_states@.len() && (#[trigger] self.cf_states@[i]).name@ == name {
            let i = choose|i: int|
                0 <= i < self.cf_states@.len() && (#[trigger] self.cf_states@[i]).name@ == name;
            Some(self.cf_states@[i].dels.view_map().dom())
        } else {
            None
        }
    }

    /// Whether this transaction has a write (put or delete) against the given
    /// keyspace and key.
    pub open spec fn touches(&self, space: Seq<char>, k: Seq<u8>) -> bool {
        if space == default_name() {
            self.pending().contains_key(k) || self.deletes().contains(k)
        } else {
            match self.cf_pending(space) {
                Some(p) => p.contains_key(k) || self.cf_deletes(space).unwrap().contains(k),
                None => false,
            }
        }
    }

    /// Whether some write committed after this transaction began touches a
    /// key this transaction writes.
    pub open spec fn conflicts_with(&self, log: Seq<(Seq<char>, Seq<u8>, u64)>) -> bool {
        exists|i: int|
            0 <= i < log.len() && (#[trigger] log[i]).2 > self.begin() && self.touches(
                log[i].0,
                log[i].1,
            )
    }
}

/// All unchanged but the completion flag and, on success, the pending sets.
pub open spec fn same_but_completed(a: Transaction, b: Transaction) -> bool {
    &&& b.is_rw() == a.is_rw()
    &&& b.begin() == a.begin()
    &&& b.visible() == a.visible()
    &&& b.pending() == a.pending()
    &&& b.deletes() == a.deletes()
    &&& b.cf_names() == a.cf_names()
    &&& forall|n: Seq<char>| #[trigger] b.cf_visible(n) == a.cf_visible(n)
    &&& forall|n: Seq<char>| #[trigger] b.cf_pending(n) == a.cf_pending(n)
    &&& forall|n: Seq<char>| #[trigger] b.cf_deletes(n) == a.cf_deletes(n)
}

/// The column-family views of `b` answer as those of `a`: used when an
/// operation leaves the `cf_states` field untouched.
pub(crate) proof fn lemma_same_cf_states(a: Transaction, b: Transaction)
    requires
        a.cf_states@ == b.cf_states@,
    ensures
        a.cf_names() =~= b.cf_names(),
        forall|n: Seq<char>| #[trigger] a.cf_visible(n) == b.cf_visible(n),
        forall|n: Seq<char>| #[trigger] a.cf_pending(n) == b.cf_pending(n),
        forall|n: Seq<char>| #[trigger] a.cf_deletes(n) == b.cf_deletes(n),
{
    assert(a.cf_names() =~= b.cf_names());
    assert forall|n: Seq<char>|
        #[trigger] a.cf_visible(n) == b.cf_visible(n) && #[trigger] a.cf_pending(n)
            == b.cf_pending(n) && #[trigger] a.cf_deletes(n) == b.cf_deletes(n) by {
        if exists|i: int|
            0 <= i < a.cf_states@.len() && (#[trigger] a.cf_states@[i]).name@ == n {
            let i = choose|i: int|
                0 <= i < a.cf_states@.len() && (#[trigger] a.cf_states@[i]).name@ == n;
            assert(b.cf_states@[i] == a.cf_states@[i]);
            assert((b.cf_states@[i]).name@ == n);
        } else {
            if exists|i: int|
                0 <= i < b.cf_states@.len() && (#[trigger] b.cf_states@[i]).name@ == n {
                let i = choose|i: int|
                    0 <= i < b.cf_states@.len() && (#[trigger] b.cf_states@[i]).name@ == n;
                assert((a.cf_states@[i]).name@ == n);
            }
        }
    }
}

impl Datastore {
    /// Begin a transaction: it sees every keyspace as of now, carries no
    /// writes yet, and remembers the current commit sequence number.
    pub fn transaction(&self, write: bool) -> (r: Result<Transaction, Error>)
        requires
            self.wf(),
        ensures
            match r {
                Ok(t) => {
                    &&& t.wf()
                    &&& !t.completed()
                    &&& t.is_rw() == write
                    &&& t.begin() == self.seq_no()
                    &&& t.visible() == self.data()
                    &&& t.pending() =~= Map::<Seq<u8>, Seq<u8>>::empty()
                    &&& t.deletes() =~= Set::<Seq<u8>>::empty()
                    &&& t.cf_names() =~= self.cf_names()
                    &&& forall|n: Seq<char>| #[trigger] t.cf_visible(n) == self.cf_data(n)
                    &&& forall|n: Seq<char>|
                        t.cf_visible(n) is Some ==> #[trigger] t.cf_pending(n) == Some(
                            Map::<Seq<u8>, Seq<u8>>::empty(),
                        ) && #[trigger] t.cf_deletes(n) == Some(Set::<Seq<u8>>::empty())
                    &&& forall|n: Seq<char>| #[trigger] t.cf_pending(n) is Some ==> t.cf_visible(
                        n,
                    ) is Some
                },
                Err(_) => false,
            },
    {
        proof {
            crate::store::ds_reveal(*self);
        }
        let n = self.cfs.len();
        let mut cf_states: Vec<CfState> = Vec::new();
        let mut i: usize = 0;
        while i < n
            invariant
                0 <= i <= n,
                n == self.cfs@.len(),
                self.wf(),
                forall|j: int| 0 <= j < n ==> (#[trigger] self.cfs@[j]).1.wf(),
                forall|j: int, q: int|
                    0 <= j < q < n ==> (#[trigger] self.cfs@[j]).0@ != (#[trigger] self.cfs@[q]).0@,
                cf_states@.len() == i,
                forall|j: int|
                    0 <= j < i ==> {
                        &&& (#[trigger] cf_states@[j]).name@ == self.cfs@[j].0@
                        &&& cf_states@[j].wf()
                        &&& cf_states@[j].local.view_map() == self.cfs@[j].1.view_map()
                        &&& cf_states@[j].puts.view_map() =~= Map::<Seq<u8>, Seq<u8>>::empty()
                        &&& cf_states@[j].dels.view_map() =~= Map::<Seq<u8>, Seq<u8>>::empty()
                    },
            decreases n - i,
        {
            let st = CfState {
                name: self.cfs[i].0.clone(),
                local: self.cfs[i].1.duplicate(),
                puts: SortedKv::new(),
                dels: SortedKv::new(),
            };
            cf_states.push(st);
            i = i + 1;
        }
        let t = Transaction {
            local: self.space.duplicate(),
            puts: SortedKv::new(),
            dels: SortedKv::new(),
            cf_states,
            begin_seq: self.seq,
            completed: false,
            rw: write,
        };
        proof {
            assert(t.cf_names() =~= self.cf_names()) by {
                crate::store::ds_reveal(*self);
            }
            assert forall|m: Seq<char>| #[trigger] t.cf_visible(m) == self.cf_data(m) && (
            t.cf_visible(m) is Some ==> t.cf_pending(m) == Some(Map::<Seq<u8>, Seq<u8>>::empty())
                && t.cf_deletes(m) == Some(Set::<Seq<u8>>::empty())) by {
                if exists|i: int|
                    0 <= i < t.cf_states@.len() && (#[trigger] t.cf_states@[i]).name@ == m {
                    let i = choose|i: int|
                        0 <= i < t.cf_states@.len() && (#[trigger] t.cf_states@[i]).name@ == m;
                    assert(self.cfs@[i].0@ == m);
                    crate::store::lemma_cf_lookup(*self, i, m);
                    let j = choose|j: int|
                        0 <= j < t.cf_states@.len() && (#[trigger] t.cf_states@[j]).name@ == m;
                    assert(j == i) by {
                        if j != i {
                            assert(self.cfs@[j].0@ == m);
                        }
                    }
                    assert(t.cf_visible(m) == Some(t.cf_states@[i].local.view_map()));
                    assert(t.cf_deletes(m) == Some(Set::<Seq<u8>>::empty())) by {
                        assert(t.cf_states@[i].dels.view_map().dom() =~= Set::<Seq<u8>>::empty());
                    }
                    assert(t.cf_pending(m) == Some(t.cf_states@[i].puts.view_map()));
                } else {
                    assert forall|i: int| 0 <= i < self.cfs@.len() implies (
                    #[trigger] self.cfs@[i]).0@ != m by {
                        assert(t.cf_states@[i].name@ == self.cfs@[i].0@);
                    }
                    crate::store::lemma_cf_none(*self, m);
                }
            }
            assert forall|m: Seq<char>| #[trigger] t.cf_pending(m) is Some implies t.cf_visible(m)
                is Some by {
                if exists|i: int|
                    0 <= i < t.cf_states@.len() && (#[trigger] t.cf_states@[i]).name@ == m {
                }
            }
        }
        Ok(t)
    }
}

impl Transaction {
    /// Whether the transaction has completed: committed or rolled back.
    pub fn is_completed(&self) -> (r: bool)
        ensures
            r == self.completed(),
    {
        self.completed
    }

    /// Fetch a key from the transaction's view of the default keyspace.
    pub fn get(&self, key: &Vec<u8>) -> (r: Result<Option<Vec<u8>>, Error>)
        requires
            self.wf(),
        ensures
            self.completed() ==> r == Err::<Option<Vec<u8>>, Error>(Error::TxFinished),
            !self.completed() ==> match r {
                Ok(Some(v)) => self.visible().contains_key(key@) && self.visible()[key@] == v@,
                Ok(None) => !self.visible().contains_key(key@),
                Err(_) => false,
            },
    {
        if self.completed {
            return Err(Error::TxFinished);
        }
        match self.local.get(key) {
            Some(v) => Ok(Some(clone_bytes(v))),
            None => Ok(None),
        }
    }

    /// Whether a key exists in the transaction's view.
    pub fn key_exists(&self, key: &Vec<u8>) -> (r: Result<bool, Error>)
        requires
            self.wf(),
        ensures
            self.completed() ==> r == Err::<bool, Error>(Error::TxFinished),
            !self.completed() ==> r == Ok::<bool, Error>(self.visible().contains_key(key@)),
    {
        if self.completed {
            return Err(Error::TxFinished);
        }
        Ok(self.local.contains(key))
    }

    /// Insert or update a key, unconditionally.
    pub fn upsert(&mut self, key: Vec<u8>, val: Vec<u8>) -> (r: Result<(), Error>)
        requires
            old(self).wf(),
        ensures
            final(self).wf(),
            old(self).completed() ==> r == Err::<(), Error>(Error::TxFinished) && *final(self)
                == *old(self),
            !old(self).completed() && !old(self).is_rw() ==> r == Err::<(), Error>(
                Error::TxReadonly,
            ) && *final(self) == *old(self),
            !old(self).completed() && old(self).is_rw() ==> {
                &&& r == Ok::<(), Error>(())
                &&& final(self).visible() == old(self).visible().insert(key@, val@)
                &&& final(self).pending() == old(self).pending().insert(key@, val@)
                &&& final(self).deletes() == old(self).deletes().remove(key@)
                &&& final(self).completed() == old(self).completed()
                &&& final(self).is_rw() == old(self).is_rw()
                &&& final(self).begin() == old(self).begin()
                &&& final(self).cf_names() == old(self).cf_names()
                &&& forall|n: Seq<char>| #[trigger] final(self).cf_visible(n) == old(
                    self,
                ).cf_visible(n)
                &&& forall|n: Seq<char>| #[trigger] final(self).cf_pending(n) == old(
                    self,
                ).cf_pending(n)
                &&& forall|n: Seq<char>| #[trigger] final(self).cf_deletes(n) == old(
                    self,
                ).cf_deletes(n)
            },
    {
        if self.completed {
            return Err(Error::TxFinished);
        }
        if !self.rw {
            return Err(Error::TxReadonly);
        }
        let kp = clone_bytes(&key);
        let kd = clone_bytes(&key);
        self.local.set(key, clone_bytes(&val));
        self.puts.set(kp, val);
        self.dels.remove(&kd);
        proof {
            lemma_same_cf_states(*old(self), *self);
            assert(self.deletes() =~= old(self).deletes().remove(kd@));
        }
        Ok(())
    }

    /// Insert a key only if it is absent from the transaction's view; else
    /// fail with `TxKeyAlreadyExists`.
    pub fn insert(&mut self, key: Vec<u8>, val: Vec<u8>) -> (r: Result<(), Error>)
        requires
            old(self).wf(),
        ensures
            final(self).wf(),
            old(self).completed() ==> r == Err::<(), Error>(Error::TxFinished) && *final(self)
                == *old(self),
            !old(self).completed() && !old(self).is_rw() ==> r == Err::<(), Error>(
                Error::TxReadonly,
            ) && *final(self) == *old(self),
            !old(self).completed() && old(self).is_rw() && old(self).visible().contains_key(key@)
                ==> r == Err::<(), Error>(Error::TxKeyAlreadyExists) && *final(self) == *old(self),
            !old(self).completed() && old(self).is_rw() && !old(self).visible().contains_key(key@)
                ==> {
                &&& r == Ok::<(), Error>(())
                &&& final(self).visible() == old(self).visible().insert(key@, val@)
                &&& final(self).pending() == old(self).pending().insert(key@, val@)
                &&& final(self).deletes() == old(self).deletes().remove(key@)
                &&& same_but_completed_state(*old(self), *final(self))
            },
    {
        if self.completed {
            return Err(Error::TxFinished);
        }
        if !self.rw {
            return Err(Error::TxReadonly);
        }
        if self.local.contains(&key) {
            return Err(Error::TxKeyAlreadyExists);
        }
        self.upsert(key, val)
    }

    /// Insert a key only if its current value under the transaction's view
    /// equals the check: present and equal to `Some(w)`, or absent with a
    /// `None` check. Else fail with `TxConditionNotMet`.
    pub fn insert_checked(&mut self, key: Vec<u8>, val: Vec<u8>, chk: Option<Vec<u8>>) -> (r:
        Result<(), Error>)
        requires
            old(self).wf(),
        ensures
            final(self).wf(),
            old(self).completed() ==> r == Err::<(), Error>(Error::TxFinished) && *final(self)
                == *old(self),
            !old(self).completed() && !old(self).is_rw() ==> r == Err::<(), Error>(
                Error::TxReadonly,
            ) && *final(self) == *old(self),
            !old(self).completed() && old(self).is_rw() ==> {
                let m = old(self).visible();
                if check_holds(m, key@, opt_view(chk)) {
                    &&& r == Ok::<(), Error>(())
                    &&& final(self).visible() == m.insert(key@, val@)
                    &&& final(self).pending() == old(self).pending().insert(key@, val@)
                    &&& final(self).deletes() == old(self).deletes().remove(key@)
                    &&& same_but_completed_state(*old(self), *final(self))
                } else {
                    r == Err::<(), Error>(Error::TxConditionNotMet) && *final(self) == *old(self)
                }
            },
    {
        if self.completed {
            return Err(Error::TxFinished);
        }
        if !self.rw {
            return Err(Error::TxReadonly);
        }
        let ok = self.check_matches(&key, &chk);
        if !ok {
            return Err(Error::TxConditionNotMet);
        }
        self.upsert(key, val)
    }

    /// Delete a key, unconditionally.
    pub fn delete(&mut self, key: Vec<u8>) -> (r: Result<(), Error>)
        requires
            old(self).wf(),
        ensures
            final(self).wf(),
            old(self).completed() ==> r == Err::<(), Error>(Error::TxFinished) && *final(self)
                == *old(self),
            !old(self).completed() && !old(self).is_rw() ==> r == Err::<(), Error>(
                Error::TxReadonly,
            ) && *final(self) == *old(self),
            !old(self).completed() && old(self).is_rw() ==> {
                &&& r == Ok::<(), Error>(())
                &&& final(self).visible() == old(self).visible().remove(key@)
                &&& final(self).pending() == old(self).pending().remove(key@)
                &&& final(self).deletes() == old(self).deletes().insert(key@)
                &&& same_but_completed_state(*old(self), *final(self))
            },
    {
        if self.completed {
            return Err(Error::TxFinished);
        }
        if !self.rw {
            return Err(Error::TxReadonly);
        }
        let kp = clone_bytes(&key);
        let kd = clone_bytes(&key);
        self.local.remove(&key);
        self.puts.remove(&kp);
        self.dels.set(kd, Vec::new());
        proof {
            lemma_same_cf_states(*old(self), *self);
            assert(self.deletes() =~= old(self).deletes().insert(kd@));
        }
        Ok(())
    }

    /// Delete a key only if its current value matches the check, as in
    /// `insert_checked`; else fail with `TxConditionNotMet`.
    pub fn delete_checked(&mut self, key: Vec<u8>, chk: Option<Vec<u8>>) -> (r: Result<(), Error>)
        requires
            old(self).wf(),
        ensures
            final(self).wf(),
            old(self).completed() ==> r == Err::<(), Error>(Error::TxFinished) && *final(self)
                == *old(self),
            !old(self).completed() && !old(self).is_rw() ==> r == Err::<(), Error>(
                Error::TxReadonly,
            ) && *final(self) == *old(self),
            !old(self).completed() && old(self).is_rw() ==> {
                let m = old(self).visible();
                if check_holds(m, key@, opt_view(chk)) {
                    &&& r == Ok::<(), Error>(())
                    &&& final(self).visible() == m.remove(key@)
                    &&& final(self).pending() == old(self).pending().remove(key@)
                    &&& final(self).deletes() == old(self).deletes().insert(key@)
                    &&& same_but_completed_state(*old(self), *final(self))
                } else {
                    r == Err::<(), Error>(Error::TxConditionNotMet) && *final(self) == *old(self)
                }
            },
    {
        if self.completed {
            return Err(Error::TxFinished);
        }
        if !self.rw {
            return Err(Error::TxReadonly);
        }
        let ok = self.check_matches(&key, &chk);
        if !ok {
            return Err(Error::TxConditionNotMet);
        }
        self.delete(key)
    }


    /// Write a key into the named column family (a secondary index); fail if
    /// no index of that name exists in this transaction's view of the
    /// catalogue.
    pub fn update_index(&mut self, idx: &str, key: Vec<u8>, val: Vec<u8>) -> (r: Result<(), Error>)
        requires
            old(self).wf(),
        ensures
            final(self).wf(),
            old(self).completed() ==> r == Err::<(), Error>(Error::TxFinished) && *final(self)
                == *old(self),
            !old(self).completed() && !old(self).is_rw() ==> r == Err::<(), Error>(
                Error::TxReadonly,
            ) && *final(self) == *old(self),
            !old(self).completed() && old(self).is_rw() && old(self).cf_pending(idx@) is None ==> {
                &&& *final(self) == *old(self)
                &&& match r {
                    Err(Error::Tx(m)) => m@ == "`"@ + idx@ + "` index does not exist."@,
                    _ => false,
                }
            },
            !old(self).completed() && old(self).is_rw() && old(self).cf_pending(idx@) is Some
                ==> {
                &&& r == Ok::<(), Error>(())
                &&& final(self).cf_visible(idx@) == Some(
                    old(self).cf_visible(idx@).unwrap().insert(key@, val@),
                )
                &&& final(self).cf_pending(idx@) == Some(
                    old(self).cf_pending(idx@).unwrap().insert(key@, val@),
                )
                &&& final(self).cf_deletes(idx@) == Some(
                    old(self).cf_deletes(idx@).unwrap().remove(key@),
                )
                &&& forall|n: Seq<char>|
                    n != idx@ ==> #[trigger] final(self).cf_visible(n) == old(self).cf_visible(n)
                        && #[trigger] final(self).cf_pending(n) == old(self).cf_pending(n)
                        && #[trigger] final(self).cf_deletes(n) == old(self).cf_deletes(n)
                &&& final(self).cf_names() == old(self).cf_names()
                &&& final(self).visible() == old(self).visible()
                &&& final(self).pending() == old(self).pending()
                &&& final(self).deletes() == old(self).deletes()
                &&& final(self).completed() == old(self).completed()
                &&& final(self).is_rw() == old(self).is_rw()
                &&& final(self).begin() == old(self).begin()
            },
    {
        if self.completed {
            return Err(Error::TxFinished);
        }
        if !self.rw {
            return Err(Error::TxReadonly);
        }
        let name = idx.to_owned();
        let n = self.cf_states.len();
        let mut i: usize = 0;
        loop
            invariant
                0 <= i <= n,
                n == self.cf_states@.len(),
                name@ == idx@,
                forall|j: int| 0 <= j < i ==> (#[trigger] self.cf_states@[j]).name@ != idx@,
            ensures
                i <= n,
                forall|j: int| 0 <= j < i ==> (#[trigger] self.cf_states@[j]).name@ != idx@,
                i < n ==> self.cf_states@[i as int].name@ == idx@,
            decreases n - i,
        {
            if i >= n {
                break;
            }
            if self.cf_states[i].name == name {
                break;
            }
            i = i + 1;
        }
        if i == n {
            proof {
                if exists|j: int|
                    0 <= j < self.cf_states@.len() && (#[trigger] self.cf_states@[j]).name@
                        == idx@ {
                    let j = choose|j: int|
                        0 <= j < self.cf_states@.len() && (#[trigger] self.cf_states@[j]).name@
                            == idx@;
                    assert(false);
                }
            }
            let msg = String::from_str("`").concat(idx).concat("` index does not exist.");
            return Err(Error::Tx(msg));
        }
        let ghost before = *self;
        let ghost nm = self.cf_states@[i as int].name@;
        let kp = clone_bytes(&key);
        let kd = clone_bytes(&key);
        let vl = clone_bytes(&val);
        let mut st = self.cf_states.remove(i);
        st.local.set(key, vl);
        st.puts.set(kp, val);
        st.dels.remove(&kd);
        self.cf_states.insert(i, st);
        proof {
            assert(nm == idx@);
            assert(self.cf_states@.len() == before.cf_states@.len());
            assert forall|j: int|
                0 <= j < self.cf_states@.len() && j != i implies #[trigger] self.cf_states@[j]
                    == before.cf_states@[j] by {
                assert(self.cf_states@ == before.cf_states@.remove(i as int).insert(
                    i as int,
                    self.cf_states@[i as int],
                ));
            }
            assert(self.cf_states@[i as int].name@ == nm);
            assert(self.cf_states@[i as int].dels.view_map().dom() =~= before.cf_states@[
                i as int].dels.view_map().dom().remove(kd@));
            lemma_one_cf_changed(before, *self, i as int);
            assert(before.cf_pending(idx@) == Some(before.cf_states@[i as int].puts.view_map()))
                by {
                lemma_cf_at(before, i as int);
            }
            assert(self.cf_pending(idx@) == Some(self.cf_states@[i as int].puts.view_map())) by {
                lemma_cf_at(*self, i as int);
            }
        }
        Ok(())
    }
    /// Whether this transaction writes the given keyspace/key, executably.
    fn touches_here(&self, space: &String, k: &Vec<u8>) -> (r: bool)
        requires
            self.wf(),
        ensures
            r == self.touches(space@, k@),
    {
        let dflt = String::from_str("default");
        if *space == dflt {
            return self.puts.contains(k) || self.dels.contains(k);
        }
        let n = self.cf_states.len();
        let mut i: usize = 0;
        loop
            invariant
                0 <= i <= n,
                n == self.cf_states@.len(),
                self.wf(),
                space@ != default_name(),
                forall|j: int| 0 <= j < i ==> (#[trigger] self.cf_states@[j]).name@ != space@,
            ensures
                i <= n,
                forall|j: int| 0 <= j < i ==> (#[trigger] self.cf_states@[j]).name@ != space@,
                i < n ==> self.cf_states@[i as int].name@ == space@,
            decreases n - i,
        {
            if i >= n {
                break;
            }
            if self.cf_states[i].name == *space {
                break;
            }
            i = i + 1;
        }
        if i == n {
            proof {
                if exists|j: int|
                    0 <= j < self.cf_states@.len() && (#[trigger] self.cf_states@[j]).name@
                        == space@ {
                    let j = choose|j: int|
                        0 <= j < self.cf_states@.len() && (#[trigger] self.cf_states@[j]).name@
                            == space@;
                    assert(false);
                }
            }
            return false;
        }
        proof {
            lemma_cf_at(*self, i as int);
        }
        self.cf_states[i].puts.contains(k) || self.cf_states[i].dels.contains(k)
    }

    /// Commit the transaction. The transaction is completed whether the
    /// commit succeeds or fails terminally. It succeeds exactly when no key
    /// it writes was committed by another transaction since it began, every
    /// column family it writes still exists, and the commit sequence has
    /// room; the store then applies all pending writes atomically and records
    /// them in its log under the new sequence number.
    pub fn commit(&mut self, ds: &mut Datastore) -> (r: Result<(), Error>)
        requires
            old(self).wf(),
            old(ds).wf(),
        ensures
            final(self).wf(),
            final(ds).wf(),
            old(self).completed() ==> r == Err::<(), Error>(Error::TxFinished) && *final(self)
                == *old(self) && *final(ds) == *old(ds),
            !old(self).completed() && !old(self).is_rw() ==> r == Err::<(), Error>(
                Error::TxReadonly,
            ) && *final(self) == *old(self) && *final(ds) == *old(ds),
            !old(self).completed() && old(self).is_rw() ==> {
                &&& final(self).completed()
                &&& same_but_completed(*old(self), *final(self))
                &&& (r is Ok <==> !old(self).conflicts_with(old(ds).log_view()) && touched_present(
                    *old(ds),
                    *old(self),
                ) && old(ds).seq_no() < u64::MAX)
                &&& (r is Err ==> *final(ds) == *old(ds) && (r matches Err(e) && e is Tx))
                &&& (r is Ok ==> commit_applied(*old(ds), *old(self), *final(ds)))
            },
    {
        if self.completed {
            return Err(Error::TxFinished);
        }
        if !self.rw {
            return Err(Error::TxReadonly);
        }
        proof {
            crate::store::ds_reveal(*ds);
        }
        // Validate: no key this transaction writes was committed after it
        // began.
        let nl = ds.log.len();
        let mut li: usize = 0;
        while li < nl
            invariant
                0 <= li <= nl,
                nl == ds.log@.len(),
                self.wf(),
                !self.completed(),
                self.is_rw(),
                *self == *old(self),
                *ds == *old(ds),
                ds.wf(),
                forall|j: int|
                    0 <= j < li ==> !((#[trigger] ds.log@[j]).2 > self.begin() && self.touches(
                        ds.log@[j].0@,
                        ds.log@[j].1@,
                    )),
            decreases nl - li,
        {
            if ds.log[li].2 > self.begin_seq {
                if self.touches_here(&ds.log[li].0, &ds.log[li].1) {
                    self.completed = true;
                    proof {
                        lemma_same_cf_states(*old(self), *self);
                        crate::store::ds_reveal(*old(ds));
                        assert(old(self).conflicts_with(old(ds).log_view())) by {
                            let lv = old(ds).log_view();
                            assert(lv[li as int].2 > old(self).begin());
                            assert(old(self).touches(lv[li as int].0, lv[li as int].1));
                        }
                    }
                    return Err(
                        Error::Tx(
                            String::from_str(
                                "transaction conflict: a key written here was committed by another transaction",
                            ),
                        ),
                    );
                }
            }
            li = li + 1;
        }
        proof {
            crate::store::ds_reveal(*old(ds));
            assert(!old(self).conflicts_with(old(ds).log_view())) by {
                let lv = old(ds).log_view();
                if old(self).conflicts_with(lv) {
                    let i = choose|i: int|
                        0 <= i < lv.len() && (#[trigger] lv[i]).2 > old(self).begin() && old(
                            self,
                        ).touches(lv[i].0, lv[i].1);
                    assert(ds.log@[i].2 > self.begin() && self.touches(
                        ds.log@[i].0@,
                        ds.log@[i].1@,
                    ));
                }
            }
        }
        // Validate: every column family this transaction writes still exists.
        let ns = self.cf_states.len();
        let mut si: usize = 0;
        while si < ns
            invariant
                0 <= si <= ns,
                ns == self.cf_states@.len(),
                self.wf(),
                !self.completed(),
                self.is_rw(),
                *self == *old(self),
                *ds == *old(ds),
                ds.wf(),
                forall|j: int|
                    0 <= j < si ==> ((#[trigger] self.cf_states@[j]).puts.pairs().len() > 0
                        || self.cf_states@[j].dels.pairs().len() > 0) ==> exists|q: int|
                        0 <= q < ds.cfs@.len() && (#[trigger] ds.cfs@[q]).0@
                            == self.cf_states@[j].name@,
            decreases ns - si,
        {
            let written = self.cf_states[si].puts.len() > 0 || self.cf_states[si].dels.len() > 0;
            if written {
                let found = crate::store::find_cf(ds, &self.cf_states[si].name);
                if found.is_none() {
                    let ghost nm = self.cf_states@[si as int].name@;
                    self.completed = true;
                    proof {
                        lemma_same_cf_states(*old(self), *self);
                        lemma_cf_at(*old(self), si as int);
                        crate::sorted::lemma_empty_iff(old(self).cf_states@[si as int].puts);
                        crate::sorted::lemma_empty_iff(old(self).cf_states@[si as int].dels);
                        crate::store::lemma_cf_none(*ds, nm);
                        assert(!touched_present(*old(ds), *old(self)));
                    }
                    let msg = String::from_str("`").concat(self.cf_states[si].name.as_str())
                        .concat("` index does not exist.");
                    return Err(Error::Tx(msg));
                }
            }
            si = si + 1;
        }
        // Validate: the commit sequence has room.
        if ds.seq == u64::MAX {
            self.completed = true;
            proof {
                lemma_same_cf_states(*old(self), *self);
                crate::store::ds_reveal(*ds);
            }
            return Err(Error::Tx(String::from_str("commit sequence exhausted")));
        }
        proof {
            assert(touched_present(*old(ds), *old(self))) by {
                assert forall|n: Seq<char>|
                    (#[trigger] old(self).cf_pending(n) is Some && (old(self).cf_pending(
                        n,
                    ).unwrap() != Map::<Seq<u8>, Seq<u8>>::empty() || old(self).cf_deletes(
                        n,
                    ).unwrap() != Set::<Seq<u8>>::empty())) implies old(ds).cf_data(n) is Some by {
                    assert(exists|j: int|
                        0 <= j < old(self).cf_states@.len() && (
                        #[trigger] old(self).cf_states@[j]).name@ == n);
                    let j = choose|j: int|
                        0 <= j < old(self).cf_states@.len() && (
                        #[trigger] old(self).cf_states@[j]).name@ == n;
                    lemma_cf_at(*old(self), j);
                    crate::sorted::lemma_empty_iff(old(self).cf_states@[j].puts);
                    crate::sorted::lemma_empty_iff(old(self).cf_states@[j].dels);
                    assert(old(self).cf_states@[j].puts.pairs().len() > 0 || old(
                        self,
                    ).cf_states@[j].dels.pairs().len() > 0);
                    assert(exists|q: int|
                        0 <= q < ds.cfs@.len() && (#[trigger] ds.cfs@[q]).0@ == n);
                    let q = choose|q: int|
                        0 <= q < ds.cfs@.len() && (#[trigger] ds.cfs@[q]).0@ == n;
                    crate::store::lemma_cf_lookup(*ds, q, n);
                }
            }
        }
        let newseq = ds.seq + 1;
        let ghost ds0 = *ds;
        let ghost t0 = *self;
        // Apply the default-keyspace writes.
        apply_set(&mut ds.space, &self.puts, &self.dels);
        let ghost space_after = ds.space;
        // Apply each column family's writes.
        let mut ci: usize = 0;
        while ci < ns
            invariant
                0 <= ci <= ns,
                ns == self.cf_states@.len(),
                self.wf(),
                *self == t0,
                ds.space == space_after,
                ds.log@ == ds0.log@,
                ds.seq == ds0.seq,
                ds.indexes@ == ds0.indexes@,
                ds.cfs@.len() == ds0.cfs@.len(),
                forall|q: int|
                    0 <= q < ds.cfs@.len() ==> (#[trigger] ds.cfs@[q]).0 == ds0.cfs@[q].0,
                forall|q: int| 0 <= q < ds.cfs@.len() ==> (#[trigger] ds.cfs@[q]).1.wf(),
                forall|p: int, q: int|
                    0 <= p < q < ds0.cfs@.len() ==> (#[trigger] ds0.cfs@[p]).0@ != (
                    #[trigger] ds0.cfs@[q]).0@,
                forall|q: int|
                    0 <= q < ds.cfs@.len() ==> #[trigger] cf_slot_ok(
                        t0,
                        ds0,
                        ds.cfs@,
                        ci as int,
                        q,
                    ),
            decreases ns - ci,
        {
            let found = crate::store::find_cf(ds, &self.cf_states[ci].name);
            let ghost prev_cfs = ds.cfs@;
            let ghost nm = self.cf_states@[ci as int].name@;
            match found {
                Some(q) => {
                    let mut entry = ds.cfs.remove(q);
                    apply_set(&mut entry.1, &self.cf_states[ci].puts, &self.cf_states[ci].dels);
                    ds.cfs.insert(q, entry);
                    proof {
                        assert forall|x: int|
                            0 <= x < ds.cfs@.len() && x != q implies #[trigger] ds.cfs@[x]
                                == prev_cfs[x] by {
                            assert(ds.cfs@ =~= prev_cfs.remove(q as int).insert(
                                q as int,
                                ds.cfs@[q as int],
                            ));
                        }
                        assert(ds.cfs@[q as int].0 == prev_cfs[q as int].0);
                        assert forall|x: int| 0 <= x < ds.cfs@.len() implies #[trigger] cf_slot_ok(
                            t0,
                            ds0,
                            ds.cfs@,
                            ci + 1,
                            x,
                        ) by {
                            assert(cf_slot_ok(t0, ds0, prev_cfs, ci as int, x));
                            if x == q {
                                assert(!exists|j: int|
                                    0 <= j < ci && (#[trigger] t0.cf_states@[j]).name@
                                        == ds0.cfs@[x].0@) by {
                                    if exists|j: int|
                                        0 <= j < ci && (#[trigger] t0.cf_states@[j]).name@
                                            == ds0.cfs@[x].0@ {
                                        let j = choose|j: int|
                                            0 <= j < ci && (#[trigger] t0.cf_states@[j]).name@
                                                == ds0.cfs@[x].0@;
                                        assert(t0.cf_states@[j].name@ == t0.cf_states@[
                                            ci as int].name@);
                                    }
                                }
                                assert(prev_cfs[x].1 == ds0.cfs@[x].1);
                                assert(t0.cf_states@[ci as int].name@ == ds0.cfs@[x].0@);
                                assert(ds.cfs@[x].1.view_map() == apply_writes(
                                    ds0.cfs@[x].1.view_map(),
                                    t0.cf_states@[ci as int].puts.view_map(),
                                    t0.cf_states@[ci as int].dels.view_map().dom(),
                                ));
                            } else {
                                if exists|j: int|
                                    0 <= j < ci + 1 && (#[trigger] t0.cf_states@[j]).name@
                                        == ds0.cfs@[x].0@ {
                                    let j = choose|j: int|
                                        0 <= j < ci + 1 && (#[trigger] t0.cf_states@[j]).name@
                                            == ds0.cfs@[x].0@;
                                    assert(j != ci) by {
                                        if j == ci {
                                            assert(ds0.cfs@[x].0@ == nm);
                                            assert(ds.cfs@[q as int].0@ == nm);
                                            assert(ds0.cfs@[q as int].0@ == nm);
                                        }
                                    }
                                }
                            }
                        }
                    }
                },
                None => {
                    proof {
                        assert forall|x: int| 0 <= x < ds.cfs@.len() implies #[trigger] cf_slot_ok(
                            t0,
                            ds0,
                            ds.cfs@,
                            ci + 1,
                            x,
                        ) by {
                            assert(cf_slot_ok(t0, ds0, ds.cfs@, ci as int, x));
                            if exists|j: int|
                                0 <= j < ci + 1 && (#[trigger] t0.cf_states@[j]).name@
                                    == ds0.cfs@[x].0@ {
                                let j = choose|j: int|
                                    0 <= j < ci + 1 && (#[trigger] t0.cf_states@[j]).name@
                                        == ds0.cfs@[x].0@;
                                assert(j != ci) by {
                                    if j == ci {
                                        assert(ds.cfs@[x].0@ == nm);
                                    }
                                }
                            }
                        }
                    }
                },
            }
            ci = ci + 1;
        }
        // Record every written key in the log under the new sequence number.
        let dflt = String::from_str("default");
        let ghost log0 = ds.log@;
        append_log(&mut ds.log, &dflt, &self.puts, newseq);
        append_log(&mut ds.log, &dflt, &self.dels, newseq);
        let mut wi: usize = 0;
        while wi < ns
            invariant
                0 <= wi <= ns,
                ns == self.cf_states@.len(),
                self.wf(),
                *self == t0,
                ds.space == space_after,
                ds.seq == ds0.seq,
                ds.indexes@ == ds0.indexes@,
                ds.cfs@.len() == ds0.cfs@.len(),
                forall|q: int|
                    0 <= q < ds.cfs@.len() ==> (#[trigger] ds.cfs@[q]).0 == ds0.cfs@[q].0,
                forall|q: int| 0 <= q < ds.cfs@.len() ==> (#[trigger] ds.cfs@[q]).1.wf(),
                forall|q: int|
                    0 <= q < ds.cfs@.len() ==> #[trigger] cf_slot_ok(
                        t0,
                        ds0,
                        ds.cfs@,
                        ns as int,
                        q,
                    ),
                ds.log@.len() >= log0.len(),
                forall|x: int| 0 <= x < log0.len() ==> #[trigger] ds.log@[x] == log0[x],
                forall|x: int|
                    log0.len() <= x < ds.log@.len() ==> (#[trigger] ds.log@[x]).2 == newseq,
            decreases ns - wi,
        {
            append_log(&mut ds.log, &self.cf_states[wi].name, &self.cf_states[wi].puts, newseq);
            append_log(&mut ds.log, &self.cf_states[wi].name, &self.cf_states[wi].dels, newseq);
            wi = wi + 1;
        }
        ds.seq = newseq;
        self.completed = true;
        proof {
            lemma_same_cf_states(*old(self), *self);
            crate::store::ds_reveal(ds0);
            crate::store::ds_reveal(*ds);
            assert(ds.data() =~= apply_writes(ds0.data(), t0.pending(), t0.deletes()));
            assert(ds.cf_names() =~= ds0.cf_names());
            assert(ds.index_list() =~= ds0.index_list());
            assert forall|x: int| 0 <= x < ds0.log_view().len() implies #[trigger] ds.log_view()[x]
                == ds0.log_view()[x] by {
                assert(ds.log@[x] == ds0.log@[x]);
            }
            assert forall|x: int|
                ds0.log_view().len() <= x < ds.log_view().len() implies (
            #[trigger] ds.log_view()[x]).2 == ds0.seq_no() + 1 by {
                assert(ds.log@[x].2 == newseq);
            }
            assert(ds.wf()) by {
                assert forall|p: int, q: int| 0 <= p < q < ds.cfs@.len() implies (
                #[trigger] ds.cfs@[p]).0@ != (#[trigger] ds.cfs@[q]).0@ by {
                    assert(ds.cfs@[p].0 == ds0.cfs@[p].0);
                    assert(ds.cfs@[q].0 == ds0.cfs@[q].0);
                }
                assert forall|p: int| 0 <= p < ds.cfs@.len() implies (#[trigger] ds.cfs@[p]).0@
                    != crate::store::default_name() by {
                    assert(ds.cfs@[p].0 == ds0.cfs@[p].0);
                }
            }
            assert forall|n: Seq<char>| #[trigger] ds.cf_data(n) == cf_after(ds0, t0, n) by {
                if exists|q: int| 0 <= q < ds0.cfs@.len() && (#[trigger] ds0.cfs@[q]).0@ == n {
                    let q = choose|q: int|
                        0 <= q < ds0.cfs@.len() && (#[trigger] ds0.cfs@[q]).0@ == n;
                    crate::store::lemma_cf_lookup(ds0, q, n);
                    assert(ds.cfs@[q].0@ == n);
                    crate::store::lemma_cf_lookup(*ds, q, n);
                    assert(cf_slot_ok(t0, ds0, ds.cfs@, ns as int, q));
                    if exists|j: int|
                        0 <= j < ns && (#[trigger] t0.cf_states@[j]).name@ == n {
                        let j = choose|j: int|
                            0 <= j < ns && (#[trigger] t0.cf_states@[j]).name@ == ds0.cfs@[q].0@
                                && ds.cfs@[q].1.view_map() == apply_writes(
                                ds0.cfs@[q].1.view_map(),
                                t0.cf_states@[j].puts.view_map(),
                                t0.cf_states@[j].dels.view_map().dom(),
                            );
                        lemma_cf_at(t0, j);
                    } else {
                        assert(t0.cf_pending(n) is None) by {
                            if exists|j: int|
                                0 <= j < t0.cf_states@.len() && (#[trigger] t0.cf_states@[j]).name@
                                    == n {
                                let j = choose|j: int|
                                    0 <= j < t0.cf_states@.len() && (
                                    #[trigger] t0.cf_states@[j]).name@ == n;
                                assert(false);
                            }
                        }
                        assert(ds.cfs@[q].1 == ds0.cfs@[q].1);
                    }
                } else {
                    assert forall|q: int| 0 <= q < ds.cfs@.len() implies (
                    #[trigger] ds.cfs@[q]).0@ != n by {
                        assert(ds.cfs@[q].0 == ds0.cfs@[q].0);
                        assert(ds0.cfs@[q].0@ != n);
                    }
                    crate::store::lemma_cf_none(*ds, n);
                    crate::store::lemma_cf_none(ds0, n);
                }
            }
        }
        Ok(())
    }

    /// Roll the transaction back: it is completed and its writes are
    /// discarded (they were never visible outside it).
    pub fn rollback(&mut self) -> (r: Result<(), Error>)
        requires
            old(self).wf(),
        ensures
            final(self).wf(),
            old(self).completed() ==> r == Err::<(), Error>(Error::TxFinished) && *final(self)
                == *old(self),
            !old(self).completed() ==> r == Ok::<(), Error>(()) && final(self).completed()
                && same_but_completed(*old(self), *final(self)),
    {
        if self.completed {
            return Err(Error::TxFinished);
        }
        self.completed = true;
        proof {
            lemma_same_cf_states(*old(self), *self);
        }
        Ok(())
    }

    /// Whether the current value of `key` matches the check.
    fn check_matches(&self, key: &Vec<u8>, chk: &Option<Vec<u8>>) -> (r: bool)
        requires
            self.wf(),
        ensures
            r == check_holds(self.visible(), key@, opt_view(*chk)),
    {
        match (self.local.get(key), chk) {
            (Some(v), Some(w)) => {
                let c = crate::order::bytes_cmp(v, w);
                match c {
                    crate::order::Cmp::Equal => true,
                    _ => {
                        proof {
                            crate::order::lemma_lex_total_at(v@, w@, 0);
                        }
                        false
                    },
                }
            },
            (None, None) => true,
            _ => false,
        }
    }
}

/// One slot of the store's column families during commit application: either
/// some already-applied transaction keyspace governs it, or it is untouched.
pub(crate) open spec fn cf_slot_ok(
    t: Transaction,
    ds0: Datastore,
    cfs: Seq<(String, SortedKv)>,
    ci: int,
    q: int,
) -> bool {
    if exists|j: int| 0 <= j < ci && (#[trigger] t.cf_states@[j]).name@ == ds0.cfs@[q].0@ {
        exists|j: int|
            0 <= j < ci && (#[trigger] t.cf_states@[j]).name@ == ds0.cfs@[q].0@ && cfs[q].1.view_map()
                == apply_writes(
                ds0.cfs@[q].1.view_map(),
                t.cf_states@[j].puts.view_map(),
                t.cf_states@[j].dels.view_map().dom(),
            )
    } else {
        cfs[q].1 == ds0.cfs@[q].1
    }
}

/// Append one log record per key of `keys`, all under the given sequence
/// number.
pub(crate) fn append_log(
    log: &mut Vec<(String, Vec<u8>, u64)>,
    name: &String,
    keys: &SortedKv,
    seq: u64,
)
    ensures
        final(log)@.len() >= old(log)@.len(),
        forall|x: int| 0 <= x < old(log)@.len() ==> #[trigger] final(log)@[x] == old(log)@[x],
        forall|x: int|
            old(log)@.len() <= x < final(log)@.len() ==> (#[trigger] final(log)@[x]).2 == seq,
{
    let n = keys.len();
    let mut i: usize = 0;
    while i < n
        invariant
            0 <= i <= n,
            n == keys.pairs().len(),
            log@.len() >= old(log)@.len(),
            forall|x: int| 0 <= x < old(log)@.len() ==> #[trigger] log@[x] == old(log)@[x],
            forall|x: int| old(log)@.len() <= x < log@.len() ==> (#[trigger] log@[x]).2 == seq,
        decreases n - i,
    {
        log.push((name.clone(), clone_bytes(keys.key_at(i)), seq));
        i = i + 1;
    }
}

/// What an `insert_checked` / `delete_checked` check demands of the current
/// value: present and equal for `Some`, absent for `None`.
pub open spec fn check_holds(m: Map<Seq<u8>, Seq<u8>>, k: Seq<u8>, chk: Option<Seq<u8>>) -> bool {
    match chk {
        Some(w) => m.contains_key(k) && m[k] == w,
        None => !m.contains_key(k),
    }
}

/// The view of an optional byte string.
pub open spec fn opt_view(chk: Option<Vec<u8>>) -> Option<Seq<u8>> {
    match chk {
        Some(w) => Some(w@),
        None => None,
    }
}

/// Unfold the transaction's specification functions onto its fields, for the
/// crate's other modules.
pub(crate) proof fn txn_reveal(t: Transaction)
    ensures
        t.visible() == t.local.view_map(),
        t.pending() == t.puts.view_map(),
        t.deletes() == t.dels.view_map().dom(),
        t.completed() == t.completed,
        t.is_rw() == t.rw,
        t.begin() == t.begin_seq,
        t.wf() ==> t.local.wf(),
        t.wf() ==> forall|i: int|
            0 <= i < t.cf_states@.len() ==> (#[trigger] t.cf_states@[i]).local.wf(),
        t.wf() ==> forall|p: int, q: int|
            0 <= p < q < t.cf_states@.len() ==> (#[trigger] t.cf_states@[p]).name@ != (
            #[trigger] t.cf_states@[q]).name@,
        t.cf_names() == Seq::new(t.cf_states@.len(), |i: int| t.cf_states@[i].name@),
{
}

/// A name matching no column-family state is unknown to the transaction.
pub(crate) proof fn lemma_cf_absent(t: Transaction, name: Seq<char>)
    requires
        forall|i: int| 0 <= i < t.cf_states@.len() ==> (#[trigger] t.cf_states@[i]).name@ != name,
    ensures
        t.cf_visible(name) is None,
        t.cf_pending(name) is None,
        t.cf_deletes(name) is None,
{
}

/// A transaction's view holds finitely many keys.
pub proof fn lemma_visible_finite(t: Transaction)
    requires
        t.wf(),
    ensures
        t.visible().dom().finite(),
{
    crate::sorted::lemma_map_finite(t.local.pairs());
}

/// The parts of a transaction a successful write leaves alone.
pub open spec fn same_but_completed_state(a: Transaction, b: Transaction) -> bool {
    &&& b.completed() == a.completed()
    &&& b.is_rw() == a.is_rw()
    &&& b.begin() == a.begin()
    &&& b.cf_names() == a.cf_names()
    &&& forall|n: Seq<char>| #[trigger] b.cf_visible(n) == a.cf_visible(n)
    &&& forall|n: Seq<char>| #[trigger] b.cf_pending(n) == a.cf_pending(n)
    &&& forall|n: Seq<char>| #[trigger] b.cf_deletes(n) == a.cf_deletes(n)
}

/// `ps[j].0 == k` for some `j < i`.
pub(crate) open spec fn prefix_has(ps: Seq<(Seq<u8>, Seq<u8>)>, i: int, k: Seq<u8>) -> bool {
    exists|j: int| 0 <= j < i && (#[trigger] ps[j]).0 == k
}

/// A witness position for `prefix_has`.
pub(crate) open spec fn prefix_idx(ps: Seq<(Seq<u8>, Seq<u8>)>, i: int, k: Seq<u8>) -> int {
    choose|j: int| 0 <= j < i && (#[trigger] ps[j]).0 == k
}

/// The first `i` entries of `ps` written over `m`.
pub(crate) open spec fn puts_applied(
    m: Map<Seq<u8>, Seq<u8>>,
    ps: Seq<(Seq<u8>, Seq<u8>)>,
    i: int,
) -> Map<Seq<u8>, Seq<u8>> {
    Map::new(
        |k: Seq<u8>| m.contains_key(k) || prefix_has(ps, i, k),
        |k: Seq<u8>|
            if prefix_has(ps, i, k) {
                ps[prefix_idx(ps, i, k)].1
            } else {
                m[k]
            },
    )
}

/// `m` with the keys of the first `i` entries of `ds` removed.
pub(crate) open spec fn dels_applied(
    m: Map<Seq<u8>, Seq<u8>>,
    ds: Seq<(Seq<u8>, Seq<u8>)>,
    i: int,
) -> Map<Seq<u8>, Seq<u8>> {
    Map::new(|k: Seq<u8>| m.contains_key(k) && !prefix_has(ds, i, k), |k: Seq<u8>| m[k])
}

/// Write a put set, then a delete set, into a keyspace. Equivalent to
/// `apply_writes` because the two sets never share a key.
pub(crate) fn apply_set(space: &mut SortedKv, puts: &SortedKv, dels: &SortedKv)
    requires
        old(space).wf(),
        puts.wf(),
        dels.wf(),
        puts.view_map().dom().disjoint(dels.view_map().dom()),
    ensures
        final(space).wf(),
        final(space).view_map() =~= apply_writes(
            old(space).view_map(),
            puts.view_map(),
            dels.view_map().dom(),
        ),
{
    let ghost m0 = space.view_map();
    let ghost pps = puts.pairs();
    let np = puts.len();
    let mut i: usize = 0;
    while i < np
        invariant
            0 <= i <= np,
            np == pps.len(),
            pps == puts.pairs(),
            puts.wf(),
            space.wf(),
            space.view_map() =~= puts_applied(m0, pps, i as int),
        decreases np - i,
    {
        let k = clone_bytes(puts.key_at(i));
        let v = clone_bytes(puts.val_at(i));
        space.set(k, v);
        proof {
            assert forall|x: Seq<u8>|
                #[trigger] space.view_map().contains_key(x) == puts_applied(
                    m0,
                    pps,
                    i + 1,
                ).contains_key(x) && (space.view_map().contains_key(x)
                ==> space.view_map()[x] == puts_applied(m0, pps, i + 1)[x]) by {
                if x == pps[i as int].0 {
                    assert(prefix_has(pps, i + 1, x));
                    let j = prefix_idx(pps, i + 1, x);
                    assert(j == i as int) by {
                        if j != i as int {
                            assert(crate::order::lex_lt(pps[j].0, pps[i as int].0)
                                || crate::order::lex_lt(pps[i as int].0, pps[j].0));
                        }
                    }
                } else {
                    assert(prefix_has(pps, i + 1, x) == prefix_has(pps, i as int, x)) by {
                        if prefix_has(pps, i + 1, x) {
                            let j = choose|j: int| 0 <= j < i + 1 && (#[trigger] pps[j]).0 == x;
                            assert(j != i as int);
                            assert(prefix_has(pps, i as int, x));
                        }
                    }
                    if prefix_has(pps, i as int, x) {
                        let j1 = prefix_idx(pps, i as int, x);
                        let j2 = prefix_idx(pps, i + 1, x);
                        assert(j1 == j2) by {
                            if j1 != j2 {
                                assert(crate::order::lex_lt(pps[j1].0, pps[j2].0)
                                    || crate::order::lex_lt(pps[j2].0, pps[j1].0));
                            }
                        }
                    }
                }
            }
            assert(space.view_map() =~= puts_applied(m0, pps, i + 1));
        }
        i = i + 1;
    }
    let ghost m1 = space.view_map();
    let ghost dps = dels.pairs();
    let nd = dels.len();
    let mut q: usize = 0;
    while q < nd
        invariant
            0 <= q <= nd,
            nd == dps.len(),
            dps == dels.pairs(),
            dels.wf(),
            space.wf(),
            space.view_map() =~= dels_applied(m1, dps, q as int),
        decreases nd - q,
    {
        let k = clone_bytes(dels.key_at(q));
        space.remove(&k);
        proof {
            assert forall|x: Seq<u8>|
                #[trigger] space.view_map().contains_key(x) == dels_applied(
                    m1,
                    dps,
                    q + 1,
                ).contains_key(x) by {
                if x == dps[q as int].0 {
                    assert(prefix_has(dps, q + 1, x));
                } else {
                    if prefix_has(dps, q + 1, x) {
                        let j = choose|j: int| 0 <= j < q + 1 && (#[trigger] dps[j]).0 == x;
                        assert(j != q as int);
                        assert(prefix_has(dps, q as int, x));
                    }
                }
            }
            assert(space.view_map() =~= dels_applied(m1, dps, q + 1));
        }
        q = q + 1;
    }
    proof {
        let pm = puts.view_map();
        let dm = dels.view_map();
        assert forall|x: Seq<u8>|
            #[trigger] space.view_map().contains_key(x) == apply_writes(
                m0,
                pm,
                dm.dom(),
            ).contains_key(x) && (space.view_map().contains_key(x) ==> space.view_map()[x]
            == apply_writes(m0, pm, dm.dom())[x]) by {
            assert(prefix_has(pps, pps.len() as int, x) == pm.contains_key(x));
            assert(prefix_has(dps, dps.len() as int, x) == dm.dom().contains(x));
            if pm.contains_key(x) {
                assert(!dm.dom().contains(x));
                let j = prefix_idx(pps, pps.len() as int, x);
                crate::sorted::lemma_entry_in_map(pps, j);
                assert(pm[x] == pps[j].1);
            }
        }
        assert(space.view_map() =~= apply_writes(m0, pm, dm.dom()));
    }
}

/// The column-family accessors at position `i` of a transaction whose
/// column-family names are unique.
pub(crate) proof fn lemma_cf_at(t: Transaction, i: int)
    requires
        0 <= i < t.cf_states@.len(),
        forall|p: int, q: int|
            0 <= p < q < t.cf_states@.len() ==> (#[trigger] t.cf_states@[p]).name@ != (
            #[trigger] t.cf_states@[q]).name@,
    ensures
        t.cf_visible(t.cf_states@[i].name@) == Some(t.cf_states@[i].local.view_map()),
        t.cf_pending(t.cf_states@[i].name@) == Some(t.cf_states@[i].puts.view_map()),
        t.cf_deletes(t.cf_states@[i].name@) == Some(t.cf_states@[i].dels.view_map().dom()),
{
    let nm = t.cf_states@[i].name@;
    assert(exists|j: int|
        0 <= j < t.cf_states@.len() && (#[trigger] t.cf_states@[j]).name@ == nm);
    let j = choose|j: int| 0 <= j < t.cf_states@.len() && (#[trigger] t.cf_states@[j]).name@ == nm;
    if j != i {
        assert(t.cf_states@[j].name@ != t.cf_states@[i].name@);
    }
}

/// When exactly one column-family state changed, and kept its name, every
/// other name answers as before.
pub(crate) proof fn lemma_one_cf_changed(a: Transaction, b: Transaction, i: int)
    requires
        0 <= i < a.cf_states@.len(),
        b.cf_states@.len() == a.cf_states@.len(),
        forall|j: int|
            0 <= j < a.cf_states@.len() && j != i ==> (#[trigger] b.cf_states@[j])
                == a.cf_states@[j],
        b.cf_states@[i].name@ == a.cf_states@[i].name@,
        forall|p: int, q: int|
            0 <= p < q < a.cf_states@.len() ==> (#[trigger] a.cf_states@[p]).name@ != (
            #[trigger] a.cf_states@[q]).name@,
    ensures
        b.cf_names() =~= a.cf_names(),
        forall|p: int, q: int|
            0 <= p < q < b.cf_states@.len() ==> (#[trigger] b.cf_states@[p]).name@ != (
            #[trigger] b.cf_states@[q]).name@,
        forall|n: Seq<char>|
            n != a.cf_states@[i].name@ ==> #[trigger] b.cf_visible(n) == a.cf_visible(n)
                && #[trigger] b.cf_pending(n) == a.cf_pending(n) && #[trigger] b.cf_deletes(n)
                == a.cf_deletes(n),
        b.cf_visible(a.cf_states@[i].name@) == Some(b.cf_states@[i].local.view_map()),
        b.cf_pending(a.cf_states@[i].name@) == Some(b.cf_states@[i].puts.view_map()),
        b.cf_deletes(a.cf_states@[i].name@) == Some(b.cf_states@[i].dels.view_map().dom()),
{
    assert forall|j: int| 0 <= j < b.cf_states@.len() implies (#[trigger] b.cf_states@[j]).name@
        == a.cf_states@[j].name@ by {
        if j != i {
            assert(b.cf_states@[j] == a.cf_states@[j]);
        }
    }
    assert(b.cf_names() =~= a.cf_names());
    assert forall|p: int, q: int| 0 <= p < q < b.cf_states@.len() implies (
    #[trigger] b.cf_states@[p]).name@ != (#[trigger] b.cf_states@[q]).name@ by {
        assert(b.cf_states@[p].name@ == a.cf_states@[p].name@);
        assert(b.cf_states@[q].name@ == a.cf_states@[q].name@);
    }
    lemma_cf_at(b, i);
    assert forall|n: Seq<char>| n != a.cf_states@[i].name@ implies #[trigger] b.cf_visible(n)
        == a.cf_visible(n) && #[trigger] b.cf_pending(n) == a.cf_pending(n)
        && #[trigger] b.cf_deletes(n) == a.cf_deletes(n) by {
        if exists|j: int| 0 <= j < a.cf_states@.len() && (#[trigger] a.cf_states@[j]).name@ == n {
            let j = choose|j: int|
                0 <= j < a.cf_states@.len() && (#[trigger] a.cf_states@[j]).name@ == n;
            assert(j != i);
            assert(b.cf_states@[j] == a.cf_states@[j]);
            let ja = choose|q: int|
                0 <= q < a.cf_states@.len() && (#[trigger] a.cf_states@[q]).name@ == n;
            let jb = choose|q: int|
                0 <= q < b.cf_states@.len() && (#[trigger] b.cf_states@[q]).name@ == n;
            if ja != j {
                assert(a.cf_states@[ja].name@ != a.cf_states@[j].name@);
            }
            if jb != j {
                assert(b.cf_states@[jb].name@ != b.cf_states@[j].name@);
            }
        } else {
            if exists|j: int|
                0 <= j < b.cf_states@.len() && (#[trigger] b.cf_states@[j]).name@ == n {
                let j = choose|j: int|
                    0 <= j < b.cf_states@.len() && (#[trigger] b.cf_states@[j]).name@ == n;
                assert(a.cf_states@[j].name@ == n);
            }
        }
    }
}

/// What a successful commit does to the store: the default keyspace and each
/// column family take the transaction's writes, the sequence number advances
/// by one, the catalogue and index list stand, and the log grows by records
/// carrying the new sequence number.
pub open spec fn commit_applied(ds0: Datastore, t: Transaction, ds1: Datastore) -> bool {
    &&& ds1.data() =~= apply_writes(ds0.data(), t.pending(), t.deletes())
    &&& ds1.seq_no() == ds0.seq_no() + 1
    &&& ds1.cf_names() =~= ds0.cf_names()
    &&& ds1.index_list() =~= ds0.index_list()
    &&& forall|n: Seq<char>| #[trigger] ds1.cf_data(n) == cf_after(ds0, t, n)
    &&& ds1.log_view().len() >= ds0.log_view().len()
    &&& forall|i: int|
        0 <= i < ds0.log_view().len() ==> #[trigger] ds1.log_view()[i] == ds0.log_view()[i]
    &&& forall|i: int|
        ds0.log_view().len() <= i < ds1.log_view().len() ==> (#[trigger] ds1.log_view()[i]).2
            == ds0.seq_no() + 1
}

/// The column family named `n` after a transaction's writes are applied.
pub open spec fn cf_after(ds: Datastore, t: Transaction, n: Seq<char>) -> Option<
    Map<Seq<u8>, Seq<u8>>,
> {
    match ds.cf_data(n) {
        Some(m) => match t.cf_pending(n) {
            Some(p) => Some(apply_writes(m, p, t.cf_deletes(n).unwrap())),
            None => Some(m),
        },
        None => None,
    }
}

/// Every column family the transaction writes still exists in the store.
pub open spec fn touched_present(ds: Datastore, t: Transaction) -> bool {
    forall|n: Seq<char>|
        (#[trigger] t.cf_pending(n) is Some && (t.cf_pending(n).unwrap()
            != Map::<Seq<u8>, Seq<u8>>::empty() || t.cf_deletes(n).unwrap() != Set::<
            Seq<u8>,
        >::empty())) ==> ds.cf_data(n) is Some
}

} // verus!
