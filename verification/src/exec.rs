//! The executor: driving plans against the transactional store.
//!
//! The executor owns a datastore. Reads run in a fresh read-only transaction
//! per call and paginate collection scans inside it, so one call sees one
//! snapshot; the cursor handed to the next page is the last raw key of the
//! previous one. Writes run in a fresh read-write transaction that commits at
//! the end.

use vstd::prelude::*;
use vstd::string::StringSliceAdditionalSpecFns;

use crate::ast::ScalarValue;
use crate::doc::{enc_doc, sp_decode, Document, SpecValue, Value};
use crate::error::Error;
use crate::keys::{
    bytes_contain_pad, collection_prefix, contains_pad, record_key, spec_collection_prefix,
    spec_record_key,
};
use crate::laws::{
    beyond, lemma_beyond_shrinks, lemma_page_extend, lemma_page_short_is_full, lemma_page_tighten,
};
use crate::order::has_prefix;
use crate::scan::{collection_page_ok, in_window, opt_bytes, page_view, scan_ok};
use crate::store::Datastore;
use crate::txn::{lemma_visible_finite, Transaction};

verus! {

/// The bytes of a text, in its canonical encoding.
pub open spec fn text_bytes(s: Seq<char>) -> Seq<u8> {
    vstd::utf8::encode_utf8(s)
}


/// A stored row value the reader cannot take back: it fails the canonical
/// decoding, or exceeds what a buffer can hold.
pub open spec fn row_undecodable(row_val: Seq<u8>) -> bool {
    sp_decode(row_val) is None || row_val.len() >= usize::MAX - 16
}

/// The record key of a row in a collection of the default schema.
pub open spec fn bulk_key(collection: Seq<char>, id: Seq<u8>) -> Seq<u8> {
    spec_record_key(text_bytes("default"@), text_bytes(collection), id)
}

/// The canonical body of a row carrying only its object id.
pub open spec fn id_only_body(id: Seq<u8>) -> Seq<u8> {
    enc_doc(seq![(text_bytes("_id"@), SpecValue::Id(id))])
}

/// Whether `k` is the record key of one of the given ids.
pub open spec fn key_of_some_id(ids: Seq<Seq<u8>>, collection: Seq<char>, k: Seq<u8>) -> bool {
    exists|q: int| 0 <= q < ids.len() && k == bulk_key(collection, #[trigger] ids[q])
}

/// What a successful bulk insert did: `ids` are the fresh, pairwise-distinct
/// twelve-byte object ids of the id-only rows that joined the collection, and
/// the new keyspace is the old one with exactly those rows added.
pub open spec fn bulk_inserted(
    old_data: Map<Seq<u8>, Seq<u8>>,
    new_data: Map<Seq<u8>, Seq<u8>>,
    collection: Seq<char>,
    ids: Seq<Seq<u8>>,
) -> bool {
    &&& forall|i: int| 0 <= i < ids.len() ==> (#[trigger] ids[i]).len() == 12
    &&& forall|i: int, j: int| 0 <= i < j < ids.len() ==> ids[i] != ids[j]
    &&& forall|i: int|
        0 <= i < ids.len() ==> has_prefix(
            bulk_key(collection, #[trigger] ids[i]),
            spec_collection_prefix(text_bytes("default"@), text_bytes(collection)),
        )
    &&& forall|i: int|
        0 <= i < ids.len() ==> !old_data.contains_key(bulk_key(collection, #[trigger] ids[i]))
    &&& forall|i: int|
        0 <= i < ids.len() ==> new_data.contains_key(bulk_key(collection, #[trigger] ids[i]))
            && new_data[bulk_key(collection, ids[i])] == id_only_body(ids[i])
    &&& forall|k: Seq<u8>|
        #[trigger] old_data.contains_key(k) ==> new_data.contains_key(k) && new_data[k]
            == old_data[k]
    &&& forall|k: Seq<u8>|
        #[trigger] new_data.contains_key(k) ==> old_data.contains_key(k) || key_of_some_id(
            ids,
            collection,
            k,
        )
}

/// Two record keys of one collection agree only on one id: the id is the
/// key's suffix.
proof fn lemma_bulk_key_injective(collection: Seq<char>, a: Seq<u8>, b: Seq<u8>)
    requires
        bulk_key(collection, a) == bulk_key(collection, b),
    ensures
        a == b,
{
    crate::keys::lemma_record_key_suffix(text_bytes("default"@), text_bytes(collection), a);
    crate::keys::lemma_record_key_suffix(text_bytes("default"@), text_bytes(collection), b);
}

/// The executor.
pub struct Executor {
    pub(crate) ds: Datastore,
}

/// An execution-level plan: which schema and collection to scan.
pub struct QueryPlan {
    pub collection: String,
    pub schema: String,
}

/// Parameters handed along with a query.
pub struct ExecutionContext {
    pub parameters: Vec<(String, ScalarValue)>,
}

/// What a query returns: the decoded documents.
pub struct QueryResult {
    pub records: Vec<Document>,
}

/// One raw row of the store.
pub struct Record {
    pub key: Vec<u8>,
    pub body: Vec<u8>,
}

/// Relies on `bson::oid::ObjectId::new`: a twelve-byte identifier drawn from
/// the clock and a process-local counter. Nothing but its length is assumed:
/// distinctness is enforced by the insert that uses it, which fails on a key
/// that already exists.
#[verifier::external_body]
fn new_object_id() -> (r: Vec<u8>)
    ensures
        r@.len() == 12,
{
    bson::oid::ObjectId::new().bytes().to_vec()
}

/// Gather the whole collection: page through the transaction's view with the
/// given page width, resuming after the last raw key of each page, until a
/// page comes back short.
fn scan_all(txn: &Transaction, prefix: &Vec<u8>, page_size: usize) -> (r: Vec<(Vec<u8>, Vec<u8>)>)
    requires
        txn.wf(),
        !txn.completed(),
        page_size > 0,
    ensures
        scan_ok(
            txn.visible(),
            page_view(r@),
            None,
            Some(prefix@),
            Some(prefix@),
            None,
            None,
        ),
{
    let ghost m = txn.visible();
    proof {
        lemma_visible_finite(*txn);
    }
    let mut rows: Vec<(Vec<u8>, Vec<u8>)> = Vec::new();
    let mut after: Option<Vec<u8>> = None;
    loop
        invariant_except_break
            match after {
                Some(a) => rows@.len() > 0 && a@ == page_view(rows@).last().0,
                None => rows@.len() == 0,
            },
        invariant
            txn.wf(),
            !txn.completed(),
            page_size > 0,
            m == txn.visible(),
            m.dom().finite(),
            scan_ok(
                m,
                page_view(rows@),
                None,
                Some(prefix@),
                Some(prefix@),
                None,
                Some(rows@.len() as int),
            ),
        ensures
            scan_ok(m, page_view(rows@), None, Some(prefix@), Some(prefix@), None, None),
        decreases beyond(m, prefix@, opt_bytes(after)).len(),
    {
        let pfx = crate::sorted::clone_bytes(prefix);
        let cursor: Option<Vec<u8>> = match &after {
            Some(a) => Some(crate::sorted::clone_bytes(a)),
            None => None,
        };
        let ghost oldafter = opt_bytes(after);
        let ghost oldrows = page_view(rows@);
        let page = match txn.scan_collection(pfx, Some(page_size), cursor) {
            Ok(p) => p,
            Err(_) => {
                proof {
                    assert(false);
                }
                Vec::new()
            },
        };
        let ghost pv = page_view(page@);
        proof {
            match after {
                Some(a) => {
                    // The cursor is the last emitted row, which carries the
                    // prefix, so it sorts at or above it.
                    assert(in_window(a@, None, Some(prefix@), Some(prefix@), None));
                    crate::order::lemma_prefix_le(a@, prefix@);
                    assert(collection_page_ok(m, pv, prefix@, Some(a@), Some(page_size as int)));
                    assert(scan_ok(m, pv, Some(a@), None, Some(prefix@), None, Some(
                        page_size as int,
                    )));
                    lemma_page_extend(m, oldrows, pv, prefix@, page_size as int);
                },
                None => {
                    assert(scan_ok(m, pv, None, Some(prefix@), Some(prefix@), None, Some(
                        page_size as int,
                    )));
                },
            }
        }
        let short = page.len() < page_size;
        let mut page_mut = page;
        rows.append(&mut page_mut);
        proof {
            assert(page_view(rows@) =~= oldrows + pv);
            if oldafter is None {
                lemma_page_tighten(
                    m,
                    page_view(rows@),
                    None,
                    Some(prefix@),
                    Some(prefix@),
                    None,
                    page_size as int,
                );
            } else {
                lemma_page_tighten(
                    m,
                    page_view(rows@),
                    None,
                    Some(prefix@),
                    Some(prefix@),
                    None,
                    (oldrows.len() + pv.len()) as int,
                );
            }
        }
        if short {
            proof {
                if oldafter is None {
                    lemma_page_short_is_full(m, page_view(rows@), prefix@, page_size as int);
                }
            }
            break;
        }
        // The page was full, so it is not empty; resume after its last key.
        let last = crate::sorted::clone_bytes(&rows[rows.len() - 1].0);
        proof {
            assert(pv.len() > 0);
            assert(page_view(rows@).last() == pv.last());
            lemma_beyond_shrinks(m, prefix@, oldafter, pv);
        }
        after = Some(last);
        proof {
            assert(opt_bytes(after).unwrap() == page_view(rows@).last().0);
        }
    }
    rows
}

impl Executor {
    /// The datastore this executor drives.
    pub closed spec fn store(&self) -> Datastore {
        self.ds
    }

    /// Well-formed: the store is.
    pub open spec fn wf(&self) -> bool {
        self.store().wf()
    }

    /// Take charge of a datastore.
    pub fn new(datastore: Datastore) -> (r: Executor)
        ensures
            r.store() == datastore,
    {
        Executor { ds: datastore }
    }

    /// Insert one record with the given object id into a collection of the
    /// default schema: a document carrying only `_id`, under its record key.
    /// Succeeds exactly when the key is fresh and the commit sequence has
    /// room.
    pub fn test_insert_with_id(&mut self, collection: &str, id: Vec<u8>) -> (r: Result<(), Error>)
        requires
            old(self).wf(),
            id@.len() == 12,
        ensures
            final(self).wf(),
            ({
                let key = spec_record_key(
                    text_bytes("default"@),
                    text_bytes(collection@),
                    id@,
                );
                let body = enc_doc(
                    seq![
                        (
                            text_bytes("_id"@),
                            SpecValue::Id(id@),
                        ),
                    ],
                );
                if old(self).store().data().contains_key(key) {
                    r == Err::<(), Error>(Error::TxKeyAlreadyExists) && final(self).store()
                        == old(self).store()
                } else if old(self).store().seq_no() == u64::MAX {
                    (r matches Err(e) && e is Tx) && final(self).store().data() == old(
                        self,
                    ).store().data()
                } else {
                    r == Ok::<(), Error>(()) && final(self).store().data() =~= old(
                        self,
                    ).store().data().insert(key, body)
                }
            }),
    {
        let schema = "default";
        let ghost idv = id@;
        let key = record_key(&schema.as_bytes_vec(), &collection.as_bytes_vec(), &id);
        let mut d = Document::new();
        d.insert(id_name(), Value::Id(id));
        let body = d.encode();
        proof {
            assert(view_doc_of(d) =~= seq![(text_bytes("_id"@), SpecValue::Id(idv))]);
        }
        self.write_one(key, body)
    }

    /// Insert one record with a fresh object id. What holds of every outcome:
    /// the store stays well-formed; on success exactly one record joined the
    /// collection.
    pub fn test_insert(&mut self, collection: &str) -> (r: Result<(), Error>)
        requires
            old(self).wf(),
        ensures
            final(self).wf(),
            r is Err ==> final(self).store().data() == old(self).store().data(),
            r is Ok ==> exists|id: Seq<u8>|
                id.len() == 12 && final(self).store().data() =~= old(
                    self,
                ).store().data().insert(
                    spec_record_key(text_bytes("default"@), text_bytes(collection@), id),
                    enc_doc(seq![(text_bytes("_id"@), SpecValue::Id(id))]),
                ),
    {
        let id = new_object_id();
        let ghost idv = id@;
        let r = self.test_insert_with_id(collection, id);
        proof {
            if r is Ok {
                assert(idv.len() == 12 && self.store().data() =~= old(self).store().data().insert(
                    spec_record_key(text_bytes("default"@), text_bytes(collection@), idv),
                    enc_doc(seq![(text_bytes("_id"@), SpecValue::Id(idv))]),
                ));
            }
        }
        r
    }

    /// Put one key/body pair into the default keyspace in a fresh read-write
    /// transaction and commit it.
    fn write_one(&mut self, key: Vec<u8>, body: Vec<u8>) -> (r: Result<(), Error>)
        requires
            old(self).wf(),
        ensures
            final(self).wf(),
            if old(self).store().data().contains_key(key@) {
                r == Err::<(), Error>(Error::TxKeyAlreadyExists) && final(self).store() == old(
                    self,
                ).store()
            } else if old(self).store().seq_no() == u64::MAX {
                (r matches Err(e) && e is Tx) && final(self).store().data() == old(
                    self,
                ).store().data()
            } else {
                r == Ok::<(), Error>(()) && final(self).store().data() =~= old(
                    self,
                ).store().data().insert(key@, body@)
            },
    {
        let ghost ds0 = self.ds;
        let mut txn = match self.ds.transaction(true) {
            Ok(t) => t,
            Err(_) => {
                proof {
                    assert(false);
                }
                return Err(Error::TxFailure);
            },
        };
        let ghost t0 = txn;
        let ghost keyv = key@;
        let ghost bodyv = body@;
        match txn.insert(key, body) {
            Ok(_) => {},
            Err(e) => {
                return Err(e);
            },
        }
        let cr = txn.commit(&mut self.ds);
        proof {
            assert forall|n: Seq<char>| #[trigger] t0.cf_pending(n) is Some implies t0.cf_pending(
                n,
            ) == Some(Map::<Seq<u8>, Seq<u8>>::empty()) && t0.cf_deletes(n) == Some(Set::<
                Seq<u8>,
            >::empty()) by {
                assert(t0.cf_visible(n) is Some);
            }
            assert forall|n: Seq<char>| #[trigger] txn.cf_pending(n) is Some implies txn.cf_pending(
                n,
            ) == Some(Map::<Seq<u8>, Seq<u8>>::empty()) && txn.cf_deletes(n) == Some(Set::<
                Seq<u8>,
            >::empty()) by {
                assert(txn.cf_pending(n) == t0.cf_pending(n));
                assert(txn.cf_deletes(n) == t0.cf_deletes(n));
            }
            lemma_fresh_txn_commits(txn, ds0);
            if ds0.seq_no() < u64::MAX {
                assert(cr is Ok);
                assert(self.ds.data() =~= ds0.data().insert(keyv, bodyv)) by {
                    assert(crate::store::apply_writes(
                        ds0.data(),
                        map![keyv => bodyv],
                        Set::empty(),
                    ) =~= ds0.data().insert(keyv, bodyv));
                    assert(txn.pending() =~= map![keyv => bodyv]) by {
                        assert(txn.pending() =~= Map::<Seq<u8>, Seq<u8>>::empty().insert(
                            keyv,
                            bodyv,
                        ));
                        assert(Map::<Seq<u8>, Seq<u8>>::empty().insert(keyv, bodyv)
                            =~= map![keyv => bodyv]);
                    }
                    assert(txn.deletes() =~= Set::<Seq<u8>>::empty());
                }
            }
        }
        match cr {
            Ok(_) => Ok(()),
            Err(e) => Err(e),
        }
    }

    /// Insert several records with fresh object ids into a collection, in one
    /// transaction that commits at the end. On success, exactly `count`
    /// id-only rows with fresh, pairwise-distinct ids joined the collection;
    /// on any failure, nothing is visible.
    pub fn test_bulk_insert(&mut self, collection: &str, count: u32) -> (r: Result<(), Error>)
        requires
            old(self).wf(),
        ensures
            final(self).wf(),
            r is Err ==> final(self).store().data() == old(self).store().data(),
            r is Ok ==> exists|ids: Seq<Seq<u8>>|
                ids.len() == count && #[trigger] bulk_inserted(
                    old(self).store().data(),
                    final(self).store().data(),
                    collection@,
                    ids,
                ),
    {
        let ghost ds0 = self.ds;
        let mut txn = match self.ds.transaction(true) {
            Ok(t) => t,
            Err(_) => {
                proof {
                    assert(false);
                }
                return Err(Error::TxFailure);
            },
        };
        proof {
            assert forall|n: Seq<char>| #[trigger] txn.cf_pending(n) is Some implies txn.cf_pending(
                n,
            ) == Some(Map::<Seq<u8>, Seq<u8>>::empty()) && txn.cf_deletes(n) == Some(Set::<
                Seq<u8>,
            >::empty()) by {
                assert(txn.cf_visible(n) is Some);
            }
        }
        let schema = "default";
        let ghost mut ids: Seq<Seq<u8>> = Seq::empty();
        let mut i: u32 = 0;
        while i < count
            invariant
                txn.wf(),
                self.ds == ds0,
                ds0.wf(),
                !txn.completed(),
                txn.is_rw(),
                txn.begin() == ds0.seq_no(),
                schema@ == "default"@,
                i <= count,
                ids.len() == i as int,
                forall|q: int| 0 <= q < ids.len() ==> (#[trigger] ids[q]).len() == 12,
                forall|p: int, q: int| 0 <= p < q < ids.len() ==> ids[p] != ids[q],
                forall|q: int|
                    0 <= q < ids.len() ==> !ds0.data().contains_key(
                        bulk_key(collection@, #[trigger] ids[q]),
                    ),
                forall|k: Seq<u8>|
                    #[trigger] txn.pending().contains_key(k) == key_of_some_id(
                        ids,
                        collection@,
                        k,
                    ),
                forall|q: int|
                    0 <= q < ids.len() ==> txn.pending().contains_key(
                        bulk_key(collection@, #[trigger] ids[q]),
                    ) && txn.pending()[bulk_key(collection@, ids[q])] == id_only_body(ids[q]),
                forall|k: Seq<u8>|
                    #[trigger] txn.visible().contains_key(k) == (ds0.data().contains_key(k)
                        || txn.pending().contains_key(k)),
                txn.deletes() =~= Set::<Seq<u8>>::empty(),
                forall|n: Seq<char>| #[trigger] txn.cf_pending(n) is Some ==> txn.cf_pending(n)
                    == Some(Map::<Seq<u8>, Seq<u8>>::empty()) && txn.cf_deletes(n) == Some(Set::<
                    Seq<u8>,
                >::empty()),
            decreases count - i,
        {
            let id = new_object_id();
            let ghost idv = id@;
            let key = record_key(&schema.as_bytes_vec(), &collection.as_bytes_vec(), &id);
            let mut d = Document::new();
            d.insert(id_name(), Value::Id(id));
            let body = d.encode();
            let ghost keyv = key@;
            let ghost bodyv = body@;
            proof {
                assert(keyv == bulk_key(collection@, idv));
                assert(view_doc_of(d) =~= seq![(text_bytes("_id"@), SpecValue::Id(idv))]);
                assert(bodyv == id_only_body(idv));
            }
            let ghost before = txn;
            match txn.insert(key, body) {
                Ok(_) => {},
                Err(e) => {
                    return Err(e);
                },
            }
            proof {
                // The key was absent from the transaction's view, so the id
                // is fresh against the store and against the ids drawn so
                // far.
                assert(!before.visible().contains_key(keyv));
                assert(!ds0.data().contains_key(keyv));
                assert(!before.pending().contains_key(keyv));
                let prev = ids;
                ids = ids.push(idv);
                assert forall|q: int| 0 <= q < prev.len() implies prev[q] != idv by {
                    if prev[q] == idv {
                        assert(before.pending().contains_key(bulk_key(collection@, prev[q])));
                    }
                }
                assert forall|p: int, q: int| 0 <= p < q < ids.len() implies ids[p] != ids[q] by {
                    if q < prev.len() {
                        assert(prev[p] != prev[q]);
                    } else {
                        assert(ids[p] == prev[p] && ids[q] == idv);
                    }
                }
                assert forall|k: Seq<u8>| #[trigger] txn.pending().contains_key(k)
                    == key_of_some_id(ids, collection@, k) by {
                    if txn.pending().contains_key(k) {
                        if k == keyv {
                            assert(ids[prev.len() as int] == idv);
                            assert(key_of_some_id(ids, collection@, k));
                        } else {
                            assert(before.pending().contains_key(k));
                            let q = choose|q: int|
                                0 <= q < prev.len() && k == bulk_key(
                                    collection@,
                                    #[trigger] prev[q],
                                );
                            assert(ids[q] == prev[q]);
                            assert(key_of_some_id(ids, collection@, k));
                        }
                    } else {
                        if key_of_some_id(ids, collection@, k) {
                            let q = choose|q: int|
                                0 <= q < ids.len() && k == bulk_key(collection@, #[trigger] ids[q]);
                            if q < prev.len() {
                                assert(before.pending().contains_key(k));
                            } else {
                                assert(k == keyv);
                            }
                            assert(false);
                        }
                    }
                }
                assert forall|q: int| 0 <= q < ids.len() implies txn.pending().contains_key(
                    bulk_key(collection@, #[trigger] ids[q]),
                ) && txn.pending()[bulk_key(collection@, ids[q])] == id_only_body(ids[q]) by {
                    if q < prev.len() {
                        assert(ids[q] == prev[q]);
                        assert(before.pending().contains_key(bulk_key(collection@, prev[q])));
                        assert(bulk_key(collection@, prev[q]) != keyv) by {
                            if bulk_key(collection@, prev[q]) == keyv {
                                lemma_bulk_key_injective(collection@, prev[q], idv);
                            }
                        }
                    } else {
                        assert(ids[q] == idv);
                    }
                }
                assert(txn.deletes() =~= Set::<Seq<u8>>::empty());
            }
            i = i + 1;
        }
        let cr = txn.commit(&mut self.ds);
        proof {
            lemma_fresh_txn_commits(txn, ds0);
            if ds0.seq_no() < u64::MAX {
                assert(cr is Ok);
                assert(bulk_inserted(ds0.data(), self.ds.data(), collection@, ids)) by {
                    assert forall|q: int| 0 <= q < ids.len() implies has_prefix(
                        bulk_key(collection@, #[trigger] ids[q]),
                        spec_collection_prefix(text_bytes("default"@), text_bytes(collection@)),
                    ) by {
                        crate::keys::lemma_record_key_has_prefix(
                            text_bytes("default"@),
                            text_bytes(collection@),
                            ids[q],
                        );
                    }
                    assert forall|q: int| 0 <= q < ids.len() implies self.ds.data().contains_key(
                        bulk_key(collection@, #[trigger] ids[q]),
                    ) && self.ds.data()[bulk_key(collection@, ids[q])] == id_only_body(
                        ids[q],
                    ) by {
                        assert(txn.pending().contains_key(bulk_key(collection@, ids[q])));
                    }
                    assert forall|k: Seq<u8>| #[trigger] ds0.data().contains_key(k) implies
                        self.ds.data().contains_key(k) && self.ds.data()[k] == ds0.data()[k] by {
                        if txn.pending().contains_key(k) {
                            assert(key_of_some_id(ids, collection@, k));
                            let q = choose|q: int|
                                0 <= q < ids.len() && k == bulk_key(collection@, #[trigger] ids[q]);
                            assert(!ds0.data().contains_key(k));
                        }
                    }
                    assert forall|k: Seq<u8>| #[trigger] self.ds.data().contains_key(k) implies
                        ds0.data().contains_key(k) || key_of_some_id(ids, collection@, k) by {
                        if txn.pending().contains_key(k) {
                            assert(key_of_some_id(ids, collection@, k));
                        }
                    }
                }
                assert(ids.len() == count);
                assert(bulk_inserted(
                    old(self).store().data(),
                    self.store().data(),
                    collection@,
                    ids,
                ));
            }
        }
        match cr {
            Ok(_) => Ok(()),
            Err(e) => Err(e),
        }
    }

    /// Register a collection in the catalogue: a row under the reserved
    /// `information_schema :: table` prefix carrying the collection's name.
    /// A name containing the pad `::` is rejected with a `Value` error.
    pub fn create_collection(&mut self, collection: &str) -> (r: Result<(), Error>)
        requires
            old(self).wf(),
        ensures
            final(self).wf(),
            contains_pad(text_bytes(collection@)) ==> ((r matches Err(e) && e is Value)
                && final(self).store() == old(self).store()),
            !contains_pad(text_bytes(collection@)) ==> !(r matches Err(e) && e is Value),
            r is Err ==> final(self).store().data() == old(self).store().data(),
            !contains_pad(text_bytes(collection@)) && r is Ok ==> exists|id: Seq<u8>|
                id.len() == 12 && final(self).store().data() =~= old(
                    self,
                ).store().data().insert(
                    spec_record_key(
                        text_bytes("information_schema"@),
                        text_bytes("table"@),
                        id,
                    ),
                    enc_doc(
                        seq![
                            (text_bytes("_id"@), SpecValue::Id(id)),
                            (text_bytes("schema"@), SpecValue::I64(1)),
                            (
                                text_bytes("collection"@),
                                SpecValue::Str(text_bytes(collection@)),
                            ),
                        ],
                    ),
                ),
    {
        let name_bytes = collection.as_bytes_vec();
        if bytes_contain_pad(&name_bytes) {
            return Err(
                Error::Value(
                    String::from_str("a collection name must not contain the pad `::`"),
                ),
            );
        }
        let id = new_object_id();
        let ghost idv = id@;
        let idc = crate::sorted::clone_bytes(&id);
        let schema = "information_schema";
        let table = "table";
        let key = record_key(&schema.as_bytes_vec(), &table.as_bytes_vec(), &id);
        let mut d = Document::new();
        d.insert(id_name(), Value::Id(idc));
        d.insert(field_name_schema(), Value::I64(1));
        d.insert(field_name_collection(), Value::Str(name_bytes));
        let body = d.encode();
        proof {
            assert(view_doc_of(d) =~= seq![
                (text_bytes("_id"@), SpecValue::Id(idv)),
                (text_bytes("schema"@), SpecValue::I64(1)),
                (text_bytes("collection"@), SpecValue::Str(text_bytes(collection@))),
            ]);
        }
        let r = self.write_one(key, body);
        proof {
            if r is Ok {
                assert(idv.len() == 12 && self.store().data() =~= old(
                    self,
                ).store().data().insert(
                    spec_record_key(
                        text_bytes("information_schema"@),
                        text_bytes("table"@),
                        idv,
                    ),
                    enc_doc(
                        seq![
                            (text_bytes("_id"@), SpecValue::Id(idv)),
                            (text_bytes("schema"@), SpecValue::I64(1)),
                            (
                                text_bytes("collection"@),
                                SpecValue::Str(text_bytes(collection@)),
                            ),
                        ],
                    ),
                ));
            }
        }
        r
    }

    /// Run a select: scan the plan's collection under one snapshot, page by
    /// page, and decode every record. A record that does not decode surfaces
    /// as a `Value` error.
    pub fn execute_select(&self, plan: QueryPlan) -> (r: Result<QueryResult, Error>)
        requires
            self.wf(),
        ensures
            match r {
                Ok(res) => exists|page: Seq<(Seq<u8>, Seq<u8>)>|
                    {
                        &&& #[trigger] scan_ok(
                            self.store().data(),
                            page,
                            None,
                            Some(
                                spec_collection_prefix(
                                    text_bytes(plan.schema@),
                                    text_bytes(plan.collection@),
                                ),
                            ),
                            Some(
                                spec_collection_prefix(
                                    text_bytes(plan.schema@),
                                    text_bytes(plan.collection@),
                                ),
                            ),
                            None,
                            None,
                        )
                        &&& res.records@.len() == page.len()
                        &&& forall|i: int|
                            0 <= i < page.len() ==> sp_decode((#[trigger] page[i]).1) == Some(
                                view_doc_of(res.records@[i]),
                            )
                    },
                Err(e) => e is Value && exists|page: Seq<(Seq<u8>, Seq<u8>)>|
                    {
                        &&& #[trigger] scan_ok(
                            self.store().data(),
                            page,
                            None,
                            Some(
                                spec_collection_prefix(
                                    text_bytes(plan.schema@),
                                    text_bytes(plan.collection@),
                                ),
                            ),
                            Some(
                                spec_collection_prefix(
                                    text_bytes(plan.schema@),
                                    text_bytes(plan.collection@),
                                ),
                            ),
                            None,
                            None,
                        )
                        &&& exists|i: int|
                            0 <= i < page.len() && row_undecodable((#[trigger] page[i]).1)
                    },
            },
    {
        let prefix = collection_prefix(
            &plan.schema.as_str().as_bytes_vec(),
            &plan.collection.as_str().as_bytes_vec(),
        );
        let rows = self.collect_rows(&prefix)?;
        proof {
            let page = page_view(rows@);
            assert(scan_ok(
                self.store().data(),
                page,
                None,
                Some(
                    spec_collection_prefix(
                        text_bytes(plan.schema@),
                        text_bytes(plan.collection@),
                    ),
                ),
                Some(
                    spec_collection_prefix(
                        text_bytes(plan.schema@),
                        text_bytes(plan.collection@),
                    ),
                ),
                None,
                None,
            ));
        }
        let docs = match decode_rows(&rows) {
            Ok(docs) => docs,
            Err(e) => {
                return Err(e);
            },
        };
        Ok(QueryResult { records: docs })
    }

    /// Run a collection scan: as a select, but from a plan node.
    pub fn execute_collection_scan(&self, plan: crate::plan::CollectionScan) -> (r: Result<
        Vec<Document>,
        Error,
    >)
        requires
            self.wf(),
        ensures
            match r {
                Ok(docs) => exists|page: Seq<(Seq<u8>, Seq<u8>)>|
                    {
                        &&& #[trigger] scan_ok(
                            self.store().data(),
                            page,
                            None,
                            Some(
                                spec_collection_prefix(
                                    text_bytes(plan.schema@),
                                    text_bytes(plan.collection@),
                                ),
                            ),
                            Some(
                                spec_collection_prefix(
                                    text_bytes(plan.schema@),
                                    text_bytes(plan.collection@),
                                ),
                            ),
                            None,
                            None,
                        )
                        &&& docs@.len() == page.len()
                        &&& forall|i: int|
                            0 <= i < page.len() ==> sp_decode((#[trigger] page[i]).1) == Some(
                                view_doc_of(docs@[i]),
                            )
                    },
                Err(e) => e is Value && exists|page: Seq<(Seq<u8>, Seq<u8>)>|
                    {
                        &&& #[trigger] scan_ok(
                            self.store().data(),
                            page,
                            None,
                            Some(
                                spec_collection_prefix(
                                    text_bytes(plan.schema@),
                                    text_bytes(plan.collection@),
                                ),
                            ),
                            Some(
                                spec_collection_prefix(
                                    text_bytes(plan.schema@),
                                    text_bytes(plan.collection@),
                                ),
                            ),
                            None,
                            None,
                        )
                        &&& exists|i: int|
                            0 <= i < page.len() && row_undecodable((#[trigger] page[i]).1)
                    },
            },
    {
        let prefix = collection_prefix(
            &plan.schema.as_str().as_bytes_vec(),
            &plan.collection.as_str().as_bytes_vec(),
        );
        let rows = self.collect_rows(&prefix)?;
        proof {
            let page = page_view(rows@);
            assert(scan_ok(
                self.store().data(),
                page,
                None,
                Some(
                    spec_collection_prefix(
                        text_bytes(plan.schema@),
                        text_bytes(plan.collection@),
                    ),
                ),
                Some(
                    spec_collection_prefix(
                        text_bytes(plan.schema@),
                        text_bytes(plan.collection@),
                    ),
                ),
                None,
                None,
            ));
        }
        let docs = match decode_rows(&rows) {
            Ok(docs) => docs,
            Err(e) => {
                return Err(e);
            },
        };
        Ok(docs)
    }

    /// Count a collection's records under one snapshot.
    pub fn execute_count(&self, plan: crate::plan::CollectionScan) -> (r: Result<u64, Error>)
        requires
            self.wf(),
        ensures
            match r {
                Ok(c) => exists|page: Seq<(Seq<u8>, Seq<u8>)>|
                    {
                        &&& #[trigger] scan_ok(
                            self.store().data(),
                            page,
                            None,
                            Some(
                                spec_collection_prefix(
                                    text_bytes(plan.schema@),
                                    text_bytes(plan.collection@),
                                ),
                            ),
                            Some(
                                spec_collection_prefix(
                                    text_bytes(plan.schema@),
                                    text_bytes(plan.collection@),
                                ),
                            ),
                            None,
                            None,
                        )
                        &&& c == page.len()
                    },
                Err(_) => false,
            },
    {
        let prefix = collection_prefix(
            &plan.schema.as_str().as_bytes_vec(),
            &plan.collection.as_str().as_bytes_vec(),
        );
        let rows = self.collect_rows(&prefix)?;
        proof {
            let page = page_view(rows@);
            assert(scan_ok(
                self.store().data(),
                page,
                None,
                Some(
                    spec_collection_prefix(
                        text_bytes(plan.schema@),
                        text_bytes(plan.collection@),
                    ),
                ),
                Some(
                    spec_collection_prefix(
                        text_bytes(plan.schema@),
                        text_bytes(plan.collection@),
                    ),
                ),
                None,
                None,
            ));
        }
        Ok(rows.len() as u64)
    }

    /// Gather the raw rows of one collection prefix under a fresh snapshot.
    fn collect_rows(&self, prefix: &Vec<u8>) -> (r: Result<Vec<(Vec<u8>, Vec<u8>)>, Error>)
        requires
            self.wf(),
        ensures
            match r {
                Ok(rows) => scan_ok(
                    self.store().data(),
                    page_view(rows@),
                    None,
                    Some(prefix@),
                    Some(prefix@),
                    None,
                    None,
                ),
                Err(_) => false,
            },
    {
        let txn = match self.ds.transaction(false) {
            Ok(t) => t,
            Err(_) => {
                proof {
                    assert(false);
                }
                return Err(Error::TxFailure);
            },
        };
        Ok(scan_all(&txn, prefix, 10000))
    }
}

/// Decode every row body into a document; surface a `Value` error for one
/// that does not decode.
fn decode_rows(rows: &Vec<(Vec<u8>, Vec<u8>)>) -> (r: Result<Vec<Document>, Error>)
    ensures
        match r {
            Ok(docs) => docs@.len() == rows@.len() && forall|i: int|
                0 <= i < rows@.len() ==> sp_decode((#[trigger] page_view(rows@)[i]).1) == Some(
                    view_doc_of(docs@[i]),
                ),
            Err(e) => e is Value && exists|i: int|
                0 <= i < rows@.len() && row_undecodable((#[trigger] page_view(rows@)[i]).1),
        },
{
    let n = rows.len();
    let mut docs: Vec<Document> = Vec::new();
    let mut i: usize = 0;
    while i < n
        invariant
            0 <= i <= n,
            n == rows@.len(),
            docs@.len() == i,
            forall|j: int|
                0 <= j < i ==> sp_decode((#[trigger] page_view(rows@)[j]).1) == Some(
                    view_doc_of(docs@[j]),
                ),
        decreases n - i,
    {
        if rows[i].1.len() >= usize::MAX - 16 {
            proof {
                assert(page_view(rows@)[i as int].1 == rows@[i as int].1@);
                assert(row_undecodable(page_view(rows@)[i as int].1));
            }
            return Err(Error::Value(String::from_str("record too large to decode")));
        }
        match Document::decode(&rows[i].1) {
            Some(d) => {
                docs.push(d);
            },
            None => {
                proof {
                    assert(page_view(rows@)[i as int].1 == rows@[i as int].1@);
                    assert(sp_decode(rows@[i as int].1@) is None);
                    assert(row_undecodable(page_view(rows@)[i as int].1));
                }
                return Err(Error::Value(String::from_str("a record failed to decode")));
            },
        }
        proof {
            assert(page_view(rows@)[i as int].1 == rows@[i as int].1@);
        }
        i = i + 1;
    }
    Ok(docs)
}

/// The view of a document, under its exec alias.
pub open spec fn view_doc_of(d: Document) -> Seq<(Seq<u8>, SpecValue)> {
    crate::doc::view_doc(d)
}

/// The reserved `_id` field name.
fn id_name() -> (r: Vec<u8>)
    ensures
        r@ == text_bytes("_id"@),
{
    "_id".as_bytes_vec()
}

/// The catalogue field naming the schema.
fn field_name_schema() -> (r: Vec<u8>)
    ensures
        r@ == text_bytes("schema"@),
{
    "schema".as_bytes_vec()
}

/// The catalogue field naming the collection.
fn field_name_collection() -> (r: Vec<u8>)
    ensures
        r@ == text_bytes("collection"@),
{
    "collection".as_bytes_vec()
}

/// A transaction begun at the store's current sequence number, touching no
/// column family, cannot conflict and commits whenever the sequence has room.
proof fn lemma_fresh_txn_commits(t: Transaction, ds: Datastore)
    requires
        ds.wf(),
        t.begin() == ds.seq_no(),
        forall|n: Seq<char>| #[trigger] t.cf_pending(n) is Some ==> t.cf_pending(n) == Some(
            Map::<Seq<u8>, Seq<u8>>::empty(),
        ),
        forall|n: Seq<char>| #[trigger] t.cf_pending(n) is Some ==> t.cf_deletes(n) == Some(
            Set::<Seq<u8>>::empty(),
        ),
    ensures
        !t.conflicts_with(ds.log_view()),
        crate::txn::touched_present(ds, t),
{
    crate::store::ds_reveal(ds);
    assert(!t.conflicts_with(ds.log_view())) by {
        if t.conflicts_with(ds.log_view()) {
            let i = choose|i: int|
                0 <= i < ds.log_view().len() && (#[trigger] ds.log_view()[i]).2 > t.begin()
                    && t.touches(ds.log_view()[i].0, ds.log_view()[i].1);
            assert(ds.log@[i].2 <= ds.seq_no());
            assert(ds.log_view()[i].2 == ds.log@[i].2);
        }
    }
}

} // verus!
