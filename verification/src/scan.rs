//! Ordered scans over a transaction's view of a keyspace.
//!
//! Every scan walks the sorted entries of the keyspace the transaction sees,
//! inside a window: optionally strictly after a resume cursor, at or above a
//! range start, restricted to a key prefix, and strictly below an upper
//! bound, up to a page limit. The result of a scan is pinned down by
//! `scan_ok`: its rows are exactly the in-window entries, ascending, each
//! exactly once, cut off only by the page limit.

use vstd::prelude::*;

use crate::error::Error;
use crate::order::{
    bytes_has_prefix, bytes_cmp, has_prefix, lemma_lex_le_lt_trans, lemma_lex_lt_le_trans,
    lemma_lex_total_at, lemma_prefix_range, lex_le, lex_lt, Cmp,
};
use crate::sorted::SortedKv;
use crate::txn::{txn_reveal, Transaction};

verus! {

/// Whether a key lies in the scan window.
pub open spec fn in_window(
    k: Seq<u8>,
    lo_strict: Option<Seq<u8>>,
    lo_incl: Option<Seq<u8>>,
    prefix: Option<Seq<u8>>,
    upper: Option<Seq<u8>>,
) -> bool {
    &&& (lo_strict matches Some(lo) ==> lex_lt(lo, k))
    &&& (lo_incl matches Some(lo) ==> lex_le(lo, k))
    &&& (prefix matches Some(p) ==> has_prefix(k, p))
    &&& (upper matches Some(u) ==> lex_lt(k, u))
}

/// What a page of scan output is: exactly the in-window entries of `m`, in
/// strictly ascending key order, within the page limit; every in-window
/// member of `m` is either on the page or lies strictly beyond its last row.
pub open spec fn scan_ok(
    m: Map<Seq<u8>, Seq<u8>>,
    out: Seq<(Seq<u8>, Seq<u8>)>,
    lo_strict: Option<Seq<u8>>,
    lo_incl: Option<Seq<u8>>,
    prefix: Option<Seq<u8>>,
    upper: Option<Seq<u8>>,
    limit: Option<int>,
) -> bool {
    &&& forall|i: int, j: int|
        0 <= i < j < out.len() ==> lex_lt(#[trigger] out[i].0, #[trigger] out[j].0)
    &&& forall|i: int|
        0 <= i < out.len() ==> m.contains_key((#[trigger] out[i]).0) && m[out[i].0] == out[i].1
            && in_window(out[i].0, lo_strict, lo_incl, prefix, upper)
    &&& (limit matches Some(l) ==> out.len() <= l)
    &&& forall|k: Seq<u8>|
        #[trigger] m.contains_key(k) && in_window(k, lo_strict, lo_incl, prefix, upper) ==> ((
        exists|i: int| 0 <= i < out.len() && (#[trigger] out[i]).0 == k) || (limit is Some
            && out.len() == limit.unwrap() && (out.len() == 0 || lex_lt(out.last().0, k))))
}

/// The view of a scanned page.
pub open spec fn page_view(out: Seq<(Vec<u8>, Vec<u8>)>) -> Seq<(Seq<u8>, Seq<u8>)> {
    Seq::new(out.len(), |i: int| (out[i].0@, out[i].1@))
}

/// Collect the in-window entries of a sorted keyspace, in ascending order, up
/// to `limit` of them. A prefix restriction must come with a start bound at
/// or above the prefix, so that the walk begins inside the prefix range.
pub(crate) fn collect_window(
    kv: &SortedKv,
    lo_strict: &Option<Vec<u8>>,
    lo_incl: &Option<Vec<u8>>,
    prefix: &Option<Vec<u8>>,
    upper: &Option<Vec<u8>>,
    limit: Option<usize>,
) -> (r: Vec<(Vec<u8>, Vec<u8>)>)
    requires
        kv.wf(),
        !(lo_strict is Some && lo_incl is Some),
        opt_bytes(*prefix) matches Some(p) ==> (opt_bytes(*lo_incl) == Some(p) || (opt_bytes(
            *lo_strict,
        ) matches Some(lo) && lex_le(p, lo))),
    ensures
        scan_ok(
            kv.view_map(),
            page_view(r@),
            opt_bytes(*lo_strict),
            opt_bytes(*lo_incl),
            opt_bytes(*prefix),
            opt_bytes(*upper),
            opt_limit(limit),
        ),
{
    let ghost lows = opt_bytes(*lo_strict);
    let ghost lowi = opt_bytes(*lo_incl);
    let ghost pfx = opt_bytes(*prefix);
    let ghost up = opt_bytes(*upper);
    let n = kv.len();
    let mut s: usize = 0;
    match lo_strict {
        Some(lo) => {
            s = kv.first_gt(lo);
        },
        None => {
            match lo_incl {
                Some(lo) => {
                    s = kv.first_ge(lo);
                },
                None => {
                },
            }
        },
    }
    let ghost ps = kv.pairs();
    proof {
        assert forall|j: int| 0 <= j < s implies !in_window(
            (#[trigger] ps[j]).0,
            lows,
            lowi,
            pfx,
            up,
        ) by {
            if lows is Some {
                assert(lex_le(ps[j].0, lows.unwrap()));
                if lex_lt(lows.unwrap(), ps[j].0) {
                    crate::order::lemma_lex_antisym(ps[j].0, lows.unwrap());
                }
            }
            if lowi is Some && lows is None {
                assert(lex_lt(ps[j].0, lowi.unwrap()));
                if lex_le(lowi.unwrap(), ps[j].0) {
                    crate::order::lemma_lex_antisym(ps[j].0, lowi.unwrap());
                }
            }
        }
    }
    let mut out: Vec<(Vec<u8>, Vec<u8>)> = Vec::new();
    let mut i: usize = s;
    let mut cut = false;
    while i < n && !cut
        invariant
            s <= i <= n,
            n == ps.len(),
            ps == kv.pairs(),
            kv.wf(),
            lows == opt_bytes(*lo_strict),
            lowi == opt_bytes(*lo_incl),
            pfx == opt_bytes(*prefix),
            up == opt_bytes(*upper),
            !(lows is Some && lowi is Some),
            lows is Some && s < n ==> lex_lt(lows.unwrap(), ps[s as int].0),
            lowi is Some && s < n ==> lex_le(lowi.unwrap(), ps[s as int].0),
            pfx matches Some(p) ==> (lowi == Some(p) || (lows matches Some(lo) && lex_le(p, lo))),
            forall|j: int| 0 <= j < s ==> !in_window((#[trigger] ps[j]).0, lows, lowi, pfx, up),
            out@.len() == i - s,
            forall|j: int|
                0 <= j < out@.len() ==> (#[trigger] out@[j]).0@ == ps[s + j].0 && out@[j].1@ == ps[s
                    + j].1,
            forall|j: int| s <= j < i ==> in_window((#[trigger] ps[j]).0, lows, lowi, pfx, up),
            limit matches Some(l) ==> out@.len() <= l,
            cut ==> (i < n && !in_window(ps[i as int].0, lows, lowi, pfx, up)),
        ensures
            i <= n,
            out@.len() == i - s,
            forall|j: int|
                0 <= j < out@.len() ==> (#[trigger] out@[j]).0@ == ps[s + j].0 && out@[j].1@ == ps[s
                    + j].1,
            forall|j: int| s <= j < i ==> in_window((#[trigger] ps[j]).0, lows, lowi, pfx, up),
            forall|j: int| 0 <= j < s ==> !in_window((#[trigger] ps[j]).0, lows, lowi, pfx, up),
            limit matches Some(l) ==> out@.len() <= l,
            i < n && !cut ==> (limit matches Some(l) && out@.len() == l),
            cut ==> (i < n && !in_window(ps[i as int].0, lows, lowi, pfx, up)),
        decreases n - i, 1int - if cut { 1int } else { 0int },
    {
        match limit {
            Some(l) => {
                if out.len() >= l {
                    break;
                }
            },
            None => {},
        }
        let key = kv.key_at(i);
        let pfx_ok = match prefix {
            Some(p) => bytes_has_prefix(key, p),
            None => true,
        };
        let up_ok = match upper {
            Some(u) => {
                let c = bytes_cmp(key, u);
                match c {
                    Cmp::Below => true,
                    Cmp::Equal => false,
                    Cmp::Above => {
                        proof {
                            if lex_lt(key@, u@) {
                                crate::order::lemma_lex_antisym(key@, u@);
                            }
                        }
                        false
                    },
                }
            },
            None => true,
        };
        let ok = pfx_ok && up_ok;
        proof {
            assert(pfx_ok == (pfx matches Some(p) ==> has_prefix(ps[i as int].0, p)));
            assert(up_ok == (up matches Some(u) ==> lex_lt(ps[i as int].0, u)));
        }
        proof {
            assert(lows is Some ==> lex_lt(lows.unwrap(), ps[i as int].0)) by {
                if lows is Some && i > s {
                    assert(lex_lt(ps[s as int].0, ps[i as int].0));
                    crate::order::lemma_lex_lt_le_trans(lows.unwrap(), ps[s as int].0, ps[i as int].0);
                    if lows.unwrap() == ps[i as int].0 {
                        crate::order::lemma_lex_antisym(lows.unwrap(), ps[s as int].0);
                    }
                }
            }
            assert(lowi is Some ==> lex_le(lowi.unwrap(), ps[i as int].0)) by {
                if lowi is Some && i > s {
                    assert(lex_lt(ps[s as int].0, ps[i as int].0));
                    crate::order::lemma_lex_trans(lowi.unwrap(), ps[s as int].0, ps[i as int].0);
                }
            }
        }
        if !ok {
            cut = true;
        } else {
            let kc = crate::sorted::clone_bytes(kv.key_at(i));
            let vc = crate::sorted::clone_bytes(kv.val_at(i));
            out.push((kc, vc));
            i = i + 1;
        }
    }
    proof {
        let ov = page_view(out@);
        assert forall|a: int| 0 <= a < ov.len() implies #[trigger] ov[a] == ps[s + a] by {
            assert(out@[a].0@ == ps[s + a].0);
            assert(out@[a].1@ == ps[s + a].1);
        }
        assert forall|a: int, b: int| 0 <= a < b < ov.len() implies lex_lt(
            #[trigger] ov[a].0,
            #[trigger] ov[b].0,
        ) by {
            assert(ov[a] == ps[s + a]);
            assert(ov[b] == ps[s + b]);
        }
        assert forall|a: int| 0 <= a < ov.len() implies kv.view_map().contains_key(
            (#[trigger] ov[a]).0,
        ) && kv.view_map()[ov[a].0] == ov[a].1 && in_window(ov[a].0, lows, lowi, pfx, up) by {
            assert(ov[a] == ps[s + a]);
            crate::sorted::lemma_entry_in_map(ps, s + a);
        }
        assert forall|k: Seq<u8>|
            #[trigger] kv.view_map().contains_key(k) && in_window(k, lows, lowi, pfx, up) implies ((
        exists|x: int| 0 <= x < ov.len() && (#[trigger] ov[x]).0 == k) || (opt_limit(limit) is Some
            && ov.len() == opt_limit(limit).unwrap() && (ov.len() == 0 || lex_lt(
            ov.last().0,
            k,
        )))) by {
            let j = choose|j: int| 0 <= j < ps.len() && (#[trigger] ps[j]).0 == k;
            if j < s {
                assert(!in_window(ps[j].0, lows, lowi, pfx, up));
            } else if j < i {
                assert(ov[j - s] == ps[j - s + s]);
                assert(ov[j - s].0 == k);
            } else {
                assert(lex_le(ps[i as int].0, ps[j].0)) by {
                    if j > i {
                        assert(lex_lt(ps[i as int].0, ps[j].0));
                    } else {
                        lemma_lex_total_at(ps[i as int].0, ps[i as int].0, 0);
                    }
                }
                if cut {
                    // The walk stopped on a window violation at `i`; but
                    // everything from `i` to `j` would then violate it too.
                    assert(i < n && !in_window(ps[i as int].0, lows, lowi, pfx, up));
                    assert(lows is Some ==> lex_lt(lows.unwrap(), ps[i as int].0)) by {
                        if lows is Some {
                            if i > s {
                                assert(lex_lt(ps[s as int].0, ps[i as int].0));
                                crate::order::lemma_lex_lt_le_trans(
                                    lows.unwrap(),
                                    ps[s as int].0,
                                    ps[i as int].0,
                                );
                                if lows.unwrap() == ps[i as int].0 {
                                    crate::order::lemma_lex_antisym(
                                        lows.unwrap(),
                                        ps[s as int].0,
                                    );
                                }
                            }
                        }
                    }
                    assert(lowi is Some ==> lex_le(lowi.unwrap(), ps[i as int].0)) by {
                        if lowi is Some && i > s {
                            assert(lex_lt(ps[s as int].0, ps[i as int].0));
                            crate::order::lemma_lex_trans(
                                lowi.unwrap(),
                                ps[s as int].0,
                                ps[i as int].0,
                            );
                        }
                    }
                    if pfx is Some && !has_prefix(ps[i as int].0, pfx.unwrap()) {
                        let p = pfx.unwrap();
                        assert(has_prefix(p, p)) by {
                            assert(p.subrange(0, p.len() as int) =~= p);
                        }
                        assert(lex_le(p, ps[i as int].0)) by {
                            if lowi == Some(p) {
                            } else {
                                assert(lows matches Some(lo) && lex_le(p, lo));
                                assert(lex_lt(lows.unwrap(), ps[i as int].0));
                                crate::order::lemma_lex_le_lt_trans(
                                    p,
                                    lows.unwrap(),
                                    ps[i as int].0,
                                );
                            }
                        }
                        lemma_prefix_range(p, p, ps[i as int].0, ps[j].0);
                        assert(false);
                    } else if up is Some && !lex_lt(ps[i as int].0, up.unwrap()) {
                        assert(lex_le(up.unwrap(), ps[i as int].0)) by {
                            lemma_lex_total_at(ps[i as int].0, up.unwrap(), 0);
                            if lex_le(ps[i as int].0, up.unwrap()) {
                                assert(ps[i as int].0 == up.unwrap());
                                lemma_lex_total_at(up.unwrap(), up.unwrap(), 0);
                            }
                        }
                        crate::order::lemma_lex_trans(up.unwrap(), ps[i as int].0, ps[j].0);
                        assert(lex_lt(k, up.unwrap()));
                        crate::order::lemma_lex_antisym(k, up.unwrap());
                        assert(false);
                    } else {
                        assert(in_window(ps[i as int].0, lows, lowi, pfx, up));
                        assert(false);
                    }
                } else if i == n {
                    assert(false);
                } else {
                    // The page limit cut the walk.
                    assert(limit matches Some(l) && out@.len() == l);
                    if ov.len() > 0 {
                        assert(ov.last() == ps[i - 1]);
                        assert(lex_lt(ps[i - 1].0, ps[j].0));
                    }
                }
            }
        }
    }
    out
}


impl Transaction {
    /// Forward iteration over the default keyspace: up to `limit` entries, in
    /// ascending key order, starting strictly after `after` (or at the first
    /// key when `after` is absent).
    pub fn scan(&self, limit: u32, after: Option<Vec<u8>>) -> (r: Result<
        Vec<(Vec<u8>, Vec<u8>)>,
        Error,
    >)
        requires
            self.wf(),
        ensures
            self.completed() ==> r == Err::<Vec<(Vec<u8>, Vec<u8>)>, Error>(Error::TxFinished),
            !self.completed() ==> match r {
                Ok(page) => scan_ok(
                    self.visible(),
                    page_view(page@),
                    opt_bytes(after),
                    None,
                    None,
                    None,
                    Some(limit as int),
                ),
                Err(_) => false,
            },
    {
        proof {
            txn_reveal(*self);
        }
        if self.completed {
            return Err(Error::TxFinished);
        }
        let none1: Option<Vec<u8>> = None;
        let none2: Option<Vec<u8>> = None;
        let none3: Option<Vec<u8>> = None;
        Ok(collect_window(&self.local, &after, &none1, &none2, &none3, Some(limit as usize)))
    }

    /// Keys in the half-open range `rng`, in ascending order, up to `limit`
    /// of them.
    pub fn scan_range(&self, rng: core::ops::Range<Vec<u8>>, limit: u32) -> (r: Result<
        Vec<Vec<u8>>,
        Error,
    >)
        requires
            self.wf(),
        ensures
            self.completed() ==> r == Err::<Vec<Vec<u8>>, Error>(Error::TxFinished),
            !self.completed() ==> match r {
                Ok(keys) => exists|page: Seq<(Seq<u8>, Seq<u8>)>|
                    {
                        &&& scan_ok(
                            self.visible(),
                            page,
                            None,
                            Some(rng.start@),
                            None,
                            Some(rng.end@),
                            Some(limit as int),
                        )
                        &&& keys@.len() == page.len()
                        &&& forall|i: int|
                            0 <= i < page.len() ==> (#[trigger] keys@[i])@ == page[i].0
                    },
                Err(_) => false,
            },
    {
        proof {
            txn_reveal(*self);
        }
        if self.completed {
            return Err(Error::TxFinished);
        }
        let start = rng.start;
        let end = rng.end;
        let none1: Option<Vec<u8>> = None;
        let none2: Option<Vec<u8>> = None;
        let lo = Some(start);
        let up = Some(end);
        let page = collect_window(&self.local, &none1, &lo, &none2, &up, Some(limit as usize));
        let ghost pv = page_view(page@);
        let mut keys: Vec<Vec<u8>> = Vec::new();
        let n = page.len();
        let mut i: usize = 0;
        while i < n
            invariant
                0 <= i <= n,
                n == page@.len(),
                keys@.len() == i,
                forall|j: int| 0 <= j < i ==> (#[trigger] keys@[j])@ == page@[j].0@,
            decreases n - i,
        {
            keys.push(crate::sorted::clone_bytes(&page[i].0));
            i = i + 1;
        }
        proof {
            assert forall|j: int| 0 <= j < pv.len() implies (#[trigger] keys@[j])@ == pv[j].0 by {
                assert(keys@[j]@ == page@[j].0@);
            }
        }
        Ok(keys)
    }

    /// Forward iteration restricted to keys sharing `collection_prefix`:
    /// ascending, resuming strictly after the cursor `after`, up to `limit`
    /// entries (unbounded when `limit` is absent). A cursor below the prefix
    /// behaves as if absent.
    pub fn scan_collection(
        &self,
        collection_prefix: Vec<u8>,
        limit: Option<usize>,
        after: Option<Vec<u8>>,
    ) -> (r: Result<Vec<(Vec<u8>, Vec<u8>)>, Error>)
        requires
            self.wf(),
        ensures
            self.completed() ==> r == Err::<Vec<(Vec<u8>, Vec<u8>)>, Error>(Error::TxFinished),
            !self.completed() ==> match r {
                Ok(page) => collection_page_ok(
                    self.visible(),
                    page_view(page@),
                    collection_prefix@,
                    opt_bytes(after),
                    opt_limit(limit),
                ),
                Err(_) => false,
            },
    {
        proof {
            txn_reveal(*self);
        }
        if self.completed {
            return Err(Error::TxFinished);
        }
        scan_collection_in(&self.local, collection_prefix, limit, after)
    }

    /// As `scan_collection`, but over the named column family, and bounded
    /// strictly below `upper_bound_prefix`.
    pub fn scan_collection_index(
        &self,
        upper_bound_prefix: Vec<u8>,
        column: &str,
        limit: u32,
        after: Option<Vec<u8>>,
    ) -> (r: Result<Vec<(Vec<u8>, Vec<u8>)>, Error>)
        requires
            self.wf(),
        ensures
            self.completed() ==> r == Err::<Vec<(Vec<u8>, Vec<u8>)>, Error>(Error::TxFinished),
            !self.completed() && self.cf_visible(column@) is None ==> (r matches Err(e) && e is Tx),
            !self.completed() && self.cf_visible(column@) is Some ==> match r {
                Ok(page) => scan_ok(
                    self.cf_visible(column@).unwrap(),
                    page_view(page@),
                    opt_bytes(after),
                    None,
                    None,
                    Some(upper_bound_prefix@),
                    Some(limit as int),
                ),
                Err(_) => false,
            },
    {
        proof {
            txn_reveal(*self);
        }
        if self.completed {
            return Err(Error::TxFinished);
        }
        let name = column.to_owned();
        let n = self.cf_states.len();
        let mut i: usize = 0;
        loop
            invariant
                0 <= i <= n,
                n == self.cf_states@.len(),
                self.wf(),
                name@ == column@,
                forall|j: int| 0 <= j < i ==> (#[trigger] self.cf_states@[j]).name@ != column@,
            ensures
                i <= n,
                forall|j: int| 0 <= j < i ==> (#[trigger] self.cf_states@[j]).name@ != column@,
                i < n ==> self.cf_states@[i as int].name@ == column@,
            decreases n - i,
        {
            if i >= n {
                break;
            }
            if self.cf_states[i].name == name {
                break;
            }
            i = i + 1;
        }
        if i == n {
            proof {
                if exists|j: int|
                    0 <= j < self.cf_states@.len() && (#[trigger] self.cf_states@[j]).name@
                        == column@ {
                    let j = choose|j: int|
                        0 <= j < self.cf_states@.len() && (#[trigger] self.cf_states@[j]).name@
                            == column@;
                    assert(false);
                }
                crate::txn::lemma_cf_absent(*self, column@);
            }
            let msg = String::from_str("`").concat(column).concat("` index does not exist.");
            return Err(Error::Tx(msg));
        }
        proof {
            txn_reveal(*self);
            crate::txn::lemma_cf_at(*self, i as int);
        }
        let none1: Option<Vec<u8>> = None;
        let none2: Option<Vec<u8>> = None;
        let up = Some(upper_bound_prefix);
        Ok(
            collect_window(
                &self.cf_states[i].local,
                &after,
                &none1,
                &none2,
                &up,
                Some(limit as usize),
            ),
        )
    }
}

/// What a collection scan returns: a page of the prefix window, resuming
/// after the cursor where one is given at or above the prefix.
pub open spec fn collection_page_ok(
    m: Map<Seq<u8>, Seq<u8>>,
    out: Seq<(Seq<u8>, Seq<u8>)>,
    prefix: Seq<u8>,
    after: Option<Seq<u8>>,
    limit: Option<int>,
) -> bool {
    if after is Some && lex_le(prefix, after.unwrap()) {
        scan_ok(m, out, Some(after.unwrap()), None, Some(prefix), None, limit)
    } else {
        scan_ok(m, out, None, Some(prefix), Some(prefix), None, limit)
    }
}

/// The collection scan over a plain keyspace.
pub(crate) fn scan_collection_in(
    kv: &SortedKv,
    prefix: Vec<u8>,
    limit: Option<usize>,
    after: Option<Vec<u8>>,
) -> (r: Result<Vec<(Vec<u8>, Vec<u8>)>, Error>)
    requires
        kv.wf(),
    ensures
        match r {
            Ok(page) => collection_page_ok(
                kv.view_map(),
                page_view(page@),
                prefix@,
                opt_bytes(after),
                opt_limit(limit),
            ),
            Err(_) => false,
        },
{
    let none1: Option<Vec<u8>> = None;
    let mut use_after = false;
    match &after {
        Some(a) => {
            let c = bytes_cmp(&prefix, a);
            match c {
                Cmp::Above => {
                    proof {
                        if lex_le(prefix@, a@) {
                            crate::order::lemma_lex_antisym(prefix@, a@);
                        }
                    }
                },
                _ => {
                    proof {
                        lemma_lex_total_at(prefix@, a@, 0);
                    }
                    use_after = true;
                },
            }
        },
        None => {},
    }
    if use_after {
        let pfx = Some(prefix);
        Ok(collect_window(kv, &after, &none1, &pfx, &none1, limit))
    } else {
        let pfx = Some(prefix);
        let lo = match &pfx {
            Some(p) => Some(crate::sorted::clone_bytes(p)),
            None => None,
        };
        let page = collect_window(kv, &none1, &lo, &pfx, &none1, limit);
        proof {
            assert(opt_bytes(lo) == Some(prefix@));
        }
        Ok(page)
    }
}

/// The view of an optional byte string.
pub open spec fn opt_bytes(o: Option<Vec<u8>>) -> Option<Seq<u8>> {
    match o {
        Some(v) => Some(v@),
        None => None,
    }
}

/// The view of an optional page limit.
pub open spec fn opt_limit(o: Option<usize>) -> Option<int> {
    match o {
        Some(l) => Some(l as int),
        None => None,
    }
}

} // verus!
