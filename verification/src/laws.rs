//! Laws of the store, stated and proved once over the specification
//! functions the operation contracts use.

use vstd::prelude::*;

use crate::order::{
    has_prefix, lemma_lex_antisym, lemma_lex_le_lt_trans, lemma_lex_lt_le_trans, lemma_prefix_le,
    lex_le, lex_lt,
};
use crate::scan::{collection_page_ok, in_window, scan_ok};
use crate::store::apply_writes;

verus! {

/// A key a committed transaction put is bound, to the put value, in the
/// keyspace the commit produces — so a later transaction, whose view is that
/// keyspace, reads the committed value.
pub proof fn lemma_committed_put_visible(
    m: Map<Seq<u8>, Seq<u8>>,
    puts: Map<Seq<u8>, Seq<u8>>,
    dels: Set<Seq<u8>>,
    k: Seq<u8>,
)
    requires
        puts.contains_key(k),
    ensures
        apply_writes(m, puts, dels).contains_key(k),
        apply_writes(m, puts, dels)[k] == puts[k],
{
}

/// A key never written — absent from the keyspace, not put — stays absent
/// through any commit.
pub proof fn lemma_never_written_absent(
    m: Map<Seq<u8>, Seq<u8>>,
    puts: Map<Seq<u8>, Seq<u8>>,
    dels: Set<Seq<u8>>,
    k: Seq<u8>,
)
    requires
        !m.contains_key(k),
        !puts.contains_key(k),
    ensures
        !apply_writes(m, puts, dels).contains_key(k),
{
}

/// After a successful `insert(k, v)`, the transaction's view holds `k`; a
/// second `insert` of `k` therefore returns `TxKeyAlreadyExists`, by the
/// contract of `insert` on a view that holds the key.
pub proof fn lemma_insert_then_insert(m: Map<Seq<u8>, Seq<u8>>, k: Seq<u8>, v: Seq<u8>)
    ensures
        m.insert(k, v).contains_key(k),
{
}

/// `insert_checked(k, v, Some(w))` succeeds exactly when the view currently
/// binds `k` to `w` — that is, when `get(k)` returns `Some(w)`.
pub proof fn lemma_checked_condition(m: Map<Seq<u8>, Seq<u8>>, k: Seq<u8>, w: Seq<u8>)
    ensures
        crate::txn::check_holds(m, k, Some(w)) <==> (m.contains_key(k) && m[k] == w),
{
}

/// An unbounded, cursor-free collection scan returns exactly the keys of the
/// keyspace that share the prefix (all of which sort at or above it), in
/// strictly ascending order, each exactly once, with its value.
pub proof fn lemma_full_collection_scan(
    m: Map<Seq<u8>, Seq<u8>>,
    out: Seq<(Seq<u8>, Seq<u8>)>,
    prefix: Seq<u8>,
)
    requires
        collection_page_ok(m, out, prefix, None, None),
    ensures
        forall|i: int, j: int|
            0 <= i < j < out.len() ==> lex_lt(#[trigger] out[i].0, #[trigger] out[j].0),
        forall|i: int|
            0 <= i < out.len() ==> m.contains_key((#[trigger] out[i]).0) && m[out[i].0]
                == out[i].1 && has_prefix(out[i].0, prefix) && lex_le(prefix, out[i].0),
        forall|k: Seq<u8>|
            #[trigger] m.contains_key(k) && has_prefix(k, prefix) ==> exists|i: int|
                0 <= i < out.len() && (#[trigger] out[i]).0 == k,
        forall|i: int, j: int|
            0 <= i < out.len() && 0 <= j < out.len() && (#[trigger] out[i]).0 == (
            #[trigger] out[j]).0 ==> i == j,
{
    assert forall|k: Seq<u8>| #[trigger] m.contains_key(k) && has_prefix(k, prefix) implies exists|
        i: int,
    | 0 <= i < out.len() && (#[trigger] out[i]).0 == k by {
        lemma_prefix_le(k, prefix);
        assert(in_window(k, None, Some(prefix), Some(prefix), None));
    }
    assert forall|i: int, j: int|
        0 <= i < out.len() && 0 <= j < out.len() && (#[trigger] out[i]).0 == (
        #[trigger] out[j]).0 implies i == j by {
        if i < j {
            assert(lex_lt(out[i].0, out[j].0));
        }
        if j < i {
            assert(lex_lt(out[j].0, out[i].0));
        }
    }
}

/// Whether a page holds a row with the given key.
pub open spec fn page_has_key(s: Seq<(Seq<u8>, Seq<u8>)>, k: Seq<u8>) -> bool {
    exists|j: int| 0 <= j < s.len() && (#[trigger] s[j]).0 == k
}

/// Two strictly ascending pages whose rows are drawn from `m` and which hold
/// exactly the same keys are the same sequence.
#[verifier::rlimit(50)]
pub proof fn lemma_sorted_pages_equal(
    m: Map<Seq<u8>, Seq<u8>>,
    a: Seq<(Seq<u8>, Seq<u8>)>,
    b: Seq<(Seq<u8>, Seq<u8>)>,
)
    requires
        forall|i: int, j: int| 0 <= i < j < a.len() ==> lex_lt(#[trigger] a[i].0, #[trigger] a[j].0),
        forall|i: int, j: int| 0 <= i < j < b.len() ==> lex_lt(#[trigger] b[i].0, #[trigger] b[j].0),
        forall|i: int|
            0 <= i < a.len() ==> m.contains_key((#[trigger] a[i]).0) && m[a[i].0] == a[i].1,
        forall|i: int|
            0 <= i < b.len() ==> m.contains_key((#[trigger] b[i]).0) && m[b[i].0] == b[i].1,
        forall|i: int| 0 <= i < a.len() ==> page_has_key(b, (#[trigger] a[i]).0),
        forall|i: int| 0 <= i < b.len() ==> page_has_key(a, (#[trigger] b[i]).0),
    ensures
        a =~= b,
    decreases a.len(),
{
    if a.len() == 0 {
        if b.len() > 0 {
            assert(page_has_key(a, b[0].0));
        }
        assert(a =~= b);
    } else {
        assert(page_has_key(b, a[0].0));
        let jb = choose|j: int| 0 <= j < b.len() && (#[trigger] b[j]).0 == a[0].0;
        assert(page_has_key(a, b[0].0));
        let ja = choose|j: int| 0 <= j < a.len() && (#[trigger] a[j]).0 == b[0].0;
        assert(a[0].0 == b[0].0) by {
            if jb > 0 {
                assert(lex_lt(b[0].0, b[jb].0));
            }
            if ja > 0 {
                assert(lex_lt(a[0].0, a[ja].0));
            }
            if jb > 0 && ja > 0 {
                crate::order::lemma_lex_lt_le_trans(b[0].0, b[jb].0, a[ja].0);
                assert(false);
            }
        }
        assert(a[0] == b[0]) by {
            assert(m[a[0].0] == a[0].1);
            assert(m[b[0].0] == b[0].1);
        }
        let at = a.drop_first();
        let bt = b.drop_first();
        assert forall|i: int| 0 <= i < at.len() implies page_has_key(
            bt,
            (#[trigger] at[i]).0,
        ) by {
            assert(at[i] == a[i + 1]);
            assert(page_has_key(b, a[i + 1].0));
            let j = choose|j: int| 0 <= j < b.len() && (#[trigger] b[j]).0 == a[i + 1].0;
            assert(j != 0) by {
                if j == 0 {
                    assert(lex_lt(a[0].0, a[i + 1].0));
                }
            }
            assert(bt[j - 1].0 == at[i].0);
        }
        assert forall|i: int| 0 <= i < bt.len() implies page_has_key(
            at,
            (#[trigger] bt[i]).0,
        ) by {
            assert(bt[i] == b[i + 1]);
            assert(page_has_key(a, b[i + 1].0));
            let j = choose|j: int| 0 <= j < a.len() && (#[trigger] a[j]).0 == b[i + 1].0;
            assert(j != 0) by {
                if j == 0 {
                    assert(lex_lt(b[0].0, b[i + 1].0));
                }
            }
            assert(at[j - 1].0 == bt[i].0);
        }
        assert forall|i: int, j: int| 0 <= i < j < at.len() implies lex_lt(
            #[trigger] at[i].0,
            #[trigger] at[j].0,
        ) by {
            assert(at[i] == a[i + 1]);
            assert(at[j] == a[j + 1]);
        }
        assert forall|i: int, j: int| 0 <= i < j < bt.len() implies lex_lt(
            #[trigger] bt[i].0,
            #[trigger] bt[j].0,
        ) by {
            assert(bt[i] == b[i + 1]);
            assert(bt[j] == b[j + 1]);
        }
        assert forall|i: int| 0 <= i < at.len() implies m.contains_key((#[trigger] at[i]).0)
            && m[at[i].0] == at[i].1 by {
            assert(at[i] == a[i + 1]);
        }
        assert forall|i: int| 0 <= i < bt.len() implies m.contains_key((#[trigger] bt[i]).0)
            && m[bt[i].0] == bt[i].1 by {
            assert(bt[i] == b[i + 1]);
        }
        lemma_sorted_pages_equal(m, at, bt);
        assert(a =~= b) by {
            assert(a == seq![a[0]] + at);
            assert(b == seq![b[0]] + bt);
        }
    }
}

/// Paginated scans compose: a full page of `l` rows followed by an unbounded
/// scan resuming after its last row yields, concatenated, exactly the
/// unbounded scan.
#[verifier::rlimit(50)]
pub proof fn lemma_paged_scan_concat(
    m: Map<Seq<u8>, Seq<u8>>,
    full: Seq<(Seq<u8>, Seq<u8>)>,
    page: Seq<(Seq<u8>, Seq<u8>)>,
    rest: Seq<(Seq<u8>, Seq<u8>)>,
    prefix: Seq<u8>,
    l: int,
)
    requires
        l > 0,
        scan_ok(m, full, None, Some(prefix), Some(prefix), None, None),
        scan_ok(m, page, None, Some(prefix), Some(prefix), None, Some(l)),
        page.len() == l,
        scan_ok(m, rest, Some(page.last().0), None, Some(prefix), None, None),
    ensures
        full =~= page + rest,
{
    let cat = page + rest;
    assert forall|i: int, j: int| 0 <= i < j < cat.len() implies lex_lt(
        #[trigger] cat[i].0,
        #[trigger] cat[j].0,
    ) by {
        if i < page.len() && j >= page.len() {
            assert(cat[i] == page[i]);
            assert(cat[j] == rest[j - page.len()]);
            assert(lex_lt(page.last().0, rest[j - page.len()].0));
            if i < page.len() - 1 {
                assert(lex_lt(page[i].0, page.last().0));
                lemma_lex_lt_le_trans(page[i].0, page.last().0, rest[j - page.len()].0);
                if page[i].0 == cat[j].0 {
                    lemma_lex_antisym(page.last().0, rest[j - page.len()].0);
                }
            }
        } else if i >= page.len() {
            assert(cat[i] == rest[i - page.len()]);
            assert(cat[j] == rest[j - page.len()]);
        } else {
            assert(cat[i] == page[i]);
            assert(cat[j] == page[j]);
        }
    }
    assert forall|i: int| 0 <= i < cat.len() implies m.contains_key((#[trigger] cat[i]).0)
        && m[cat[i].0] == cat[i].1 by {
        if i < page.len() {
            assert(cat[i] == page[i]);
        } else {
            assert(cat[i] == rest[i - page.len()]);
        }
    }
    assert forall|i: int| 0 <= i < full.len() implies page_has_key(
        cat,
        (#[trigger] full[i]).0,
    ) by {
        let k = full[i].0;
        assert(in_window(k, None, Some(prefix), Some(prefix), None));
        assert(m.contains_key(k));
        if exists|x: int| 0 <= x < page.len() && (#[trigger] page[x]).0 == k {
            let x = choose|x: int| 0 <= x < page.len() && (#[trigger] page[x]).0 == k;
            assert(cat[x].0 == k);
        } else {
            assert(lex_lt(page.last().0, k));
            assert(in_window(k, Some(page.last().0), None, Some(prefix), None));
            let x = choose|x: int| 0 <= x < rest.len() && (#[trigger] rest[x]).0 == k;
            assert(cat[page.len() + x].0 == k);
        }
    }
    assert forall|i: int| 0 <= i < cat.len() implies page_has_key(
        full,
        (#[trigger] cat[i]).0,
    ) by {
        let k = cat[i].0;
        if i < page.len() {
            assert(cat[i] == page[i]);
            assert(in_window(k, None, Some(prefix), Some(prefix), None));
        } else {
            assert(cat[i] == rest[i - page.len()]);
            assert(in_window(k, Some(page.last().0), None, Some(prefix), None));
            assert(in_window(k, None, Some(prefix), Some(prefix), None)) by {
                assert(lex_lt(page.last().0, k));
                assert(lex_le(prefix, page.last().0));
                lemma_lex_le_lt_trans(prefix, page.last().0, k);
            }
        }
        assert(m.contains_key(k));
    }
    lemma_sorted_pages_equal(m, full, cat);
}

/// Extending a gathered prefix by the page that resumes after its last row
/// gives the gathered prefix of the longer scan.
#[verifier::rlimit(50)]
pub proof fn lemma_page_extend(
    m: Map<Seq<u8>, Seq<u8>>,
    acc: Seq<(Seq<u8>, Seq<u8>)>,
    page: Seq<(Seq<u8>, Seq<u8>)>,
    prefix: Seq<u8>,
    l: int,
)
    requires
        acc.len() > 0,
        scan_ok(m, acc, None, Some(prefix), Some(prefix), None, Some(acc.len() as int)),
        scan_ok(m, page, Some(acc.last().0), None, Some(prefix), None, Some(l)),
    ensures
        scan_ok(
            m,
            acc + page,
            None,
            Some(prefix),
            Some(prefix),
            None,
            Some((acc.len() + page.len()) as int),
        ),
        page.len() < l ==> scan_ok(m, acc + page, None, Some(prefix), Some(prefix), None, None),
{
    let cat = acc + page;
    assert forall|i: int, j: int| 0 <= i < j < cat.len() implies lex_lt(
        #[trigger] cat[i].0,
        #[trigger] cat[j].0,
    ) by {
        if i < acc.len() && j >= acc.len() {
            assert(cat[i] == acc[i]);
            assert(cat[j] == page[j - acc.len()]);
            assert(lex_lt(acc.last().0, page[j - acc.len()].0));
            if i < acc.len() - 1 {
                assert(lex_lt(acc[i].0, acc.last().0));
                lemma_lex_lt_le_trans(acc[i].0, acc.last().0, page[j - acc.len()].0);
                if acc[i].0 == cat[j].0 {
                    lemma_lex_antisym(acc.last().0, page[j - acc.len()].0);
                }
            }
        } else if i >= acc.len() {
            assert(cat[i] == page[i - acc.len()]);
            assert(cat[j] == page[j - acc.len()]);
        } else {
            assert(cat[i] == acc[i]);
            assert(cat[j] == acc[j]);
        }
    }
    assert forall|i: int| 0 <= i < cat.len() implies m.contains_key((#[trigger] cat[i]).0)
        && m[cat[i].0] == cat[i].1 && in_window(cat[i].0, None, Some(prefix), Some(prefix), None)
        by {
        if i < acc.len() {
            assert(cat[i] == acc[i]);
        } else {
            assert(cat[i] == page[i - acc.len()]);
            assert(in_window(cat[i].0, Some(acc.last().0), None, Some(prefix), None));
            assert(lex_le(prefix, acc.last().0));
            assert(lex_lt(acc.last().0, cat[i].0));
            lemma_lex_le_lt_trans(prefix, acc.last().0, cat[i].0);
        }
    }
    assert forall|k: Seq<u8>|
        #[trigger] m.contains_key(k) && in_window(k, None, Some(prefix), Some(prefix), None)
            implies (page_has_key(cat, k) || ((cat.len() == acc.len() + page.len()) && (cat.len()
        == 0 || lex_lt(cat.last().0, k)))) by {
        if page_has_key(acc, k) {
            let x = choose|x: int| 0 <= x < acc.len() && (#[trigger] acc[x]).0 == k;
            assert(cat[x].0 == k);
            assert(page_has_key(cat, k));
        } else {
            assert(lex_lt(acc.last().0, k));
            assert(in_window(k, Some(acc.last().0), None, Some(prefix), None));
            if page_has_key(page, k) {
                let x = choose|x: int| 0 <= x < page.len() && (#[trigger] page[x]).0 == k;
                assert(cat[acc.len() + x].0 == k);
                assert(page_has_key(cat, k));
            } else {
                assert(page.len() == l && (page.len() == 0 || lex_lt(page.last().0, k)));
                if page.len() == 0 {
                    assert(cat.last() == acc.last());
                } else {
                    assert(cat.last() == page.last());
                }
            }
        }
    }
    if page.len() < l {
        assert forall|k: Seq<u8>|
            #[trigger] m.contains_key(k) && in_window(k, None, Some(prefix), Some(prefix), None)
                implies page_has_key(cat, k) by {
            if !page_has_key(acc, k) {
                assert(lex_lt(acc.last().0, k));
                assert(in_window(k, Some(acc.last().0), None, Some(prefix), None));
                assert(page_has_key(page, k));
                let x = choose|x: int| 0 <= x < page.len() && (#[trigger] page[x]).0 == k;
                assert(cat[acc.len() + x].0 == k);
            } else {
                let x = choose|x: int| 0 <= x < acc.len() && (#[trigger] acc[x]).0 == k;
                assert(cat[x].0 == k);
            }
        }
    }
}

/// A page may be restated with its own length as the limit.
pub proof fn lemma_page_tighten(
    m: Map<Seq<u8>, Seq<u8>>,
    out: Seq<(Seq<u8>, Seq<u8>)>,
    lo_strict: Option<Seq<u8>>,
    lo_incl: Option<Seq<u8>>,
    prefix: Option<Seq<u8>>,
    upper: Option<Seq<u8>>,
    l: int,
)
    requires
        scan_ok(m, out, lo_strict, lo_incl, prefix, upper, Some(l)),
    ensures
        scan_ok(m, out, lo_strict, lo_incl, prefix, upper, Some(out.len() as int)),
{
}

/// Two unbounded scans of one keyspace window have the same length.
pub proof fn lemma_count_matches_scan(
    m: Map<Seq<u8>, Seq<u8>>,
    p1: Seq<(Seq<u8>, Seq<u8>)>,
    p2: Seq<(Seq<u8>, Seq<u8>)>,
    prefix: Seq<u8>,
)
    requires
        scan_ok(m, p1, None, Some(prefix), Some(prefix), None, None),
        scan_ok(m, p2, None, Some(prefix), Some(prefix), None, None),
    ensures
        p1 == p2,
        p1.len() == p2.len(),
{
    assert forall|i: int| 0 <= i < p1.len() implies page_has_key(p2, (#[trigger] p1[i]).0) by {
        assert(m.contains_key(p1[i].0) && in_window(p1[i].0, None, Some(prefix), Some(prefix), None));
    }
    assert forall|i: int| 0 <= i < p2.len() implies page_has_key(p1, (#[trigger] p2[i]).0) by {
        assert(m.contains_key(p2[i].0) && in_window(p2[i].0, None, Some(prefix), Some(prefix), None));
    }
    lemma_sorted_pages_equal(m, p1, p2);
}

/// A short first page is already the whole scan.
pub proof fn lemma_page_short_is_full(
    m: Map<Seq<u8>, Seq<u8>>,
    page: Seq<(Seq<u8>, Seq<u8>)>,
    prefix: Seq<u8>,
    l: int,
)
    requires
        scan_ok(m, page, None, Some(prefix), Some(prefix), None, Some(l)),
        page.len() < l,
    ensures
        scan_ok(m, page, None, Some(prefix), Some(prefix), None, None),
{
}

/// The keys of a scan window beyond a page, as a set.
pub open spec fn beyond(m: Map<Seq<u8>, Seq<u8>>, prefix: Seq<u8>, cursor: Option<Seq<u8>>) -> Set<
    Seq<u8>,
> {
    m.dom().filter(
        |k: Seq<u8>|
            has_prefix(k, prefix) && (cursor matches Some(c) ==> lex_lt(c, k)),
    )
}

/// A full page strictly shrinks what lies beyond the scan.
#[verifier::rlimit(50)]
pub proof fn lemma_beyond_shrinks(
    m: Map<Seq<u8>, Seq<u8>>,
    prefix: Seq<u8>,
    cursor: Option<Seq<u8>>,
    page: Seq<(Seq<u8>, Seq<u8>)>,
)
    requires
        m.dom().finite(),
        page.len() > 0,
        forall|i: int|
            0 <= i < page.len() ==> m.contains_key((#[trigger] page[i]).0) && has_prefix(
                page[i].0,
                prefix,
            ) && (cursor matches Some(c) ==> lex_lt(c, page[i].0)),
        forall|i: int, j: int|
            0 <= i < j < page.len() ==> lex_lt(#[trigger] page[i].0, #[trigger] page[j].0),
    ensures
        beyond(m, prefix, Some(page.last().0)).len() < beyond(m, prefix, cursor).len(),
{
    let b0 = beyond(m, prefix, cursor);
    let b1 = beyond(m, prefix, Some(page.last().0));
    assert(b0.finite()) by {
        vstd::set_lib::lemma_len_subset(b0, m.dom());
    }
    assert(b1.subset_of(b0)) by {
        assert forall|k: Seq<u8>| #[trigger] b1.contains(k) implies b0.contains(k) by {
            assert(lex_lt(page.last().0, k));
            if cursor is Some {
                assert(lex_lt(cursor.unwrap(), page.last().0));
                crate::order::lemma_lex_lt_le_trans(cursor.unwrap(), page.last().0, k);
                if cursor.unwrap() == k {
                    lemma_lex_antisym(cursor.unwrap(), page.last().0);
                }
            }
        }
    }
    let w = page.last().0;
    assert(b0.contains(w));
    assert(!b1.contains(w));
    assert(b1.subset_of(b0.remove(w)));
    vstd::set_lib::lemma_len_subset(b1, b0.remove(w));
    assert(b0.remove(w).len() == b0.len() - 1);
}

} // verus!
