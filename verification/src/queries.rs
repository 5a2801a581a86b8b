//! The query layer: point-in-time lookup and keyset pagination.
//!
//! List endpoints never paginate by offset. A page is the first `count`
//! rows strictly beyond the `(valid_from, entity_id)` pivot in the
//! requested direction, and the next pivot is the key of the last row
//! returned; an empty page means there is no next page.

use crate::json::{key_bytes, lemma_lex_lt_total, lemma_lex_lt_trans, lex_lt, str_bytes_lt};
use crate::token::{bytes_to_string_lossy, lossy_utf8_of};
use crate::versions::Version;
use vstd::prelude::*;
use vstd::string::StringSliceAdditionalSpecFns;

verus! {

/// Direction of a list scan.
#[derive(Clone, Copy, Debug, PartialEq, Eq, Structural)]
pub enum SortOrder {
    Asc,
    Desc,
}

impl Default for SortOrder {
    /// Lists are ascending unless a direction is asked for.
    fn default() -> (r: SortOrder)
        ensures
            r == SortOrder::Asc,
    {
        SortOrder::Asc
    }
}

/// One version row of a list query: a version joined with its entity id.
pub struct VersionRow {
    pub entity_id: String,
    pub valid_from: i64,
    pub valid_to: Option<i64>,
    pub hash: u128,
}

/// The keyset key of a row.
pub open spec fn row_key(r: VersionRow) -> (i64, Seq<char>) {
    (r.valid_from, r.entity_id@)
}

/// Strict order on keys: by timestamp, ties broken by the UTF-8 bytes of
/// the entity id.
pub open spec fn key_lt(a: (i64, Seq<char>), b: (i64, Seq<char>)) -> bool {
    a.0 < b.0 || (a.0 == b.0 && lex_lt(key_bytes(a.1), key_bytes(b.1)))
}

/// `b` lies strictly beyond `a` in the requested direction.
pub open spec fn dir_lt(a: (i64, Seq<char>), b: (i64, Seq<char>), order: SortOrder) -> bool {
    match order {
        SortOrder::Asc => key_lt(a, b),
        SortOrder::Desc => key_lt(b, a),
    }
}

/// Rows are strictly sorted in the requested direction.
pub open spec fn sorted_rows(rows: Seq<VersionRow>, order: SortOrder) -> bool {
    forall|i: int, j: int|
        0 <= i < j < rows.len() ==> dir_lt(row_key(rows[i]), row_key(rows[j]), order)
}

/// The rows that lie strictly beyond the pivot, in stored order. With no
/// pivot, all rows.
pub open spec fn remaining(
    rows: Seq<VersionRow>,
    pivot: Option<(i64, Seq<char>)>,
    order: SortOrder,
) -> Seq<VersionRow>
    decreases rows.len(),
{
    if rows.len() == 0 {
        Seq::empty()
    } else {
        let rest = remaining(rows.drop_first(), pivot, order);
        if pivot is None || dir_lt(pivot->0, row_key(rows[0]), order) {
            seq![rows[0]] + rest
        } else {
            rest
        }
    }
}

/// The first `n` rows, or all of them if fewer.
pub open spec fn take_up_to(s: Seq<VersionRow>, n: int) -> Seq<VersionRow> {
    if n <= s.len() {
        s.take(n)
    } else {
        s
    }
}

/// The strict key order in a fixed direction is transitive and
/// irreflexive.
pub proof fn lemma_dir_lt_order(a: (i64, Seq<char>), b: (i64, Seq<char>), c: (i64, Seq<char>), order: SortOrder)
    ensures
        dir_lt(a, b, order) && dir_lt(b, c, order) ==> dir_lt(a, c, order),
        !dir_lt(a, a, order),
{
    if key_lt(a, b) && key_lt(b, c) {
        if a.0 == b.0 && b.0 == c.0 {
            lemma_lex_lt_trans(key_bytes(a.1), key_bytes(b.1), key_bytes(c.1));
        }
    }
    if key_lt(b, a) && key_lt(c, b) {
        if a.0 == b.0 && b.0 == c.0 {
            lemma_lex_lt_trans(key_bytes(c.1), key_bytes(b.1), key_bytes(a.1));
        }
    }
    lemma_lex_lt_total(key_bytes(a.1), key_bytes(a.1));
}

/// Index of the first row beyond the pivot.
pub open spec fn cut(rows: Seq<VersionRow>, pivot: Option<(i64, Seq<char>)>, order: SortOrder) -> int
    decreases rows.len(),
{
    if rows.len() == 0 {
        0
    } else if pivot is None || dir_lt(pivot->0, row_key(rows[0]), order) {
        0
    } else {
        1 + cut(rows.drop_first(), pivot, order)
    }
}

proof fn lemma_cut_bounds(rows: Seq<VersionRow>, pivot: Option<(i64, Seq<char>)>, order: SortOrder)
    ensures
        0 <= cut(rows, pivot, order) <= rows.len(),
        forall|i: int| 0 <= i < cut(rows, pivot, order) ==> !(pivot is None || dir_lt(
            pivot->0,
            row_key(#[trigger] rows[i]),
            order,
        )),
    decreases rows.len(),
{
    if rows.len() > 0 && !(pivot is None || dir_lt(pivot->0, row_key(rows[0]), order)) {
        lemma_cut_bounds(rows.drop_first(), pivot, order);
        let d = rows.drop_first();
        assert(forall|i: int| 0 <= i < d.len() ==> #[trigger] d[i] == rows[i + 1]);
        assert forall|i: int| 0 <= i < cut(rows, pivot, order) implies !(pivot is None || dir_lt(
            pivot->0,
            row_key(#[trigger] rows[i]),
            order,
        )) by {
            if i > 0 {
                assert(rows[i] == d[i - 1]);
            }
        }
    }
}

/// If every row is beyond the pivot, all rows remain.
proof fn lemma_remaining_all(rows: Seq<VersionRow>, pivot: Option<(i64, Seq<char>)>, order: SortOrder)
    requires
        forall|i: int| 0 <= i < rows.len() ==> (pivot is None || dir_lt(
            pivot->0,
            row_key(#[trigger] rows[i]),
            order,
        )),
    ensures
        remaining(rows, pivot, order) == rows,
    decreases rows.len(),
{
    if rows.len() > 0 {
        let d = rows.drop_first();
        assert(forall|i: int| 0 <= i < d.len() ==> #[trigger] d[i] == rows[i + 1]);
        lemma_remaining_all(d, pivot, order);
        assert(remaining(rows, pivot, order) =~= rows);
    }
}

/// On sorted rows, what lies beyond the pivot is exactly the suffix that
/// starts at the cut.
pub proof fn lemma_remaining_suffix(
    rows: Seq<VersionRow>,
    pivot: Option<(i64, Seq<char>)>,
    order: SortOrder,
)
    requires
        sorted_rows(rows, order),
    ensures
        remaining(rows, pivot, order) == rows.skip(cut(rows, pivot, order)),
    decreases rows.len(),
{
    lemma_cut_bounds(rows, pivot, order);
    if rows.len() == 0 {
        assert(remaining(rows, pivot, order) =~= rows.skip(0));
    } else if pivot is None || dir_lt(pivot->0, row_key(rows[0]), order) {
        assert forall|i: int| 0 <= i < rows.len() implies (pivot is None || dir_lt(
            pivot->0,
            row_key(#[trigger] rows[i]),
            order,
        )) by {
            if i > 0 && pivot is Some {
                lemma_dir_lt_order(pivot->0, row_key(rows[0]), row_key(rows[i]), order);
            }
        }
        lemma_remaining_all(rows, pivot, order);
        assert(rows.skip(0) =~= rows);
    } else {
        let d = rows.drop_first();
        assert(forall|i: int| 0 <= i < d.len() ==> #[trigger] d[i] == rows[i + 1]);
        assert(sorted_rows(d, order));
        lemma_cut_bounds(d, pivot, order);
        lemma_remaining_suffix(d, pivot, order);
        assert(d.skip(cut(d, pivot, order)) =~= rows.skip(1 + cut(d, pivot, order)));
    }
}

/// Pagination completeness: on sorted rows, one page takes the first
/// `count` rows beyond the pivot, and following the token of its last row
/// yields exactly the rows after the page. So successive pages together
/// visit every row beyond the initial pivot exactly once, and the scan
/// ends when a page comes back short.
pub proof fn lemma_pagination_complete(
    rows: Seq<VersionRow>,
    pivot: Option<(i64, Seq<char>)>,
    count: int,
    order: SortOrder,
)
    requires
        sorted_rows(rows, order),
        1 <= count,
        count < remaining(rows, pivot, order).len(),
    ensures
        ({
            let rem = remaining(rows, pivot, order);
            let page = rem.take(count);
            remaining(rows, Some(row_key(page.last())), order) == rem.skip(count)
        }),
{
    let rem = remaining(rows, pivot, order);
    let page = rem.take(count);
    let m = cut(rows, pivot, order);
    lemma_cut_bounds(rows, pivot, order);
    lemma_remaining_suffix(rows, pivot, order);
    assert(rem == rows.skip(m));
    assert(forall|i: int| 0 <= i < rem.len() ==> #[trigger] rem[i] == rows[m + i]);
    let k = row_key(page.last());
    assert(page.last() == rem[count - 1]);
    assert(k == row_key(rows[m + count - 1]));
    let m2 = cut(rows, Some(k), order);
    lemma_cut_bounds(rows, Some(k), order);
    lemma_remaining_suffix(rows, Some(k), order);
    assert forall|i: int| 0 <= i < m + count implies !dir_lt(
        k,
        row_key(#[trigger] rows[i]),
        order,
    ) by {
        if i < m + count - 1 {
            assert(dir_lt(row_key(rows[i]), k, order));
            if dir_lt(k, row_key(rows[i]), order) {
                lemma_dir_lt_order(k, row_key(rows[i]), k, order);
            }
        } else {
            lemma_dir_lt_order(k, k, k, order);
        }
    }
    assert(m2 >= m + count) by {
        if m2 < m + count {
            lemma_remaining_suffix(rows, Some(k), order);
            assert(remaining(rows, Some(k), order)[0] == rows[m2]);
            assert(dir_lt(k, row_key(rows[m2]), order)) by {
                if !(dir_lt(k, row_key(rows[m2]), order)) {
                    assert(rows.skip(m2).len() > 0);
                    assert(rows.skip(m2)[0] == rows[m2]);
                    lemma_remaining_nonadmitted_head(rows, Some(k), order, m2);
                }
            }
        }
    }
    assert(m2 <= m + count) by {
        if m2 > m + count {
            assert(!(dir_lt(k, row_key(rows[m + count]), order)));
            assert(dir_lt(k, row_key(rows[m + count]), order));
        }
    }
    assert(remaining(rows, Some(k), order) == rows.skip(m + count));
    assert(rem.skip(count) =~= rows.skip(m + count));
}

/// The row at the cut, if any, is itself beyond the pivot.
proof fn lemma_remaining_nonadmitted_head(
    rows: Seq<VersionRow>,
    pivot: Option<(i64, Seq<char>)>,
    order: SortOrder,
    c: int,
)
    requires
        c == cut(rows, pivot, order),
        c < rows.len(),
    ensures
        pivot is None || dir_lt(pivot->0, row_key(rows[c]), order),
    decreases rows.len(),
{
    if pivot is None || dir_lt(pivot->0, row_key(rows[0]), order) {
        assert(c == 0);
    } else {
        let d = rows.drop_first();
        assert(forall|i: int| 0 <= i < d.len() ==> #[trigger] d[i] == rows[i + 1]);
        lemma_cut_bounds(d, pivot, order);
        assert(c - 1 == cut(d, pivot, order));
        lemma_remaining_nonadmitted_head(d, pivot, order, c - 1);
        assert(d[c - 1] == rows[c]);
    }
}

/// Does this row lie strictly beyond the pivot in the requested direction?
pub fn row_beyond_pivot(row: &VersionRow, pivot_ts: i64, pivot_id: &str, order: SortOrder) -> (r:
    bool)
    ensures
        r == dir_lt((pivot_ts, pivot_id@), row_key(*row), order),
{
    match order {
        SortOrder::Asc => {
            if pivot_ts < row.valid_from {
                true
            } else if pivot_ts == row.valid_from {
                str_bytes_lt(pivot_id, row.entity_id.as_str())
            } else {
                false
            }
        },
        SortOrder::Desc => {
            if row.valid_from < pivot_ts {
                true
            } else if pivot_ts == row.valid_from {
                str_bytes_lt(row.entity_id.as_str(), pivot_id)
            } else {
                false
            }
        },
    }
}

/// A page of rows together with the pivot for the next page, if any.
pub struct PaginatedResult {
    pub items: Vec<VersionRow>,
    pub next_page: Option<(i64, String)>,
}

/// One page: the first `count` rows beyond the pivot, in the requested
/// direction. A full page carries the key of its last row as the pivot of
/// the next page; a short page is the last one and carries none.
pub fn versions_page(
    rows: Vec<VersionRow>,
    pivot: Option<(i64, String)>,
    count: usize,
    order: SortOrder,
) -> (r: PaginatedResult)
    ensures
        ({
            let gp = if pivot is Some {
                Some((((pivot->0).0), (pivot->0).1@))
            } else {
                None::<(i64, Seq<char>)>
            };
            let rem = remaining(rows@, gp, order);
            &&& r.items@ == take_up_to(rem, count as int)
            &&& (r.items@.len() < count || count == 0) ==> r.next_page is None
            &&& (r.items@.len() == count && count > 0) ==> (r.next_page matches Some(np) && np.0
                == r.items@.last().valid_from && np.1@ == r.items@.last().entity_id@)
        }),
{
    let ghost gp: Option<(i64, Seq<char>)> = if pivot is Some {
        Some(((pivot->0).0, (pivot->0).1@))
    } else {
        None
    };
    let ghost orig = rows@;
    let mut rest = rows;
    let mut items: Vec<VersionRow> = Vec::new();
    let mut i: usize = 0;
    let n0 = rest.len();
    proof {
        assert(n0 == orig.len());
        assert(orig.take(0) =~= Seq::<VersionRow>::empty());
        assert(remaining(Seq::<VersionRow>::empty(), gp, order) =~= Seq::<VersionRow>::empty());
        assert(orig.skip(0) =~= orig);
    }
    loop
        invariant
            orig.len() <= usize::MAX,
            i <= orig.len(),
            rest@ == orig.skip(i as int),
            items@.len() <= count,
            gp == if pivot is Some {
                Some((((pivot->0).0), (pivot->0).1@))
            } else {
                None::<(i64, Seq<char>)>
            },
            items@ == take_up_to(remaining(orig.take(i as int), gp, order), count as int),
        ensures
            items@ == take_up_to(remaining(orig, gp, order), count as int),
        decreases orig.len() - i,
    {
        if rest.len() == 0 {
            proof {
                assert(i == orig.len());
                assert(orig.take(orig.len() as int) =~= orig);
            }
            break;
        }
        if items.len() >= count {
            proof {
                lemma_remaining_prefix_stable(orig, gp, order, i as int, count as int);
                assert(take_up_to(remaining(orig.take(i as int), gp, order), count as int)
                    =~= take_up_to(remaining(orig, gp, order), count as int));
            }
            break;
        }
        let row = rest.remove(0);
        proof {
            assert(row == orig[i as int]);
            assert(rest@ =~= orig.skip(i + 1));
        }
        let is_beyond: bool = match &pivot {
            Some(p) => {
                let b = row_beyond_pivot(&row, p.0, p.1.as_str(), order);
                proof {
                    assert(*p == pivot->0);
                    assert(b == dir_lt(gp->0, row_key(orig[i as int]), order));
                }
                b
            },
            None => true,
        };
        proof {
            lemma_remaining_push(orig.take(i as int), orig[i as int], gp, order);
            assert(orig.take(i + 1) =~= orig.take(i as int).push(orig[i as int]));
        }
        if is_beyond {
            items.push(row);
            proof {
                let prev = remaining(orig.take(i as int), gp, order);
                assert(prev.len() < count);
                assert(take_up_to(prev, count as int) =~= prev);
                assert(remaining(orig.take(i + 1), gp, order) =~= prev.push(orig[i as int]));
                let now = remaining(orig.take(i + 1), gp, order);
                assert(now.len() <= count);
                assert(items@ =~= take_up_to(now, count as int));
            }
        } else {
            proof {
                assert(take_up_to(remaining(orig.take(i + 1), gp, order), count as int)
                    =~= take_up_to(remaining(orig.take(i as int), gp, order), count as int));
            }
        }
        i = i + 1;
    }
    if items.len() == count && count > 0 {
        let last = &items[items.len() - 1];
        let np = Some((last.valid_from, clone_string(&last.entity_id)));
        PaginatedResult { items, next_page: np }
    } else {
        PaginatedResult { items, next_page: None }
    }
}

/// Appending a row extends the remainder by that row if it is beyond the
/// pivot.
proof fn lemma_remaining_push(
    rows: Seq<VersionRow>,
    x: VersionRow,
    pivot: Option<(i64, Seq<char>)>,
    order: SortOrder,
)
    ensures
        remaining(rows.push(x), pivot, order) == if pivot is None || dir_lt(
            pivot->0,
            row_key(x),
            order,
        ) {
            remaining(rows, pivot, order).push(x)
        } else {
            remaining(rows, pivot, order)
        },
    decreases rows.len(),
{
    let p = rows.push(x);
    if rows.len() == 0 {
        assert(p.drop_first() =~= Seq::<VersionRow>::empty());
        assert(p[0] == x);
        assert(remaining(Seq::<VersionRow>::empty(), pivot, order) =~= Seq::<VersionRow>::empty());
        if pivot is None || dir_lt(pivot->0, row_key(x), order) {
            assert(remaining(p, pivot, order) =~= remaining(rows, pivot, order).push(x));
        } else {
            assert(remaining(p, pivot, order) =~= remaining(rows, pivot, order));
        }
    } else {
        assert(p[0] == rows[0]);
        assert(p.drop_first() =~= rows.drop_first().push(x));
        lemma_remaining_push(rows.drop_first(), x, pivot, order);
        if pivot is None || dir_lt(pivot->0, row_key(x), order) {
            assert(remaining(p, pivot, order) =~= remaining(rows, pivot, order).push(x));
        }
    }
}

/// Once a prefix already yields `count` rows, the rest of the scan cannot
/// change the page.
proof fn lemma_remaining_prefix_stable(
    rows: Seq<VersionRow>,
    pivot: Option<(i64, Seq<char>)>,
    order: SortOrder,
    i: int,
    count: int,
)
    requires
        0 <= i <= rows.len(),
        0 <= count <= remaining(rows.take(i), pivot, order).len(),
    ensures
        count <= remaining(rows, pivot, order).len(),
        remaining(rows.take(i), pivot, order).take(count) == remaining(rows, pivot, order).take(
            count,
        ),
    decreases rows.len() - i,
{
    if i < rows.len() {
        lemma_remaining_push(rows.take(i), rows[i], pivot, order);
        assert(rows.take(i + 1) =~= rows.take(i).push(rows[i]));
        lemma_remaining_prefix_stable(rows, pivot, order, i + 1, count);
        assert(remaining(rows.take(i), pivot, order).take(count) =~= remaining(
            rows.take(i + 1),
            pivot,
            order,
        ).take(count));
    } else {
        assert(rows.take(i) =~= rows);
    }
}

/// A copy of a string with the same characters.
pub fn clone_string(s: &String) -> (r: String)
    ensures
        r@ == s@,
{
    s.clone()
}

/// The single version whose interval contains `t`: `valid_from <= t` and
/// `t` before the end, an open version reaching forever.
pub open spec fn covers(v: Version, t: i64) -> bool {
    v.valid_from <= t && (v.valid_to matches Some(e) ==> t < e)
}

/// Point-in-time read over one entity's timeline: the first version whose
/// interval contains `t`, scanning in order. On a well-formed timeline the
/// intervals are disjoint, so the match is unique.
pub fn get_entity_at(timeline: &Vec<Version>, t: i64) -> (r: Option<Version>)
    ensures
        r matches Some(v) ==> exists|i: int|
            0 <= i < timeline@.len() && timeline@[i] == v && covers(v, t),
        r is None ==> forall|i: int| 0 <= i < timeline@.len() ==> !covers(
            #[trigger] timeline@[i],
            t,
        ),
{
    let mut i: usize = 0;
    while i < timeline.len()
        invariant
            i <= timeline@.len(),
            forall|k: int| 0 <= k < i ==> !covers(#[trigger] timeline@[k], t),
        decreases timeline@.len() - i,
    {
        let v = timeline[i];
        let ends_after = match v.valid_to {
            Some(e) => t < e,
            None => true,
        };
        if v.valid_from <= t && ends_after {
            return Some(v);
        }
        i = i + 1;
    }
    None
}

/// The open version of a timeline, if any: the fast path for reads of the
/// current state.
pub fn get_latest(timeline: &Vec<Version>) -> (r: Option<Version>)
    ensures
        timeline@.len() == 0 ==> r is None,
        timeline@.len() > 0 ==> r == Some(timeline@.last()),
{
    if timeline.len() == 0 {
        None
    } else {
        Some(timeline[timeline.len() - 1])
    }
}

/// Clamp a requested page size: games default to 100, everything else to
/// 1000, and no request may exceed 1000.
pub fn clamp_count(requested: Option<u64>, is_game_kind: bool) -> (r: u64)
    ensures
        requested is None && is_game_kind ==> r == 100,
        requested is None && !is_game_kind ==> r == 1000,
        requested matches Some(c) ==> r == if c <= 1000 {
            c
        } else {
            1000u64
        },
{
    match requested {
        Some(c) => if c <= 1000 {
            c
        } else {
            1000
        },
        None => if is_game_kind {
            100
        } else {
            1000
        },
    }
}

/// Index of the first comma of a byte string, or its length if none.
pub open spec fn first_comma(b: Seq<u8>) -> int
    decreases b.len(),
{
    if b.len() == 0 {
        0
    } else if b[0] == 44 {
        0
    } else {
        1 + first_comma(b.drop_first())
    }
}

proof fn lemma_first_comma_bounds(b: Seq<u8>)
    ensures
        0 <= first_comma(b) <= b.len(),
        first_comma(b) < b.len() ==> b[first_comma(b)] == 44,
        forall|q: int| 0 <= q < first_comma(b) ==> b[q] != 44,
    decreases b.len(),
{
    if b.len() > 0 && b[0] != 44 {
        let d = b.drop_first();
        assert(forall|q: int| 0 <= q < d.len() ==> #[trigger] d[q] == b[q + 1]);
        lemma_first_comma_bounds(d);
        assert forall|q: int| 0 <= q < first_comma(b) implies b[q] != 44 by {
            if q > 0 {
                assert(b[q] == d[q - 1]);
            }
        }
    }
}

/// The comma-separated fields of a byte string: an empty string is one
/// empty field, and every comma separates two fields.
pub open spec fn csv_segments(b: Seq<u8>) -> Seq<Seq<u8>>
    decreases b.len(),
    via csv_segments_decreases
{
    let p = first_comma(b);
    if p >= b.len() {
        seq![b]
    } else {
        seq![b.take(p)] + csv_segments(b.skip(p + 1))
    }
}

#[via_fn]
proof fn csv_segments_decreases(b: Seq<u8>) {
    lemma_first_comma_bounds(b);
}

/// Split a comma-separated id list into its fields, as the list
/// endpoints read the `id` parameter.
pub fn split_csv(s: &str) -> (r: Vec<String>)
    ensures
        r@.len() == csv_segments(s.spec_bytes()).len(),
        forall|k: int|
            0 <= k < r@.len() ==> ((#[trigger] r@[k])@ == lossy_utf8_of(
                csv_segments(s.spec_bytes())[k],
            ) && (vstd::utf8::valid_utf8(csv_segments(s.spec_bytes())[k]) ==> r@[k]@
                == vstd::utf8::decode_utf8(csv_segments(s.spec_bytes())[k]))),
{
    let b = s.as_bytes();
    let n = b.len();
    let mut out: Vec<String> = Vec::new();
    let mut seg_start: usize = 0;
    let mut q: usize = 0;
    proof {
        assert(b@.skip(0) =~= b@);
    }
    loop
        invariant
            n == b@.len(),
            b@ == s.spec_bytes(),
            seg_start <= q <= n,
            forall|t: int| seg_start <= t < q ==> b@[t] != 44,
            csv_segments(b@).len() == out@.len() + csv_segments(b@.skip(seg_start as int)).len(),
            forall|k: int|
                0 <= k < csv_segments(b@.skip(seg_start as int)).len() ==> csv_segments(
                    b@,
                )[out@.len() + k] == #[trigger] csv_segments(b@.skip(seg_start as int))[k],
            forall|k: int|
                0 <= k < out@.len() ==> ((#[trigger] out@[k])@ == lossy_utf8_of(
                    csv_segments(b@)[k],
                ) && (vstd::utf8::valid_utf8(csv_segments(b@)[k]) ==> out@[k]@
                    == vstd::utf8::decode_utf8(csv_segments(b@)[k]))),
        ensures
            q == n,
            seg_start <= n,
            forall|t: int| seg_start <= t < n ==> b@[t] != 44,
            csv_segments(b@).len() == out@.len() + csv_segments(b@.skip(seg_start as int)).len(),
            forall|k: int|
                0 <= k < csv_segments(b@.skip(seg_start as int)).len() ==> csv_segments(
                    b@,
                )[out@.len() + k] == #[trigger] csv_segments(b@.skip(seg_start as int))[k],
            forall|k: int|
                0 <= k < out@.len() ==> ((#[trigger] out@[k])@ == lossy_utf8_of(
                    csv_segments(b@)[k],
                ) && (vstd::utf8::valid_utf8(csv_segments(b@)[k]) ==> out@[k]@
                    == vstd::utf8::decode_utf8(csv_segments(b@)[k]))),
        decreases n - q,
    {
        if q >= n {
            break;
        }
        if b[q] == 44 {
            let ghost tail = b@.skip(seg_start as int);
            proof {
                lemma_first_comma_bounds(tail);
                assert(forall|t: int| 0 <= t < tail.len() ==> #[trigger] tail[t] == b@[
                    seg_start + t]);
                assert(tail[q - seg_start] == 44);
                assert(first_comma(tail) == q - seg_start) by {
                    if first_comma(tail) < q - seg_start {
                        assert(b@[seg_start + first_comma(tail)] != 44);
                        assert(tail[first_comma(tail)] == 44);
                    }
                    if first_comma(tail) > q - seg_start {
                        assert(tail[q - seg_start] != 44);
                    }
                }
                assert(tail.take(q - seg_start) =~= b@.subrange(seg_start as int, q as int));
                assert(tail.skip(q - seg_start + 1) =~= b@.skip(q + 1));
                assert(csv_segments(tail)[0] == tail.take(q - seg_start));
                assert(csv_segments(b@)[out@.len() as int] == csv_segments(tail)[0]);
            }
            let seg = vstd::slice::slice_subrange(b, seg_start, q);
            let text = bytes_to_string_lossy(seg);
            let ghost before = out@;
            out.push(text);
            proof {
                assert(csv_segments(tail) == seq![
                    b@.subrange(seg_start as int, q as int),
                ] + csv_segments(b@.skip(q + 1)));
                assert(csv_segments(b@)[before.len() as int] == b@.subrange(
                    seg_start as int,
                    q as int,
                ));
                assert forall|k: int|
                    0 <= k < csv_segments(b@.skip(q + 1)).len() implies csv_segments(b@)[out@.len()
                    + k] == #[trigger] csv_segments(b@.skip(q + 1))[k] by {
                    assert(csv_segments(tail)[1 + k] == csv_segments(b@.skip(q + 1))[k]);
                }
            }
            seg_start = q + 1;
        }
        q = q + 1;
    }
    let ghost tail = b@.skip(seg_start as int);
    proof {
        lemma_first_comma_bounds(tail);
        assert(forall|t: int| 0 <= t < tail.len() ==> #[trigger] tail[t] == b@[seg_start + t]);
        if first_comma(tail) < tail.len() {
            assert(tail[first_comma(tail)] == 44);
            assert(b@[seg_start + first_comma(tail)] != 44);
        }
        assert(csv_segments(tail) == seq![tail]);
        assert(csv_segments(tail)[0] == tail);
        assert(csv_segments(b@)[out@.len() as int] == csv_segments(tail)[0]);
        assert(tail =~= b@.subrange(seg_start as int, n as int));
    }
    let seg = vstd::slice::slice_subrange(b, seg_start, n);
    let text = bytes_to_string_lossy(seg);
    out.push(text);
    out
}

} // verus!
