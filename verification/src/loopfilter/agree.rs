//! Filtering the lines of an edge at once is filtering them one after the other.
use crate::loopfilter::edge::{
    deciding_taps, edge_filtered, edge_readable, filter_mask, filtered_tap, lemma_mask_local,
    lemma_new_taps_local, lemma_put_taps_hit, lemma_put_taps_len, lemma_put_taps_miss, lemma_taps_inside, line_readable, lines_filtered,
    needed_taps, new_taps, place, put_taps, taps_at, EdgeParams,
};
use crate::loopfilter::effect::{in_reach, rewritten_taps, undisturbed};
use crate::loopfilter::wasm::{
    block_inside, cols_stored, edge_filtered_at_once, first_written, lemma_cols_inside, line_tap,
    loaded_taps, rows_stored, tap_stride,
};
use crate::picture::put_row;
use vstd::prelude::*;

verus! {

/// The position of the tap at index `j` of line `l`.
pub open spec fn tap_position(base: int, stridea: int, strideb: int, l: int, j: int) -> int {
    base + l * stridea + (j - 7) * strideb
}

/// The length of a loaded line up to the last tap that may be rewritten: the least distance of two lines
/// in one row at which neither rewrites a tap of the other.
pub open spec fn line_span(wd: int) -> int {
    loaded_taps(wd) + 7 - first_written(wd)
}

/// Whether no line has a tap that filtering another one may rewrite.
pub open spec fn lines_apart(stridea: int, strideb: int, wd: int) -> bool {
    ||| stridea == 1 && (strideb >= 4 || strideb <= -4)
    ||| strideb == 1 && (stridea >= line_span(wd) || stridea <= -line_span(wd))
}

/// Whether a filter of width `wd` can run in lanes.
pub open spec fn simd_width(wd: int) -> bool {
    wd == 4 || wd == 6 || wd == 8 || wd == 16
}

/// A tap and a tap that may be rewritten are one tap where they are at one position.
proof fn lemma_taps_apart(
    base: int,
    stridea: int,
    strideb: int,
    wd: int,
    l: int,
    j: int,
    m: int,
    k: int,
)
    requires
        simd_width(wd),
        lines_apart(stridea, strideb, wd),
        0 <= l < 4,
        0 <= m < 4,
        7 - loaded_taps(wd) <= j < 7 + loaded_taps(wd),
        first_written(wd) <= k < 14 - first_written(wd),
        tap_position(base, stridea, strideb, l, j) == tap_position(base, stridea, strideb, m, k),
    ensures
        l == m,
        j == k,
{
    if stridea == 1 && (strideb >= 4 || strideb <= -4) {
        assert(l - m == (k - j) * strideb) by (nonlinear_arith)
            requires
                base + l * 1 + (j - 7) * strideb == base + m * 1 + (k - 7) * strideb,
        ;
        let d = k - j;
        assert(d == 0) by (nonlinear_arith)
            requires
                strideb >= 4 || strideb <= -4,
                -3 <= d * strideb <= 3,
        ;
    } else {
        assert(k - j == (l - m) * stridea) by (nonlinear_arith)
            requires
                base + l * stridea + (j - 7) * 1 == base + m * stridea + (k - 7) * 1,
        ;
        let d = l - m;
        let w = line_span(wd);
        assert(d == 0) by (nonlinear_arith)
            requires
                w > 0,
                stridea >= w || stridea <= -w,
                -w < d * stridea < w,
        ;
    }
}

/// The taps that a filter rewrites are among those that are written back.
proof fn lemma_new_taps_extent(t: Seq<int>, ep: EdgeParams)
    requires
        simd_width(ep.wd),
    ensures
        first_written(ep.wd) <= new_taps(t, ep).0,
        new_taps(t, ep).0 + new_taps(t, ep).1.len() <= 14 - first_written(ep.wd),
        7 - loaded_taps(ep.wd) <= first_written(ep.wd),
{
}

/// Each tap of the four lines lies in the plane.
proof fn lemma_tap_inside(
    len: int,
    base: int,
    stridea: int,
    strideb: int,
    wd: int,
    l: int,
    j: int,
)
    requires
        simd_width(wd),
        block_inside(len, base, stridea, strideb, wd),
        strideb == tap_stride(stridea, strideb),
        0 <= l < 4,
        7 - loaded_taps(wd) <= j < 7 + loaded_taps(wd),
    ensures
        0 <= tap_position(base, stridea, strideb, l, j) < len,
{
    if stridea == 1 {
        lemma_taps_inside(len - 3, base, strideb, loaded_taps(wd), j - 7);
    } else {
        lemma_cols_inside(len, base, stridea, loaded_taps(wd), l);
    }
}

/// Whether `after` is `data` with the first `n` lines filtered.
spec fn lines_done(
    data: Seq<int>,
    after: Seq<int>,
    base: int,
    stridea: int,
    strideb: int,
    ep: EdgeParams,
    n: int,
) -> bool {
    &&& after.len() == data.len()
    &&& forall|l: int, j: int|
        0 <= l < n && first_written(ep.wd) <= j < 14 - first_written(ep.wd)
            ==> after[#[trigger] tap_position(base, stridea, strideb, l, j)] == filtered_tap(
            taps_at(data, base + l * stridea, strideb),
            ep,
            j,
        )
    &&& forall|x: int|
        0 <= x < data.len() && (forall|l: int, j: int|
            0 <= l < n && first_written(ep.wd) <= j < 14 - first_written(ep.wd) ==> x
                != #[trigger] tap_position(base, stridea, strideb, l, j)) ==> #[trigger] after[x]
            == data[x]
}

proof fn lemma_lines_done(
    data: Seq<int>,
    base: int,
    stridea: int,
    strideb: int,
    ep: EdgeParams,
    n: nat,
)
    requires
        n <= 4,
        simd_width(ep.wd),
        lines_apart(stridea, strideb, ep.wd),
        strideb == tap_stride(stridea, strideb),
        block_inside(data.len() as int, base, stridea, strideb, ep.wd),
    ensures
        lines_done(
            data,
            lines_filtered(data, base, stridea, strideb, ep, n),
            base,
            stridea,
            strideb,
            ep,
            n as int,
        ),
    decreases n,
{
    if n > 0 {
        let m = n - 1;
        let before = lines_filtered(data, base, stridea, strideb, ep, m as nat);
        lemma_lines_done(data, base, stridea, strideb, ep, m as nat);
        let at = base + m * stridea;
        let t = taps_at(data, at, strideb);
        let u = taps_at(before, at, strideb);
        let half = loaded_taps(ep.wd);
        let lo = first_written(ep.wd);
        lemma_new_taps_extent(t, ep);
        lemma_line_unchanged(data, before, base, stridea, strideb, ep, m);
        let (first, values) = new_taps(t, ep);
        let after = put_taps(before, at, strideb, first, values);
        assert(after == lines_filtered(data, base, stridea, strideb, ep, n));
        lemma_put_taps_len(before, at, strideb, first, values);
        assert forall|l: int, j: int| 0 <= l < n && lo <= j < 14 - lo implies after[
            #[trigger] tap_position(base, stridea, strideb, l, j)
        ] == filtered_tap(taps_at(data, base + l * stridea, strideb), ep, j) by {
            let x = tap_position(base, stridea, strideb, l, j);
            lemma_tap_inside(data.len() as int, base, stridea, strideb, ep.wd, l, j);
            if l == m && first <= j < first + values.len() {
                assert(x == place(at, strideb, first + (j - first)));
                lemma_put_taps_hit(before, at, strideb, first, values, j - first);
            } else {
                assert forall|k: int| first <= k < first + values.len() implies x != #[trigger] place(
                    at,
                    strideb,
                    k,
                ) by {
                    assert(place(at, strideb, k) == tap_position(base, stridea, strideb, m, k));
                    if x == place(at, strideb, k) {
                        lemma_taps_apart(base, stridea, strideb, ep.wd, l, j, m, k);
                    }
                }
                lemma_put_taps_miss(before, at, strideb, first, values, x);
                if l == m {
                    assert(u[j] == t[j]);
                    assert(before[x] == u[j]);
                }
            }
        }
        assert forall|x: int|
            0 <= x < data.len() && (forall|l: int, j: int|
                0 <= l < n && lo <= j < 14 - lo ==> x != #[trigger] tap_position(
                    base,
                    stridea,
                    strideb,
                    l,
                    j,
                )) implies #[trigger] after[x] == data[x] by {
            assert forall|k: int| first <= k < first + values.len() implies x != #[trigger] place(
                at,
                strideb,
                k,
            ) by {
                assert(x != tap_position(base, stridea, strideb, m, k));
            }
            lemma_put_taps_miss(before, at, strideb, first, values, x);
            assert(before[x] == data[x]);
        }
    }
}

/// Filtering the earlier lines leaves the taps of the next one as they were.
proof fn lemma_line_unchanged(
    data: Seq<int>,
    before: Seq<int>,
    base: int,
    stridea: int,
    strideb: int,
    ep: EdgeParams,
    m: int,
)
    requires
        0 <= m < 4,
        simd_width(ep.wd),
        lines_apart(stridea, strideb, ep.wd),
        strideb == tap_stride(stridea, strideb),
        block_inside(data.len() as int, base, stridea, strideb, ep.wd),
        lines_done(data, before, base, stridea, strideb, ep, m),
    ensures
        forall|j: int|
            7 - loaded_taps(ep.wd) <= j < 7 + loaded_taps(ep.wd) ==> #[trigger] taps_at(
                before,
                base + m * stridea,
                strideb,
            )[j] == taps_at(data, base + m * stridea, strideb)[j],
        filter_mask(taps_at(before, base + m * stridea, strideb), ep) == filter_mask(
            taps_at(data, base + m * stridea, strideb),
            ep,
        ),
        new_taps(taps_at(before, base + m * stridea, strideb), ep) == new_taps(
            taps_at(data, base + m * stridea, strideb),
            ep,
        ),
{
    let at = base + m * stridea;
    let t = taps_at(data, at, strideb);
    let u = taps_at(before, at, strideb);
    let half = loaded_taps(ep.wd);
    let lo = first_written(ep.wd);
    lemma_new_taps_extent(t, ep);
    assert forall|j: int| 7 - half <= j < 7 + half implies #[trigger] u[j] == t[j] by {
        let x = tap_position(base, stridea, strideb, m, j);
        lemma_tap_inside(data.len() as int, base, stridea, strideb, ep.wd, m, j);
        assert forall|l: int, k: int| 0 <= l < m && lo <= k < 14 - lo implies x
            != #[trigger] tap_position(base, stridea, strideb, l, k) by {
            if x == tap_position(base, stridea, strideb, l, k) {
                lemma_taps_apart(base, stridea, strideb, ep.wd, m, j, l, k);
            }
        }
        assert(before[x] == data[x]);
    }
    if ep.wd == 16 {
        assert(t =~= u);
    }
    lemma_mask_local(u, t, ep);
    lemma_new_taps_local(u, t, ep);
}

proof fn lemma_rows_done(data: Seq<int>, base: int, strideb: int, ep: EdgeParams, end: int)
    requires
        simd_width(ep.wd),
        lines_apart(1, strideb, ep.wd),
        strideb >= 4 || strideb <= -4,
        block_inside(data.len() as int, base, 1, strideb, ep.wd),
        first_written(ep.wd) <= end <= 14 - first_written(ep.wd),
    ensures
        rows_stored(data, base, strideb, ep, end).len() == data.len(),
        forall|l: int, j: int|
            0 <= l < 4 && first_written(ep.wd) <= j < end ==> rows_stored(
                data,
                base,
                strideb,
                ep,
                end,
            )[#[trigger] tap_position(base, 1, strideb, l, j)] == filtered_tap(
                taps_at(data, base + l * 1, strideb),
                ep,
                j,
            ),
        forall|x: int|
            0 <= x < data.len() && (forall|l: int, j: int|
                0 <= l < 4 && first_written(ep.wd) <= j < end ==> x != #[trigger] tap_position(
                    base,
                    1,
                    strideb,
                    l,
                    j,
                )) ==> #[trigger] rows_stored(data, base, strideb, ep, end)[x] == data[x],
    decreases end,
{
    let lo = first_written(ep.wd);
    if end > lo {
        let before = rows_stored(data, base, strideb, ep, end - 1);
        lemma_rows_done(data, base, strideb, ep, end - 1);
        let at = base + (end - 1 - 7) * strideb;
        let row = Seq::new(4, |l: int| line_tap(data, base, 1, strideb, ep, l, end - 1));
        let after = put_row(before, at, row);
        assert(after == rows_stored(data, base, strideb, ep, end));
        assert forall|l: int, j: int| 0 <= l < 4 && lo <= j < end implies after[
            #[trigger] tap_position(base, 1, strideb, l, j)
        ] == filtered_tap(taps_at(data, base + l * 1, strideb), ep, j) by {
            let x = tap_position(base, 1, strideb, l, j);
            lemma_tap_inside(data.len() as int, base, 1, strideb, ep.wd, l, j);
            if j == end - 1 {
                assert(x == at + l);
                assert(after[x] == row[l]);
            } else if at <= x < at + 4 {
                let m = x - at;
                assert(x == tap_position(base, 1, strideb, m, end - 1));
                lemma_taps_apart(base, 1, strideb, ep.wd, l, j, m, end - 1);
            }
        }
        assert forall|x: int|
            0 <= x < data.len() && (forall|l: int, j: int|
                0 <= l < 4 && lo <= j < end ==> x != #[trigger] tap_position(
                    base,
                    1,
                    strideb,
                    l,
                    j,
                )) implies #[trigger] after[x] == data[x] by {
            if at <= x < at + 4 {
                assert(x == tap_position(base, 1, strideb, x - at, end - 1));
            }
            assert(before[x] == data[x]);
        }
    }
}

proof fn lemma_cols_done(data: Seq<int>, base: int, stridea: int, ep: EdgeParams, n: nat)
    requires
        n <= 4,
        simd_width(ep.wd),
        stridea != 1,
        lines_apart(stridea, 1, ep.wd),
        block_inside(data.len() as int, base, stridea, 1, ep.wd),
    ensures
        lines_done(
            data,
            cols_stored(data, base, stridea, ep, n),
            base,
            stridea,
            1,
            ep,
            n as int,
        ),
    decreases n,
{
    let lo = first_written(ep.wd);
    if n > 0 {
        let m = n - 1;
        let before = cols_stored(data, base, stridea, ep, m as nat);
        lemma_cols_done(data, base, stridea, ep, m as nat);
        let after = cols_stored(data, base, stridea, ep, n);
        let at = base + m * stridea;
        let row = Seq::new(
            (14 - 2 * lo) as nat,
            |k: int| filtered_tap(taps_at(data, at, 1), ep, lo + k),
        );
        assert(after == put_row(before, at + lo - 7, row));
        assert forall|l: int, j: int| 0 <= l < n && lo <= j < 14 - lo implies after[
            #[trigger] tap_position(base, stridea, 1, l, j)
        ] == filtered_tap(taps_at(data, base + l * stridea, 1), ep, j) by {
            let x = tap_position(base, stridea, 1, l, j);
            lemma_tap_inside(data.len() as int, base, stridea, 1, ep.wd, l, j);
            if l == m {
                assert(after[x] == row[j - lo]);
            } else if at + lo - 7 <= x < at + lo - 7 + row.len() {
                let k = x - at + 7;
                assert(x == tap_position(base, stridea, 1, m, k));
                lemma_taps_apart(base, stridea, 1, ep.wd, l, j, m, k);
            }
        }
        assert forall|x: int|
            0 <= x < data.len() && (forall|l: int, j: int|
                0 <= l < n && lo <= j < 14 - lo ==> x != #[trigger] tap_position(
                    base,
                    stridea,
                    1,
                    l,
                    j,
                )) implies #[trigger] after[x] == data[x] by {
            if at + lo - 7 <= x < at + lo - 7 + row.len() {
                assert(x == tap_position(base, stridea, 1, m, x - at + 7));
            }
            assert(before[x] == data[x]);
        }
    }
}

/// Where no line has a tap that filtering another one may rewrite, filtering the four lines of an edge at once gives the same
/// plane, bit for bit, as filtering them one after the other; and the taps that are loaded are all that
/// the latter looks at.
pub proof fn at_once_is_one_by_one(
    data: Seq<int>,
    base: int,
    stridea: int,
    strideb: int,
    ep: EdgeParams,
)
    requires
        simd_width(ep.wd),
        lines_apart(stridea, strideb, ep.wd),
        block_inside(data.len() as int, base, stridea, strideb, ep.wd),
    ensures
        edge_readable(data, base, stridea, strideb, ep),
        edge_filtered_at_once(data, base, stridea, strideb, ep) == edge_filtered(
            data,
            base,
            stridea,
            strideb,
            ep,
        ),
{
    let lo = first_written(ep.wd);
    let one = edge_filtered(data, base, stridea, strideb, ep);
    let all = edge_filtered_at_once(data, base, stridea, strideb, ep);
    lemma_lines_done(data, base, stridea, strideb, ep, 4);
    if stridea == 1 {
        lemma_rows_done(data, base, strideb, ep, 14 - lo);
    } else {
        lemma_cols_done(data, base, stridea, ep, 4);
    }
    assert(lines_done(data, all, base, stridea, strideb, ep, 4));
    assert forall|x: int| 0 <= x < data.len() implies one[x] == all[x] by {
        if exists|l: int, j: int|
            0 <= l < 4 && lo <= j < 14 - lo && x == #[trigger] tap_position(
                base,
                stridea,
                strideb,
                l,
                j,
            ) {
        } else {
            assert(one[x] == data[x]);
            assert(all[x] == data[x]);
        }
    }
    assert(one =~= all);
    assert forall|n: nat| n < 4 implies line_readable(
        #[trigger] lines_filtered(data, base, stridea, strideb, ep, n),
        base + n * stridea,
        strideb,
        ep,
    ) by {
        let before = lines_filtered(data, base, stridea, strideb, ep, n);
        lemma_lines_done(data, base, stridea, strideb, ep, n);
        let d = deciding_taps(ep.wd);
        let len = data.len() as int;
        let half = loaded_taps(ep.wd);
        assert(d <= half);
        lemma_tap_inside(len, base, stridea, strideb, ep.wd, n as int, 7 - d);
        lemma_tap_inside(len, base, stridea, strideb, ep.wd, n as int, 7 + d - 1);
        lemma_tap_inside(len, base, stridea, strideb, ep.wd, n as int, 7 - half);
        lemma_tap_inside(len, base, stridea, strideb, ep.wd, n as int, 7 + half - 1);
        let at = base + n * stridea;
        assert((7 - d - 7) * strideb == -(d * strideb)) by (nonlinear_arith);
        assert((7 - half - 7) * strideb == -(half * strideb)) by (nonlinear_arith);
    }
}

/// Lines that are apart do not disturb each other.
pub proof fn lines_apart_are_undisturbed(base: int, stridea: int, strideb: int, wd: int, m: int)
    requires
        simd_width(wd),
        lines_apart(stridea, strideb, wd),
        0 <= m < 4,
    ensures
        undisturbed(base, stridea, strideb, wd, m),
{
    assert forall|l: int, j: int|
        0 <= l < 4 && l != m && 7 - needed_taps(wd) <= j < 7 + needed_taps(wd) implies !in_reach(
        #[trigger] place(base + m * stridea, strideb, j),
        base + #[trigger] (l * stridea),
        strideb,
        wd,
    ) by {
        let x = place(base + m * stridea, strideb, j);
        let at = base + l * stridea;
        if in_reach(x, at, strideb, wd) {
            let k = choose|k: int|
                7 - rewritten_taps(wd) <= k < 7 + rewritten_taps(wd) && x == #[trigger] place(
                    at,
                    strideb,
                    k,
                );
            lemma_taps_apart(base, stridea, strideb, wd, m, j, l, k);
        }
    }
}

} // verus!
