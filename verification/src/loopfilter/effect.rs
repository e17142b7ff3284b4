//! What deblocking changes and what it leaves alone.
use crate::arith::abs;
use crate::loopfilter::edge::{
    deciding_taps, edge_filter, edge_filtered, edge_readable, filter_mask, filtered_tap,
    filtered_taps_are_pixels, held, lemma_lines_filtered_len, lemma_new_taps_local,
    lemma_put_taps_hit, lemma_put_taps_miss, lemma_taps_inside, lemma_wide16_range,
    lemma_wide6_range, lemma_wide8_range, line_filtered, line_readable, lines_filtered, narrow_outer,
    narrow_p, narrow_q, needed_taps, new_taps, p, place, put_taps, q, taps_at, taps_inside, wide16,
    wide6, wide8, EdgeParams,
};
use crate::loopfilter::superblock::SbEdges;
use vstd::prelude::*;

verus! {

/// How many taps on each side of the edge a filter of width `wd` may rewrite.
pub open spec fn rewritten_taps(wd: int) -> int {
    if wd >= 16 {
        6
    } else if wd >= 8 {
        3
    } else {
        2
    }
}

/// Whether `x` is the position of a tap that filtering the line at `base` may rewrite.
pub open spec fn in_reach(x: int, base: int, strideb: int, wd: int) -> bool {
    exists|j: int|
        7 - rewritten_taps(wd) <= j < 7 + rewritten_taps(wd) && x == #[trigger] place(base, strideb, j)
}

/// Filtering a line changes no pixel but the taps nearest to the edge.
pub proof fn line_changes_only_near_taps(
    data: Seq<int>,
    base: int,
    strideb: int,
    ep: EdgeParams,
    x: int,
)
    requires
        0 <= x < data.len(),
        !in_reach(x, base, strideb, ep.wd),
    ensures
        line_filtered(data, base, strideb, ep)[x] == data[x],
{
    let (first, values) = new_taps(taps_at(data, base, strideb), ep);
    assert forall|j: int| first <= j < first + values.len() implies x != #[trigger] place(
        base,
        strideb,
        j,
    ) by {
        assert(7 - rewritten_taps(ep.wd) <= j < 7 + rewritten_taps(ep.wd));
    }
    lemma_put_taps_miss(data, base, strideb, first, values, x);
}

proof fn lemma_lines_change_only_near_taps(
    data: Seq<int>,
    base: int,
    stridea: int,
    strideb: int,
    ep: EdgeParams,
    x: int,
    n: nat,
)
    requires
        0 <= x < data.len(),
        forall|m: int| 0 <= m < n ==> !in_reach(x, base + #[trigger] (m * stridea), strideb, ep.wd),
    ensures
        lines_filtered(data, base, stridea, strideb, ep, n)[x] == data[x],
    decreases n,
{
    if n > 0 {
        let m = (n - 1) as nat;
        let before = lines_filtered(data, base, stridea, strideb, ep, m);
        lemma_lines_filtered_len(data, base, stridea, strideb, ep, m);
        lemma_lines_change_only_near_taps(data, base, stridea, strideb, ep, x, m);
        assert(!in_reach(x, base + (n - 1) * stridea, strideb, ep.wd));
        line_changes_only_near_taps(before, base + (n - 1) * stridea, strideb, ep, x);
    }
}

/// Filtering an edge changes no pixel but the taps nearest to it in its four lines.
pub proof fn edge_changes_only_near_taps(
    data: Seq<int>,
    base: int,
    stridea: int,
    strideb: int,
    ep: EdgeParams,
    x: int,
)
    requires
        0 <= x < data.len(),
        forall|m: int| 0 <= m < 4 ==> !in_reach(x, base + #[trigger] (m * stridea), strideb, ep.wd),
    ensures
        edge_filtered(data, base, stridea, strideb, ep)[x] == data[x],
{
    lemma_lines_change_only_near_taps(data, base, stridea, strideb, ep, x, 4);
}

/// A line with a step across the edge that is too large for a coding artefact stays as it is.
pub proof fn sharp_line_is_kept(data: Seq<int>, base: int, strideb: int, ep: EdgeParams)
    requires
        2 * abs(data[base - strideb] - data[base]) > ep.e,
    ensures
        line_filtered(data, base, strideb, ep) == data,
{
    let t = taps_at(data, base, strideb);
    assert((6 - 7) * strideb == -strideb) by (nonlinear_arith);
    assert((7 - 7) * strideb == 0) by (nonlinear_arith);
    assert(p(t, 0) == data[base - strideb]);
    assert(q(t, 0) == data[base]);
    assert(!filter_mask(t, ep));
}

/// A line whose taps are the same wherever the filter looks at them stays as it is.
pub proof fn flat_taps_are_kept(t: Seq<int>, ep: EdgeParams, c: int, j: int)
    requires
        t.len() == 14,
        0 <= j < 14,
        0 <= c <= ep.max_pixel,
        ep.unit >= 1,
        forall|k: int|
            7 - needed_taps(ep.wd) <= k < 7 + needed_taps(ep.wd) ==> #[trigger] t[k] == c,
    ensures
        filtered_tap(t, ep, j) == t[j],
{
    if ep.wd >= 16 {
        lemma_wide16_range(t, j, c, c);
    }
    if ep.wd >= 8 {
        lemma_wide8_range(t, j, c, c);
    }
    if ep.wd == 6 {
        lemma_wide6_range(t, j, c, c);
    }
    reveal(narrow_p);
    reveal(narrow_q);
    reveal(narrow_outer);
    assert(t[5] == c && t[6] == c && t[7] == c && t[8] == c);
}

proof fn lemma_put_same(data: Seq<int>, base: int, strideb: int, first: int, values: Seq<int>)
    requires
        forall|k: int|
            0 <= k < values.len() ==> #[trigger] values[k] == data[base + (first + k - 7) * strideb],
    ensures
        put_taps(data, base, strideb, first, values) == data,
    decreases values.len(),
{
    if values.len() > 0 {
        let fewer = values.drop_last();
        assert forall|k: int| 0 <= k < fewer.len() implies #[trigger] fewer[k] == data[base + (first + k
            - 7) * strideb] by {
            assert(fewer[k] == values[k]);
        }
        lemma_put_same(data, base, strideb, first, fewer);
        let k = values.len() - 1;
        assert(values[k] == data[base + (first + k - 7) * strideb]);
        assert(put_taps(data, base, strideb, first, values) =~= data);
    }
}

/// Whether the taps of the line at `base` are the same pixel wherever the filter looks at them.
pub open spec fn flat_line(data: Seq<int>, base: int, strideb: int, ep: EdgeParams) -> bool {
    &&& 0 <= data[base] <= ep.max_pixel
    &&& forall|j: int|
        7 - needed_taps(ep.wd) <= j < 7 + needed_taps(ep.wd) ==> data[#[trigger] place(base, strideb, j)]
            == data[base]
}

/// Filtering a flat line changes nothing.
pub proof fn flat_line_is_kept(data: Seq<int>, base: int, strideb: int, ep: EdgeParams)
    requires
        ep.unit >= 1,
        flat_line(data, base, strideb, ep),
    ensures
        line_filtered(data, base, strideb, ep) == data,
{
    let t = taps_at(data, base, strideb);
    let (first, values) = new_taps(t, ep);
    assert forall|k: int|
        7 - needed_taps(ep.wd) <= k < 7 + needed_taps(ep.wd) implies #[trigger] t[k] == data[base] by {
        assert(data[place(base, strideb, k)] == data[base]);
    }
    assert forall|k: int| 0 <= k < values.len() implies #[trigger] values[k] == data[base + (first + k
        - 7) * strideb] by {
        flat_taps_are_kept(t, ep, data[base], first + k);
        assert(filtered_tap(t, ep, first + k) == values[k]);
    }
    lemma_put_same(data, base, strideb, first, values);
}

/// Filtering an edge whose four lines are flat changes nothing.
pub proof fn flat_edge_is_kept(
    data: Seq<int>,
    base: int,
    stridea: int,
    strideb: int,
    ep: EdgeParams,
)
    requires
        ep.unit >= 1,
        forall|m: int| 0 <= m < 4 ==> flat_line(data, base + #[trigger] (m * stridea), strideb, ep),
    ensures
        edge_filtered(data, base, stridea, strideb, ep) == data,
{
    reveal_with_fuel(lines_filtered, 5);
    assert(flat_line(data, base + 0 * stridea, strideb, ep));
    assert(flat_line(data, base + 1 * stridea, strideb, ep));
    assert(flat_line(data, base + 2 * stridea, strideb, ep));
    assert(flat_line(data, base + 3 * stridea, strideb, ep));
    flat_line_is_kept(data, base + 0 * stridea, strideb, ep);
    flat_line_is_kept(data, base + 1 * stridea, strideb, ep);
    flat_line_is_kept(data, base + 2 * stridea, strideb, ep);
    flat_line_is_kept(data, base + 3 * stridea, strideb, ep);
}

/// Whether filtering the other lines of an edge rewrites no tap that the filter looks at in line `m`.
pub open spec fn undisturbed(base: int, stridea: int, strideb: int, wd: int, m: int) -> bool {
    forall|l: int, j: int|
        0 <= l < 4 && l != m && 7 - needed_taps(wd) <= j < 7 + needed_taps(wd) ==> !in_reach(
            #[trigger] place(base + m * stridea, strideb, j),
            base + #[trigger] (l * stridea),
            strideb,
            wd,
        )
}

proof fn lemma_flat_line_kept(
    data: Seq<int>,
    base: int,
    stridea: int,
    strideb: int,
    ep: EdgeParams,
    m: int,
    n: nat,
)
    requires
        n <= 4,
        0 <= m < 4,
        ep.unit >= 1,
        flat_line(data, base + m * stridea, strideb, ep),
        taps_inside(data.len() as int, base + m * stridea, strideb, needed_taps(ep.wd)),
        undisturbed(base, stridea, strideb, ep.wd, m),
    ensures
        forall|j: int|
            7 - needed_taps(ep.wd) <= j < 7 + needed_taps(ep.wd) ==> lines_filtered(
                data,
                base,
                stridea,
                strideb,
                ep,
                n,
            )[#[trigger] place(base + m * stridea, strideb, j)] == data[base + m * stridea],
    decreases n,
{
    let at = base + m * stridea;
    let half = needed_taps(ep.wd);
    if n > 0 {
        let l = n - 1;
        let before = lines_filtered(data, base, stridea, strideb, ep, l as nat);
        lemma_lines_filtered_len(data, base, stridea, strideb, ep, l as nat);
        lemma_flat_line_kept(data, base, stridea, strideb, ep, m, l as nat);
        assert(place(at, strideb, 7) == at) by (nonlinear_arith)
            requires
                place(at, strideb, 7) == at + (7 - 7) * strideb,
        ;
        if l == m {
            flat_line_is_kept(before, at, strideb, ep);
        } else {
            assert forall|j: int| 7 - half <= j < 7 + half implies line_filtered(
                before,
                base + l * stridea,
                strideb,
                ep,
            )[#[trigger] place(at, strideb, j)] == data[at] by {
                lemma_taps_inside(data.len() as int, at, strideb, half, j - 7);
                line_changes_only_near_taps(
                    before,
                    base + l * stridea,
                    strideb,
                    ep,
                    place(at, strideb, j),
                );
            }
        }
    }
}

/// Filtering an edge keeps a flat line, whatever the other lines hold, where filtering these rewrites none of
/// its taps.
pub proof fn flat_line_of_edge_is_kept(
    data: Seq<int>,
    base: int,
    stridea: int,
    strideb: int,
    ep: EdgeParams,
    m: int,
)
    requires
        0 <= m < 4,
        ep.unit >= 1,
        flat_line(data, base + m * stridea, strideb, ep),
        taps_inside(data.len() as int, base + m * stridea, strideb, needed_taps(ep.wd)),
        undisturbed(base, stridea, strideb, ep.wd, m),
    ensures
        forall|j: int|
            7 - needed_taps(ep.wd) <= j < 7 + needed_taps(ep.wd) ==> edge_filtered(
                data,
                base,
                stridea,
                strideb,
                ep,
            )[#[trigger] place(base + m * stridea, strideb, j)] == data[base + m * stridea],
{
    lemma_flat_line_kept(data, base, stridea, strideb, ep, m, 4);
}

/// A filtered line holds the filtered taps.
pub proof fn line_holds_filtered_taps(data: Seq<int>, base: int, strideb: int, ep: EdgeParams, j: int)
    requires
        strideb != 0,
        0 <= j < 14,
        0 <= place(base, strideb, j) < data.len(),
    ensures
        line_filtered(data, base, strideb, ep)[place(base, strideb, j)] == filtered_tap(
            taps_at(data, base, strideb),
            ep,
            j,
        ),
{
    let (first, values) = new_taps(taps_at(data, base, strideb), ep);
    if first <= j < first + values.len() {
        lemma_put_taps_hit(data, base, strideb, first, values, j - first);
    } else {
        assert forall|k: int| first <= k < first + values.len() implies place(base, strideb, j)
            != #[trigger] place(base, strideb, k) by {
            assert((j - 7) * strideb != (k - 7) * strideb) by (nonlinear_arith)
                requires
                    j != k,
                    strideb != 0,
            ;
        }
        lemma_put_taps_miss(data, base, strideb, first, values, place(base, strideb, j));
    }
}

proof fn lemma_line_on_its_own(
    data: Seq<int>,
    base: int,
    stridea: int,
    strideb: int,
    ep: EdgeParams,
    m: int,
    n: nat,
)
    requires
        n <= 4,
        0 <= m < 4,
        strideb != 0,
        taps_inside(data.len() as int, base + m * stridea, strideb, needed_taps(ep.wd)),
        undisturbed(base, stridea, strideb, ep.wd, m),
    ensures
        forall|j: int|
            7 - needed_taps(ep.wd) <= j < 7 + needed_taps(ep.wd) ==> lines_filtered(
                data,
                base,
                stridea,
                strideb,
                ep,
                n,
            )[#[trigger] place(base + m * stridea, strideb, j)] == if n <= m {
                data[place(base + m * stridea, strideb, j)]
            } else {
                filtered_tap(taps_at(data, base + m * stridea, strideb), ep, j)
            },
    decreases n,
{
    let at = base + m * stridea;
    let half = needed_taps(ep.wd);
    let len = data.len() as int;
    if n > 0 {
        let l = n - 1;
        let before = lines_filtered(data, base, stridea, strideb, ep, l as nat);
        lemma_lines_filtered_len(data, base, stridea, strideb, ep, l as nat);
        lemma_line_on_its_own(data, base, stridea, strideb, ep, m, l as nat);
        let t = taps_at(data, at, strideb);
        let u = taps_at(before, at, strideb);
        if l == m {
            assert forall|j: int| 7 - half <= j < 7 + half implies #[trigger] u[j] == t[j] by {
                assert(before[place(at, strideb, j)] == data[place(at, strideb, j)]);
            }
            if ep.wd >= 16 {
                assert(u =~= t);
            }
            lemma_new_taps_local(u, t, ep);
        }
        assert forall|j: int| 7 - half <= j < 7 + half implies lines_filtered(
            data,
            base,
            stridea,
            strideb,
            ep,
            n,
        )[#[trigger] place(at, strideb, j)] == if n <= m {
            data[place(at, strideb, j)]
        } else {
            filtered_tap(t, ep, j)
        } by {
            lemma_taps_inside(len, at, strideb, half, j - 7);
            if l == m {
                line_holds_filtered_taps(before, at, strideb, ep, j);
                assert(u[j] == t[j]);
            } else {
                line_changes_only_near_taps(
                    before,
                    base + l * stridea,
                    strideb,
                    ep,
                    place(at, strideb, j),
                );
            }
        }
    }
}

/// A line of an edge is filtered as if it were alone, where filtering the others rewrites none of its taps.
pub proof fn line_of_edge_is_filtered_on_its_own(
    data: Seq<int>,
    base: int,
    stridea: int,
    strideb: int,
    ep: EdgeParams,
    m: int,
)
    requires
        0 <= m < 4,
        strideb != 0,
        taps_inside(data.len() as int, base + m * stridea, strideb, needed_taps(ep.wd)),
        undisturbed(base, stridea, strideb, ep.wd, m),
    ensures
        forall|j: int|
            7 - needed_taps(ep.wd) <= j < 7 + needed_taps(ep.wd) ==> edge_filtered(
                data,
                base,
                stridea,
                strideb,
                ep,
            )[#[trigger] place(base + m * stridea, strideb, j)] == filtered_tap(
                taps_at(data, base + m * stridea, strideb),
                ep,
                j,
            ),
{
    lemma_line_on_its_own(data, base, stridea, strideb, ep, m, 4);
}

/// The line with the two sides of the edge exchanged.
pub open spec fn mirrored(t: Seq<int>) -> Seq<int> {
    Seq::new(14, |j: int| t[13 - j])
}

proof fn lemma_held_mirrored(t: Seq<int>, j: int, lo: int)
    requires
        0 <= lo <= 6,
    ensures
        held(mirrored(t), j, lo, 13 - lo) == held(t, 13 - j, lo, 13 - lo),
{
    reveal(held);
}

proof fn lemma_wide_mirrored(t: Seq<int>, j: int)
    ensures
        wide16(mirrored(t), j) == wide16(t, 13 - j),
        wide8(mirrored(t), j) == wide8(t, 13 - j),
        wide6(mirrored(t), j) == wide6(t, 13 - j),
{
    reveal(wide16);
    reveal(wide8);
    reveal(wide6);
    lemma_mirrored_terms(t, j, 0);
    lemma_mirrored_terms(t, j, 3);
    lemma_mirrored_terms(t, j, 4);
}

proof fn lemma_mirrored_terms(t: Seq<int>, j: int, lo: int)
    requires
        0 <= lo <= 6,
    ensures
        held(mirrored(t), j - 6, lo, 13 - lo) == held(t, 13 - j + 6, lo, 13 - lo),
        held(mirrored(t), j - 5, lo, 13 - lo) == held(t, 13 - j + 5, lo, 13 - lo),
        held(mirrored(t), j - 4, lo, 13 - lo) == held(t, 13 - j + 4, lo, 13 - lo),
        held(mirrored(t), j - 3, lo, 13 - lo) == held(t, 13 - j + 3, lo, 13 - lo),
        held(mirrored(t), j - 2, lo, 13 - lo) == held(t, 13 - j + 2, lo, 13 - lo),
        held(mirrored(t), j - 1, lo, 13 - lo) == held(t, 13 - j + 1, lo, 13 - lo),
        held(mirrored(t), j, lo, 13 - lo) == held(t, 13 - j, lo, 13 - lo),
        held(mirrored(t), j + 1, lo, 13 - lo) == held(t, 13 - j - 1, lo, 13 - lo),
        held(mirrored(t), j + 2, lo, 13 - lo) == held(t, 13 - j - 2, lo, 13 - lo),
        held(mirrored(t), j + 3, lo, 13 - lo) == held(t, 13 - j - 3, lo, 13 - lo),
        held(mirrored(t), j + 4, lo, 13 - lo) == held(t, 13 - j - 4, lo, 13 - lo),
        held(mirrored(t), j + 5, lo, 13 - lo) == held(t, 13 - j - 5, lo, 13 - lo),
        held(mirrored(t), j + 6, lo, 13 - lo) == held(t, 13 - j - 6, lo, 13 - lo),
{
    lemma_held_mirrored(t, j - 6, lo);
    lemma_held_mirrored(t, j - 5, lo);
    lemma_held_mirrored(t, j - 4, lo);
    lemma_held_mirrored(t, j - 3, lo);
    lemma_held_mirrored(t, j - 2, lo);
    lemma_held_mirrored(t, j - 1, lo);
    lemma_held_mirrored(t, j, lo);
    lemma_held_mirrored(t, j + 1, lo);
    lemma_held_mirrored(t, j + 2, lo);
    lemma_held_mirrored(t, j + 3, lo);
    lemma_held_mirrored(t, j + 4, lo);
    lemma_held_mirrored(t, j + 5, lo);
    lemma_held_mirrored(t, j + 6, lo);
}

/// Exchanging the sides of the edge does not change the choice of the filter.
pub proof fn mirrored_line_gets_the_same_filter(t: Seq<int>, ep: EdgeParams)
    ensures
        edge_filter(mirrored(t), ep) == edge_filter(t, ep),
{
    let u = mirrored(t);
    assert(u[0] == t[13] && u[1] == t[12] && u[2] == t[11] && u[3] == t[10] && u[4] == t[9] && u[5]
        == t[8] && u[6] == t[7] && u[7] == t[6] && u[8] == t[5] && u[9] == t[4] && u[10] == t[3]
        && u[11] == t[2] && u[12] == t[1] && u[13] == t[0]);
}

/// All filters but the narrow one are symmetric: exchanging the sides of the edge exchanges the results.
pub proof fn wide_filters_are_symmetric(t: Seq<int>, ep: EdgeParams, j: int)
    requires
        edge_filter(t, ep) !is Narrow,
        0 <= j < 14,
    ensures
        filtered_tap(mirrored(t), ep, j) == filtered_tap(t, ep, 13 - j),
{
    mirrored_line_gets_the_same_filter(t, ep);
    lemma_wide_mirrored(t, j);
}

/// Where the taps of a line of an edge in one plane are those in another plane with the sides of the edge
/// exchanged, so are the filtered ones, but for the narrow filter.
pub proof fn mirrored_line_is_filtered_mirrored(
    data: Seq<int>,
    other: Seq<int>,
    base: int,
    stridea: int,
    strideb: int,
    ep: EdgeParams,
    m: int,
    j: int,
)
    requires
        0 <= m < 4,
        strideb != 0,
        taps_inside(data.len() as int, base + m * stridea, strideb, needed_taps(ep.wd)),
        taps_inside(other.len() as int, base + m * stridea, strideb, needed_taps(ep.wd)),
        undisturbed(base, stridea, strideb, ep.wd, m),
        forall|k: int|
            7 - needed_taps(ep.wd) <= k < 7 + needed_taps(ep.wd) ==> other[#[trigger] place(
                base + m * stridea,
                strideb,
                k,
            )] == data[place(base + m * stridea, strideb, 13 - k)],
        edge_filter(taps_at(data, base + m * stridea, strideb), ep) !is Narrow,
        7 - needed_taps(ep.wd) <= j < 7 + needed_taps(ep.wd),
    ensures
        edge_filtered(other, base, stridea, strideb, ep)[place(base + m * stridea, strideb, j)]
            == edge_filtered(data, base, stridea, strideb, ep)[place(
            base + m * stridea,
            strideb,
            13 - j,
        )],
{
    let at = base + m * stridea;
    let t = taps_at(data, at, strideb);
    let u = taps_at(other, at, strideb);
    let half = needed_taps(ep.wd);
    line_of_edge_is_filtered_on_its_own(data, base, stridea, strideb, ep, m);
    line_of_edge_is_filtered_on_its_own(other, base, stridea, strideb, ep, m);
    wide_filters_are_symmetric(t, ep, j);
    assert forall|k: int| 7 - half <= k < 7 + half implies #[trigger] u[k] == mirrored(t)[k] by {
        assert(other[place(at, strideb, k)] == data[place(at, strideb, 13 - k)]);
    }
    if ep.wd >= 16 {
        assert(u =~= mirrored(t));
    }
    lemma_new_taps_local(u, mirrored(t), ep);
    assert(u[j] == mirrored(t)[j]);
}

/// Whether every value is a pixel.
pub open spec fn all_pixels(data: Seq<int>, max_pixel: int) -> bool {
    forall|x: int| 0 <= x < data.len() ==> 0 <= #[trigger] data[x] <= max_pixel
}

proof fn lemma_put_taps_pixels(
    data: Seq<int>,
    base: int,
    strideb: int,
    first: int,
    values: Seq<int>,
    max_pixel: int,
)
    requires
        all_pixels(data, max_pixel),
        all_pixels(values, max_pixel),
    ensures
        all_pixels(put_taps(data, base, strideb, first, values), max_pixel),
    decreases values.len(),
{
    if values.len() > 0 {
        let fewer = values.drop_last();
        assert(all_pixels(fewer, max_pixel)) by {
            assert(forall|x: int| 0 <= x < fewer.len() ==> #[trigger] fewer[x] == values[x]);
        }
        lemma_put_taps_pixels(data, base, strideb, first, fewer, max_pixel);
        assert(0 <= values[values.len() - 1] <= max_pixel);
    }
}

/// A plane of pixels is one after a line of it has been filtered.
pub proof fn line_keeps_pixels(data: Seq<int>, base: int, strideb: int, ep: EdgeParams)
    requires
        line_readable(data, base, strideb, ep),
        all_pixels(data, ep.max_pixel),
    ensures
        all_pixels(line_filtered(data, base, strideb, ep), ep.max_pixel),
{
    let t = taps_at(data, base, strideb);
    let len = data.len() as int;
    let half = deciding_taps(ep.wd);
    let u = Seq::new(
        14,
        |j: int|
            if 0 <= base + (j - 7) * strideb < len {
                t[j]
            } else {
                0
            },
    );
    assert forall|j: int| 7 - half <= j < 7 + half implies #[trigger] t[j] == u[j] by {
        lemma_taps_inside(len, base, strideb, half, j - 7);
    }
    if ep.wd >= 16 && filter_mask(t, ep) {
        assert forall|j: int| 0 <= j < 14 implies #[trigger] t[j] == u[j] by {
            lemma_taps_inside(len, base, strideb, 7, j - 7);
        }
        assert(t =~= u);
    }
    lemma_new_taps_local(t, u, ep);
    lemma_taps_inside(len, base, strideb, half, 0);
    let (first, values) = new_taps(u, ep);
    assert(0 <= data[base + 0 * strideb] <= ep.max_pixel);
    assert(all_pixels(u, ep.max_pixel)) by {
        assert forall|j: int| 0 <= j < u.len() implies 0 <= #[trigger] u[j] <= ep.max_pixel by {
            if 0 <= base + (j - 7) * strideb < len {
                assert(0 <= data[base + (j - 7) * strideb] <= ep.max_pixel);
            }
        }
    }
    assert forall|k: int| 0 <= k < values.len() implies 0 <= #[trigger] values[k] <= ep.max_pixel by {
        filtered_taps_are_pixels(u, ep, first + k);
        assert(filtered_tap(u, ep, first + k) == values[k]);
    }
    lemma_put_taps_pixels(data, base, strideb, first, values, ep.max_pixel);
}

proof fn lemma_lines_keep_pixels(
    data: Seq<int>,
    base: int,
    stridea: int,
    strideb: int,
    ep: EdgeParams,
    n: nat,
)
    requires
        n <= 4,
        edge_readable(data, base, stridea, strideb, ep),
        all_pixels(data, ep.max_pixel),
    ensures
        all_pixels(lines_filtered(data, base, stridea, strideb, ep, n), ep.max_pixel),
    decreases n,
{
    if n > 0 {
        let m = (n - 1) as nat;
        lemma_lines_keep_pixels(data, base, stridea, strideb, ep, m);
        let before = lines_filtered(data, base, stridea, strideb, ep, m);
        line_keeps_pixels(before, base + (n - 1) * stridea, strideb, ep);
    }
}

/// A plane of pixels is one after an edge of it has been filtered.
pub proof fn edge_keeps_pixels(
    data: Seq<int>,
    base: int,
    stridea: int,
    strideb: int,
    ep: EdgeParams,
)
    requires
        edge_readable(data, base, stridea, strideb, ep),
        all_pixels(data, ep.max_pixel),
    ensures
        all_pixels(edge_filtered(data, base, stridea, strideb, ep), ep.max_pixel),
{
    lemma_lines_keep_pixels(data, base, stridea, strideb, ep, 4);
}

/// A plane of pixels is one after the first `n` edges of a superblock have been filtered.
pub proof fn superblock_keeps_pixels(sb: SbEdges, data: Seq<int>, n: nat)
    requires
        n <= 32,
        sb.readable(data),
        all_pixels(data, sb.max_pixel),
    ensures
        all_pixels(sb.filtered(data, n), sb.max_pixel),
    decreases n,
{
    if n > 0 {
        let m = (n - 1) as nat;
        superblock_keeps_pixels(sb, data, m);
        if sb.active(n - 1) {
            edge_keeps_pixels(
                sb.filtered(data, m),
                sb.edge_at(n - 1),
                sb.stridea(),
                sb.strideb(),
                sb.params(n - 1),
            );
        }
    }
}

/// Where no edge is selected, or the levels at those that are selected are zero, nothing changes.
pub proof fn idle_superblock_is_kept(sb: SbEdges, data: Seq<int>, n: nat)
    requires
        forall|m: int| 0 <= m < n ==> !#[trigger] sb.active(m),
    ensures
        sb.filtered(data, n) == data,
    decreases n,
{
    if n > 0 {
        assert(!sb.active(n - 1));
        idle_superblock_is_kept(sb, data, (n - 1) as nat);
    }
}

/// Only the active edges of a superblock change pixels, and only near themselves.
pub proof fn superblock_changes_only_near_taps(sb: SbEdges, data: Seq<int>, n: nat, x: int)
    requires
        0 <= x < data.len(),
        forall|m: int, l: int|
            0 <= m < n && 0 <= l < 4 && #[trigger] sb.active(m) ==> !in_reach(
                x,
                sb.edge_at(m) + #[trigger] (l * sb.stridea()),
                sb.strideb(),
                sb.width(m),
            ),
    ensures
        sb.filtered(data, n)[x] == data[x],
        sb.filtered(data, n).len() == data.len(),
    decreases n,
{
    if n > 0 {
        let m = (n - 1) as nat;
        superblock_changes_only_near_taps(sb, data, m, x);
        if sb.active(n - 1) {
            let before = sb.filtered(data, m);
            edge_changes_only_near_taps(
                before,
                sb.edge_at(n - 1),
                sb.stridea(),
                sb.strideb(),
                sb.params(n - 1),
                x,
            );
            lemma_lines_filtered_len(
                before,
                sb.edge_at(n - 1),
                sb.stridea(),
                sb.strideb(),
                sb.params(n - 1),
                4,
            );
        }
    }
}

} // verus!
