//! What the deblocking filter does to the pixels across an edge.
//!
//! One line across the edge is a sequence of fourteen taps: p6, .., p0 on one side, at indices 0 to
//! 6, and q0, .., q6 on the other, at indices 7 to 13. A filter of width `wd` looks at the innermost
//! taps only and rewrites some of them.
use crate::arith::{abs, clip, min};
use vstd::arithmetic::power2::{lemma2_to64, pow2};
use vstd::prelude::*;

verus! {

/// The thresholds of an edge, at the scale of the bit depth.
pub struct EdgeParams {
    /// The width of the filter.
    pub wd: int,
    /// The largest step across the edge that is taken for a coding artefact.
    pub e: int,
    /// The largest step between neighbours on one side of the edge.
    pub i: int,
    /// The step beside the edge above which its variance is high.
    pub h: int,
    /// What one step is at a bit depth of eight.
    pub unit: int,
    /// The largest pixel.
    pub max_pixel: int,
}

/// The thresholds `e`, `i` and `h` of an 8-bit picture, scaled to a bit depth of `bits`.
pub open spec fn edge_params(wd: int, e: u8, i: u8, h: u8, bits: nat, max_pixel: int) -> EdgeParams {
    let unit = pow2((bits - 8) as nat) as int;
    EdgeParams { wd, e: e * unit, i: i * unit, h: h * unit, unit, max_pixel }
}

/// The tap `k` steps before the edge.
pub open spec fn p(t: Seq<int>, k: int) -> int {
    t[6 - k]
}

/// The tap `k` steps behind the edge.
pub open spec fn q(t: Seq<int>, k: int) -> int {
    t[7 + k]
}

/// Whether two taps differ by no more than `threshold`.
pub open spec fn near(a: int, b: int, threshold: int) -> bool {
    abs(a - b) <= threshold
}

/// Whether the line is filtered at all: the step across the edge and the steps beside it are small.
pub open spec fn filter_mask(t: Seq<int>, ep: EdgeParams) -> bool {
    &&& near(p(t, 1), p(t, 0), ep.i)
    &&& near(q(t, 1), q(t, 0), ep.i)
    &&& abs(p(t, 0) - q(t, 0)) * 2 + abs(p(t, 1) - q(t, 1)) / 2 <= ep.e
    &&& ep.wd > 4 ==> near(p(t, 2), p(t, 1), ep.i) && near(q(t, 2), q(t, 1), ep.i)
    &&& ep.wd > 6 ==> near(p(t, 3), p(t, 2), ep.i) && near(q(t, 3), q(t, 2), ep.i)
}

/// Whether the inner taps are flat.
pub open spec fn flat_in(t: Seq<int>, ep: EdgeParams) -> bool {
    &&& ep.wd >= 6
    &&& near(p(t, 2), p(t, 0), ep.unit)
    &&& near(p(t, 1), p(t, 0), ep.unit)
    &&& near(q(t, 1), q(t, 0), ep.unit)
    &&& near(q(t, 2), q(t, 0), ep.unit)
    &&& ep.wd >= 8 ==> near(p(t, 3), p(t, 0), ep.unit) && near(q(t, 3), q(t, 0), ep.unit)
}

/// Whether the outer taps are flat.
pub open spec fn flat_out(t: Seq<int>, ep: EdgeParams) -> bool {
    &&& ep.wd >= 16
    &&& near(p(t, 6), p(t, 0), ep.unit)
    &&& near(p(t, 5), p(t, 0), ep.unit)
    &&& near(p(t, 4), p(t, 0), ep.unit)
    &&& near(q(t, 4), q(t, 0), ep.unit)
    &&& near(q(t, 5), q(t, 0), ep.unit)
    &&& near(q(t, 6), q(t, 0), ep.unit)
}

/// Whether there is much variance right beside the edge.
pub open spec fn high_variance(t: Seq<int>, ep: EdgeParams) -> bool {
    abs(p(t, 1) - p(t, 0)) > ep.h || abs(q(t, 1) - q(t, 0)) > ep.h
}

/// The filter that a line gets.
pub enum EdgeFilter {
    Off,
    Wide16,
    Wide8,
    Wide6,
    Narrow,
}

/// The filter that the line `t` gets.
pub open spec fn edge_filter(t: Seq<int>, ep: EdgeParams) -> EdgeFilter {
    if !filter_mask(t, ep) {
        EdgeFilter::Off
    } else if flat_out(t, ep) && flat_in(t, ep) {
        EdgeFilter::Wide16
    } else if ep.wd >= 8 && flat_in(t, ep) {
        EdgeFilter::Wide8
    } else if ep.wd == 6 && flat_in(t, ep) {
        EdgeFilter::Wide6
    } else {
        EdgeFilter::Narrow
    }
}

/// The tap at `j`, with the taps at `lo` and `hi` repeated beyond them.
#[verifier::opaque]
pub open spec fn held(t: Seq<int>, j: int, lo: int, hi: int) -> int {
    t[clip(j, lo, hi)]
}

/// The average of thirteen neighbours, the inner three with double weight.
#[verifier::opaque]
pub open spec fn wide16(t: Seq<int>, j: int) -> int {
    (held(t, j - 6, 0, 13) + held(t, j - 5, 0, 13) + held(t, j - 4, 0, 13) + held(t, j - 3, 0, 13)
        + held(t, j - 2, 0, 13) + 2 * held(t, j - 1, 0, 13) + 2 * held(t, j, 0, 13) + 2 * held(
        t,
        j + 1,
        0,
        13,
    ) + held(t, j + 2, 0, 13) + held(t, j + 3, 0, 13) + held(t, j + 4, 0, 13) + held(
        t,
        j + 5,
        0,
        13,
    ) + held(t, j + 6, 0, 13) + 8) / 16
}

/// The average of seven neighbours, the inner one with double weight.
#[verifier::opaque]
pub open spec fn wide8(t: Seq<int>, j: int) -> int {
    (held(t, j - 3, 3, 10) + held(t, j - 2, 3, 10) + held(t, j - 1, 3, 10) + 2 * held(t, j, 3, 10)
        + held(t, j + 1, 3, 10) + held(t, j + 2, 3, 10) + held(t, j + 3, 3, 10) + 4) / 8
}

/// The average of five neighbours, the inner three with double weight.
#[verifier::opaque]
pub open spec fn wide6(t: Seq<int>, j: int) -> int {
    (held(t, j - 2, 4, 9) + 2 * held(t, j - 1, 4, 9) + 2 * held(t, j, 4, 9) + 2 * held(
        t,
        j + 1,
        4,
        9,
    ) + held(t, j + 2, 4, 9) + 4) / 8
}

/// A difference of pixels limited to the range of a signed pixel.
pub open spec fn clip_diff(v: int, ep: EdgeParams) -> int {
    clip(v, -128 * ep.unit, 128 * ep.unit - 1)
}

/// The correction of the narrow filter, in eighths.
pub open spec fn narrow_step(t: Seq<int>, ep: EdgeParams) -> int {
    let outer = if high_variance(t, ep) {
        clip_diff(p(t, 1) - q(t, 1), ep)
    } else {
        0
    };
    clip_diff(3 * (q(t, 0) - p(t, 0)) + outer, ep)
}

/// The correction at q0.
#[verifier::opaque]
pub open spec fn narrow_q(t: Seq<int>, ep: EdgeParams) -> int {
    min(narrow_step(t, ep) + 4, 128 * ep.unit - 1) / 8
}

/// The correction at p0.
#[verifier::opaque]
pub open spec fn narrow_p(t: Seq<int>, ep: EdgeParams) -> int {
    min(narrow_step(t, ep) + 3, 128 * ep.unit - 1) / 8
}

/// The correction at p1 and q1, where the variance is low.
#[verifier::opaque]
pub open spec fn narrow_outer(t: Seq<int>, ep: EdgeParams) -> int {
    (narrow_q(t, ep) + 1) / 2
}

/// `v` limited to the range of a pixel.
pub open spec fn clip_px(v: int, ep: EdgeParams) -> int {
    clip(v, 0, ep.max_pixel)
}

/// The taps that the narrow filter rewrites: the index of the first one and the new values from there
/// on.
pub open spec fn narrow_taps(t: Seq<int>, ep: EdgeParams) -> (int, Seq<int>) {
    let p0 = clip_px(p(t, 0) + narrow_p(t, ep), ep);
    let q0 = clip_px(q(t, 0) - narrow_q(t, ep), ep);
    if high_variance(t, ep) {
        (6, seq![p0, q0])
    } else {
        let p1 = clip_px(p(t, 1) + narrow_outer(t, ep), ep);
        let q1 = clip_px(q(t, 1) - narrow_outer(t, ep), ep);
        (5, seq![p1, p0, q0, q1])
    }
}

/// The taps that the filter rewrites: the index of the first one and the new values from there on.
pub open spec fn new_taps(t: Seq<int>, ep: EdgeParams) -> (int, Seq<int>) {
    match edge_filter(t, ep) {
        EdgeFilter::Off => (7, Seq::empty()),
        EdgeFilter::Wide16 => (1, Seq::new(12, |n: int| wide16(t, 1 + n))),
        EdgeFilter::Wide8 => (4, Seq::new(6, |n: int| wide8(t, 4 + n))),
        EdgeFilter::Wide6 => (5, Seq::new(4, |n: int| wide6(t, 5 + n))),
        EdgeFilter::Narrow => narrow_taps(t, ep),
    }
}

/// The tap at index `j` after the filter.
pub open spec fn filtered_tap(t: Seq<int>, ep: EdgeParams, j: int) -> int {
    let (first, values) = new_taps(t, ep);
    if first <= j < first + values.len() {
        values[j - first]
    } else {
        t[j]
    }
}

/// The fourteen taps across the edge whose q0 is at `base`; the others follow at distances of
/// `strideb`.
pub open spec fn taps_at(data: Seq<int>, base: int, strideb: int) -> Seq<int> {
    Seq::new(14, |j: int| data[base + (j - 7) * strideb])
}

/// The position of the tap at index `j` of the line whose q0 is at `base`.
pub open spec fn place(base: int, strideb: int, j: int) -> int {
    base + (j - 7) * strideb
}

/// `data` with `v` at position `at`.
pub open spec fn set_at(data: Seq<int>, at: int, v: int) -> Seq<int> {
    Seq::new(
        data.len(),
        |i: int|
            if i == at {
                v
            } else {
                data[i]
            },
    )
}

/// `data` with `values` in place of the taps from index `first` on.
pub open spec fn put_taps(data: Seq<int>, base: int, strideb: int, first: int, values: Seq<int>) -> Seq<
    int,
>
    decreases values.len(),
{
    if values.len() == 0 {
        data
    } else {
        set_at(
            put_taps(data, base, strideb, first, values.drop_last()),
            base + (first + values.len() - 1 - 7) * strideb,
            values.last(),
        )
    }
}

/// The plane after one line across the edge has been filtered.
pub open spec fn line_filtered(data: Seq<int>, base: int, strideb: int, ep: EdgeParams) -> Seq<int> {
    let (first, values) = new_taps(taps_at(data, base, strideb), ep);
    put_taps(data, base, strideb, first, values)
}

/// The plane after the first `n` lines along the edge have been filtered, one after the other.
pub open spec fn lines_filtered(
    data: Seq<int>,
    base: int,
    stridea: int,
    strideb: int,
    ep: EdgeParams,
    n: nat,
) -> Seq<int>
    decreases n,
{
    if n == 0 {
        data
    } else {
        line_filtered(
            lines_filtered(data, base, stridea, strideb, ep, (n - 1) as nat),
            base + (n - 1) * stridea,
            strideb,
            ep,
        )
    }
}

/// The plane after the four lines along one edge have been filtered.
pub open spec fn edge_filtered(
    data: Seq<int>,
    base: int,
    stridea: int,
    strideb: int,
    ep: EdgeParams,
) -> Seq<int> {
    lines_filtered(data, base, stridea, strideb, ep, 4)
}

/// How many taps on each side of the edge decide whether a line is filtered.
pub open spec fn deciding_taps(wd: int) -> int {
    if wd > 6 {
        4
    } else if wd > 4 {
        3
    } else {
        2
    }
}

/// Whether `half` taps on each side of the edge lie in a plane of `len` pixels.
pub open spec fn taps_inside(len: int, base: int, strideb: int, half: int) -> bool {
    &&& 0 <= base - half * strideb < len
    &&& 0 <= base + (half - 1) * strideb < len
}

/// Whether the plane holds every tap that filtering the line looks at.
pub open spec fn line_readable(data: Seq<int>, base: int, strideb: int, ep: EdgeParams) -> bool {
    &&& taps_inside(data.len() as int, base, strideb, deciding_taps(ep.wd))
    &&& ep.wd >= 16 && filter_mask(taps_at(data, base, strideb), ep) ==> taps_inside(
        data.len() as int,
        base,
        strideb,
        7,
    )
}

/// Whether the plane holds every tap that filtering the four lines looks at.
pub open spec fn edge_readable(
    data: Seq<int>,
    base: int,
    stridea: int,
    strideb: int,
    ep: EdgeParams,
) -> bool {
    forall|n: nat|
        n < 4 ==> line_readable(
            #[trigger] lines_filtered(data, base, stridea, strideb, ep, n),
            base + n * stridea,
            strideb,
            ep,
        )
}

/// How many taps on each side of the edge a filter of width `wd` may look at.
pub open spec fn needed_taps(wd: int) -> int {
    if wd >= 16 {
        7
    } else {
        deciding_taps(wd)
    }
}

/// Whether a plane of `len` pixels holds every tap that filtering the four lines may look at, whatever the
/// pixels are.
pub open spec fn edge_inside(len: int, base: int, stridea: int, strideb: int, wd: int) -> bool {
    forall|l: int|
        0 <= l < 4 ==> taps_inside(
            len,
            base + #[trigger] (l * stridea),
            strideb,
            needed_taps(wd),
        )
}

pub proof fn lemma_put_taps_len(data: Seq<int>, base: int, strideb: int, first: int, values: Seq<int>)
    ensures
        put_taps(data, base, strideb, first, values).len() == data.len(),
    decreases values.len(),
{
    if values.len() > 0 {
        lemma_put_taps_len(data, base, strideb, first, values.drop_last());
    }
}

/// Putting taps into a plane puts each in its place.
pub proof fn lemma_put_taps_hit(
    data: Seq<int>,
    base: int,
    strideb: int,
    first: int,
    values: Seq<int>,
    m: int,
)
    requires
        strideb != 0,
        0 <= m < values.len(),
        0 <= place(base, strideb, first + m) < data.len(),
    ensures
        put_taps(data, base, strideb, first, values)[place(base, strideb, first + m)] == values[m],
    decreases values.len(),
{
    let rest = values.drop_last();
    let last = values.len() - 1;
    lemma_put_taps_len(data, base, strideb, first, rest);
    if m < last {
        lemma_put_taps_hit(data, base, strideb, first, rest, m);
        assert((first + m - 7) * strideb != (first + last - 7) * strideb) by (nonlinear_arith)
            requires
                m != last,
                strideb != 0,
        ;
    }
}

/// Putting taps into a plane changes nothing else.
pub proof fn lemma_put_taps_miss(
    data: Seq<int>,
    base: int,
    strideb: int,
    first: int,
    values: Seq<int>,
    x: int,
)
    requires
        0 <= x < data.len(),
        forall|j: int| first <= j < first + values.len() ==> x != #[trigger] place(base, strideb, j),
    ensures
        put_taps(data, base, strideb, first, values)[x] == data[x],
    decreases values.len(),
{
    if values.len() > 0 {
        let rest = values.drop_last();
        lemma_put_taps_len(data, base, strideb, first, rest);
        lemma_put_taps_miss(data, base, strideb, first, rest, x);
        assert(x != place(base, strideb, first + values.len() - 1));
    }
}

pub proof fn lemma_lines_filtered_len(
    data: Seq<int>,
    base: int,
    stridea: int,
    strideb: int,
    ep: EdgeParams,
    n: nat,
)
    ensures
        lines_filtered(data, base, stridea, strideb, ep, n).len() == data.len(),
    decreases n,
{
    if n > 0 {
        let before = lines_filtered(data, base, stridea, strideb, ep, (n - 1) as nat);
        lemma_lines_filtered_len(data, base, stridea, strideb, ep, (n - 1) as nat);
        let at = base + (n - 1) * stridea;
        let (first, values) = new_taps(taps_at(before, at, strideb), ep);
        lemma_put_taps_len(before, at, strideb, first, values);
    }
}

/// Between taps that lie in the plane, every tap does.
pub proof fn lemma_taps_inside(len: int, base: int, strideb: int, half: int, k: int)
    requires
        taps_inside(len, base, strideb, half),
        -half <= k < half,
    ensures
        0 <= base + k * strideb < len,
{
    assert(strideb >= 0 ==> -half * strideb <= k * strideb <= (half - 1) * strideb)
        by (nonlinear_arith)
        requires
            -half <= k <= half - 1,
    ;
    assert(strideb < 0 ==> (half - 1) * strideb <= k * strideb <= -half * strideb)
        by (nonlinear_arith)
        requires
            -half <= k <= half - 1,
    ;
    assert(-half * strideb == -(half * strideb)) by (nonlinear_arith);
}

/// Where the four lines lie inside the plane, everything that filtering them looks at can be looked up.
pub proof fn inside_edge_is_readable(
    data: Seq<int>,
    base: int,
    stridea: int,
    strideb: int,
    ep: EdgeParams,
)
    requires
        edge_inside(data.len() as int, base, stridea, strideb, ep.wd),
    ensures
        edge_readable(data, base, stridea, strideb, ep),
{
    let len = data.len() as int;
    let half = deciding_taps(ep.wd);
    assert forall|n: nat| n < 4 implies line_readable(
        #[trigger] lines_filtered(data, base, stridea, strideb, ep, n),
        base + n * stridea,
        strideb,
        ep,
    ) by {
        lemma_lines_filtered_len(data, base, stridea, strideb, ep, n);
        let at = base + n * stridea;
        assert(taps_inside(len, at, strideb, needed_taps(ep.wd)));
        lemma_taps_inside(len, at, strideb, needed_taps(ep.wd), -half);
        lemma_taps_inside(len, at, strideb, needed_taps(ep.wd), half - 1);
        assert(-half * strideb == -(half * strideb)) by (nonlinear_arith);
    }
}

/// The sums that the filter averages, written out.
pub proof fn lemma_wide8_values(t: Seq<int>)
    ensures
        wide8(t, 4) == (3 * t[3] + 2 * t[4] + t[5] + t[6] + t[7] + 4) / 8,
        wide8(t, 5) == (2 * t[3] + t[4] + 2 * t[5] + t[6] + t[7] + t[8] + 4) / 8,
        wide8(t, 6) == (t[3] + t[4] + t[5] + 2 * t[6] + t[7] + t[8] + t[9] + 4) / 8,
        wide8(t, 7) == (t[4] + t[5] + t[6] + 2 * t[7] + t[8] + t[9] + t[10] + 4) / 8,
        wide8(t, 8) == (t[5] + t[6] + t[7] + 2 * t[8] + t[9] + 2 * t[10] + 4) / 8,
        wide8(t, 9) == (t[6] + t[7] + t[8] + 2 * t[9] + 3 * t[10] + 4) / 8,
{
    reveal(wide8);
    reveal(held);
}

/// The sums that the filter averages, written out.
pub proof fn lemma_wide6_values(t: Seq<int>)
    ensures
        wide6(t, 5) == (3 * t[4] + 2 * t[5] + 2 * t[6] + t[7] + 4) / 8,
        wide6(t, 6) == (t[4] + 2 * t[5] + 2 * t[6] + 2 * t[7] + t[8] + 4) / 8,
        wide6(t, 7) == (t[5] + 2 * t[6] + 2 * t[7] + 2 * t[8] + t[9] + 4) / 8,
        wide6(t, 8) == (t[6] + 2 * t[7] + 2 * t[8] + 3 * t[9] + 4) / 8,
{
    reveal(wide6);
    reveal(held);
}

/// At a bit depth of eight the thresholds are as given.
pub proof fn lemma_edge_params_8bit(wd: int, e: u8, i: u8, h: u8)
    ensures
        edge_params(wd, e, i, h, 8, 255) == (EdgeParams {
            wd,
            e: e as int,
            i: i as int,
            h: h as int,
            unit: 1,
            max_pixel: 255,
        }),
{
    lemma2_to64();
    assert(e * 1 == e && i * 1 == i && h * 1 == h) by (nonlinear_arith);
}

/// Whether a line is filtered depends on the deciding taps alone.
pub proof fn lemma_mask_local(t: Seq<int>, u: Seq<int>, ep: EdgeParams)
    requires
        forall|j: int|
            7 - deciding_taps(ep.wd) <= j < 7 + deciding_taps(ep.wd) ==> #[trigger] t[j] == u[j],
    ensures
        filter_mask(t, ep) == filter_mask(u, ep),
{
    assert(t[5] == u[5] && t[6] == u[6] && t[7] == u[7] && t[8] == u[8]);
    if ep.wd > 4 {
        assert(t[4] == u[4] && t[9] == u[9]);
    }
    if ep.wd > 6 {
        assert(t[3] == u[3] && t[10] == u[10]);
    }
}

/// The new taps depend on the deciding taps alone, and on the outer ones where a wide filter may
/// apply.
pub proof fn lemma_new_taps_local(t: Seq<int>, u: Seq<int>, ep: EdgeParams)
    requires
        t.len() == 14,
        u.len() == 14,
        forall|j: int|
            7 - deciding_taps(ep.wd) <= j < 7 + deciding_taps(ep.wd) ==> #[trigger] t[j] == u[j],
        ep.wd >= 16 && filter_mask(t, ep) ==> t == u,
    ensures
        new_taps(t, ep) == new_taps(u, ep),
{
    assert(t[5] == u[5] && t[6] == u[6] && t[7] == u[7] && t[8] == u[8]);
    if ep.wd > 4 {
        assert(t[4] == u[4] && t[9] == u[9]);
    }
    if ep.wd > 6 {
        assert(t[3] == u[3] && t[10] == u[10]);
    }
    if ep.wd < 16 || !filter_mask(t, ep) {
        assert(edge_filter(t, ep) == edge_filter(u, ep));
        reveal(narrow_p);
        reveal(narrow_q);
        reveal(narrow_outer);
        lemma_wide8_values(t);
        lemma_wide8_values(u);
        lemma_wide6_values(t);
        lemma_wide6_values(u);
        assert(new_taps(t, ep).1 =~= new_taps(u, ep).1);
    }
}

proof fn lemma_held_range(t: Seq<int>, j: int, lo: int, hi: int, least: int, greatest: int)
    requires
        lo <= hi,
        forall|k: int| lo <= k <= hi ==> least <= #[trigger] t[k] <= greatest,
    ensures
        least <= held(t, j, lo, hi) <= greatest,
{
    reveal(held);
}

/// An average of taps lies between the smallest and the largest of them.
pub proof fn lemma_wide16_range(t: Seq<int>, j: int, least: int, greatest: int)
    requires
        t.len() == 14,
        forall|k: int| 0 <= k <= 13 ==> least <= #[trigger] t[k] <= greatest,
    ensures
        least <= wide16(t, j) <= greatest,
{
    reveal(wide16);
    lemma_held_range(t, j - 6, 0, 13, least, greatest);
    lemma_held_range(t, j - 5, 0, 13, least, greatest);
    lemma_held_range(t, j - 4, 0, 13, least, greatest);
    lemma_held_range(t, j - 3, 0, 13, least, greatest);
    lemma_held_range(t, j - 2, 0, 13, least, greatest);
    lemma_held_range(t, j - 1, 0, 13, least, greatest);
    lemma_held_range(t, j, 0, 13, least, greatest);
    lemma_held_range(t, j + 1, 0, 13, least, greatest);
    lemma_held_range(t, j + 2, 0, 13, least, greatest);
    lemma_held_range(t, j + 3, 0, 13, least, greatest);
    lemma_held_range(t, j + 4, 0, 13, least, greatest);
    lemma_held_range(t, j + 5, 0, 13, least, greatest);
    lemma_held_range(t, j + 6, 0, 13, least, greatest);
}

/// An average of taps lies between the smallest and the largest of them.
pub proof fn lemma_wide8_range(t: Seq<int>, j: int, least: int, greatest: int)
    requires
        t.len() == 14,
        forall|k: int| 3 <= k <= 10 ==> least <= #[trigger] t[k] <= greatest,
    ensures
        least <= wide8(t, j) <= greatest,
{
    reveal(wide8);
    lemma_held_range(t, j - 3, 3, 10, least, greatest);
    lemma_held_range(t, j - 2, 3, 10, least, greatest);
    lemma_held_range(t, j - 1, 3, 10, least, greatest);
    lemma_held_range(t, j, 3, 10, least, greatest);
    lemma_held_range(t, j + 1, 3, 10, least, greatest);
    lemma_held_range(t, j + 2, 3, 10, least, greatest);
    lemma_held_range(t, j + 3, 3, 10, least, greatest);
}

/// An average of taps lies between the smallest and the largest of them.
pub proof fn lemma_wide6_range(t: Seq<int>, j: int, least: int, greatest: int)
    requires
        t.len() == 14,
        forall|k: int| 4 <= k <= 9 ==> least <= #[trigger] t[k] <= greatest,
    ensures
        least <= wide6(t, j) <= greatest,
{
    reveal(wide6);
    lemma_held_range(t, j - 2, 4, 9, least, greatest);
    lemma_held_range(t, j - 1, 4, 9, least, greatest);
    lemma_held_range(t, j, 4, 9, least, greatest);
    lemma_held_range(t, j + 1, 4, 9, least, greatest);
    lemma_held_range(t, j + 2, 4, 9, least, greatest);
}

/// A filtered line of pixels is a line of pixels.
pub proof fn filtered_taps_are_pixels(t: Seq<int>, ep: EdgeParams, j: int)
    requires
        t.len() == 14,
        0 <= j < 14,
        forall|k: int| 0 <= k < 14 ==> 0 <= #[trigger] t[k] <= ep.max_pixel,
    ensures
        0 <= filtered_tap(t, ep, j) <= ep.max_pixel,
{
    lemma_wide16_range(t, j, 0, ep.max_pixel);
    lemma_wide8_range(t, j, 0, ep.max_pixel);
    lemma_wide6_range(t, j, 0, ep.max_pixel);
}

} // verus!
