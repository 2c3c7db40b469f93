//! Render-ready geometry: bars, colored points, line segments.
//!
//! Built once per chart invocation from aggregated data and consumed by
//! the rendering backend.  Color is carried as a small class index into a
//! palette the backend owns: for plain bars it alternates strictly by
//! emission order (even against odd index, never by category content);
//! for grouped bars it is the series slot; for keyed scatter points it is
//! the label's index in a fixed key list, with one fallback class for any
//! unmatched label.

use vstd::prelude::*;

use crate::mapper::find_index;
use crate::mapper::find_label;

verus! {

/// Most category slots or series a chart may hold; keeps every bar
/// coordinate inside `i64`.
pub const MAX_SLOTS: usize = 1048576;

/// Widest slot, bar or gap a chart may use; keeps every bar coordinate
/// inside `i64`.
pub const MAX_WIDTH: i64 = 1048576;

/// One bar of a bar chart, in chart coordinates (milli-units on the
/// value axis).
#[derive(Clone, Copy, Debug, PartialEq, Eq, Structural)]
pub struct BarRect {
    /// Left edge of the bar on the category axis.
    pub left: i64,
    /// Width of the bar on the category axis.
    pub width: i64,
    /// Height of the bar: the aggregated value; the bar's base is zero.
    pub height: i64,
    /// Which category slot the bar stands in.
    pub category_slot: usize,
    /// Which series within the slot the bar belongs to.
    pub series_index: usize,
    /// Palette class the renderer should fill the bar with.
    pub color_class: usize,
}

/// One point of a scatter chart.
#[derive(Clone, Copy, Debug, PartialEq, Eq, Structural)]
pub struct ScatterPoint {
    /// Horizontal coordinate, in milli-units.
    pub x: i64,
    /// Vertical coordinate, in milli-units.
    pub y: i64,
    /// Palette class the renderer should draw the point with.
    pub color_class: usize,
}

/// Left edge of the bar at category slot `slot`, series slot `series`:
/// each category occupies a fixed-width slot and the series within it
/// are laid out as adjacent sub-bars separated by `gap`.
pub open spec fn spec_bar_left(
    slot: int,
    series: int,
    slot_width: int,
    bar_width: int,
    gap: int,
) -> int {
    slot * slot_width + series * (bar_width + gap)
}

/// The bars of one category row, in series order: one bar per present
/// value, colored by its series slot.
pub open spec fn spec_row_bars(
    row: Seq<Option<i64>>,
    slot: int,
    slot_width: int,
    bar_width: int,
    gap: int,
) -> Seq<BarRect>
    decreases row.len(),
{
    if row.len() == 0 {
        Seq::empty()
    } else {
        let p = spec_row_bars(row.drop_last(), slot, slot_width, bar_width, gap);
        let s = row.len() - 1;
        match row.last() {
            Some(v) => p.push(
                BarRect {
                    left: spec_bar_left(slot, s, slot_width, bar_width, gap) as i64,
                    width: bar_width as i64,
                    height: v,
                    category_slot: slot as usize,
                    series_index: s as usize,
                    color_class: s as usize,
                },
            ),
            None => p,
        }
    }
}

/// The bars of a whole aggregated matrix, category by category.
pub open spec fn spec_grouped_bars(
    cells: Seq<Seq<Option<i64>>>,
    slot_width: int,
    bar_width: int,
    gap: int,
) -> Seq<BarRect>
    decreases cells.len(),
{
    if cells.len() == 0 {
        Seq::empty()
    } else {
        spec_grouped_bars(cells.drop_last(), slot_width, bar_width, gap) + spec_row_bars(
            cells.last(),
            cells.len() - 1,
            slot_width,
            bar_width,
            gap,
        )
    }
}

/// Builds the rectangles of a grouped bar chart from an aggregated cell
/// matrix: for each category slot, one sub-bar per present series value,
/// left edge `slot * slot_width + series * (bar_width + gap)`, colored by
/// series slot.
///
/// The result is exactly [`spec_grouped_bars`] of the matrix; a pair the
/// aggregation holds no value for yields no bar.
#[verifier::loop_isolation(false)]
pub fn build_grouped_bars(
    cells: &Vec<Vec<Option<i64>>>,
    slot_width: i64,
    bar_width: i64,
    gap: i64,
) -> (bars: Vec<BarRect>)
    requires
        cells@.len() <= MAX_SLOTS,
        forall|c: int| 0 <= c < cells@.len() ==> (#[trigger] cells@[c])@.len() <= MAX_SLOTS,
        0 <= slot_width <= MAX_WIDTH,
        0 <= bar_width <= MAX_WIDTH,
        0 <= gap <= MAX_WIDTH,
    ensures
        bars@ == spec_grouped_bars(
            Seq::new(cells@.len() as nat, |c: int| cells@[c]@),
            slot_width as int,
            bar_width as int,
            gap as int,
        ),
{
    let ghost cv = Seq::new(cells@.len() as nat, |c: int| cells@[c]@);
    let mut bars: Vec<BarRect> = Vec::new();
    let n: usize = cells.len();
    let mut c: usize = 0;
    while c < n
        invariant
            0 <= c <= n,
            bars@ == spec_grouped_bars(
                cv.subrange(0, c as int),
                slot_width as int,
                bar_width as int,
                gap as int,
            ),
        decreases n - c,
    {
        let row = &cells[c];
        let m: usize = row.len();
        let mut s: usize = 0;
        proof {
            assert(cv.subrange(0, c + 1).drop_last() =~= cv.subrange(0, c as int));
            assert(cv.subrange(0, c + 1).last() == cv[c as int]);
            assert(cv[c as int] == row@);
        }
        while s < m
            invariant
                0 <= s <= m,
                m == row@.len(),
                bars@ == spec_grouped_bars(
                    cv.subrange(0, c as int),
                    slot_width as int,
                    bar_width as int,
                    gap as int,
                ) + spec_row_bars(
                    row@.subrange(0, s as int),
                    c as int,
                    slot_width as int,
                    bar_width as int,
                    gap as int,
                ),
            decreases m - s,
        {
            proof {
                assert(row@.subrange(0, s + 1).drop_last() =~= row@.subrange(0, s as int));
                assert(row@.subrange(0, s + 1).last() == row@[s as int]);
            }
            match row[s] {
                Some(v) => {
                    proof {
                        assert((c as int) * (slot_width as int) <= 1048576int * 1048576int)
                            by (nonlinear_arith)
                            requires
                                0 <= c as int <= 1048576,
                                0 <= slot_width as int <= 1048576,
                        ;
                        assert((c as int) * (slot_width as int) >= 0) by (nonlinear_arith)
                            requires
                                0 <= c as int,
                                0 <= slot_width as int,
                        ;
                        assert((s as int) * (bar_width as int + gap as int) <= 1048576int
                            * 2097152int) by (nonlinear_arith)
                            requires
                                0 <= s as int <= 1048576,
                                0 <= bar_width as int + gap as int <= 2097152,
                        ;
                        assert((s as int) * (bar_width as int + gap as int) >= 0)
                            by (nonlinear_arith)
                            requires
                                0 <= s as int,
                                0 <= bar_width as int + gap as int,
                        ;
                    }
                    let left: i64 = (c as i64) * slot_width + (s as i64) * (bar_width + gap);
                    bars.push(
                        BarRect {
                            left,
                            width: bar_width,
                            height: v,
                            category_slot: c,
                            series_index: s,
                            color_class: s,
                        },
                    );
                },
                None => {},
            }
            s += 1;
        }
        proof {
            assert(row@.subrange(0, m as int) =~= row@);
        }
        c += 1;
    }
    proof {
        assert(cv.subrange(0, n as int) =~= cv);
    }
    bars
}

/// Builds the rectangles of a plain bar chart: one bar per value, at
/// `index * slot_width`, colored by emission-index parity alone.
///
/// Every value yields a bar; `bars[i]` stands at slot `i` with height
/// `values[i]` and color class `i % 2`.
#[verifier::loop_isolation(false)]
pub fn build_plain_bars(values: &Vec<i64>, slot_width: i64, bar_width: i64) -> (bars: Vec<
    BarRect,
>)
    requires
        values@.len() <= MAX_SLOTS,
        0 <= slot_width <= MAX_WIDTH,
        0 <= bar_width <= MAX_WIDTH,
    ensures
        bars@.len() == values@.len(),
        forall|i: int|
            0 <= i < bars@.len() ==> {
                &&& (#[trigger] bars@[i]).left == i * slot_width
                &&& bars@[i].width == bar_width
                &&& bars@[i].height == values@[i]
                &&& bars@[i].category_slot == i
                &&& bars@[i].series_index == 0
                &&& bars@[i].color_class == i % 2
            },
{
    let mut bars: Vec<BarRect> = Vec::new();
    let n: usize = values.len();
    let mut i: usize = 0;
    while i < n
        invariant
            0 <= i <= n,
            bars@.len() == i,
            forall|k: int|
                0 <= k < i ==> {
                    &&& (#[trigger] bars@[k]).left == k * slot_width
                    &&& bars@[k].width == bar_width
                    &&& bars@[k].height == values@[k]
                    &&& bars@[k].category_slot == k
                    &&& bars@[k].series_index == 0
                    &&& bars@[k].color_class == k % 2
                },
        decreases n - i,
    {
        proof {
            assert((i as int) * (slot_width as int) <= 1048576int * 1048576int)
                by (nonlinear_arith)
                requires
                    0 <= i as int <= 1048576,
                    0 <= slot_width as int <= 1048576,
            ;
            assert((i as int) * (slot_width as int) >= 0) by (nonlinear_arith)
                requires
                    0 <= i as int,
                    0 <= slot_width as int,
            ;
        }
        let left: i64 = (i as i64) * slot_width;
        bars.push(
            BarRect {
                left,
                width: bar_width,
                height: values[i],
                category_slot: i,
                series_index: 0,
                color_class: i % 2,
            },
        );
        i += 1;
    }
    bars
}

/// Chart geometry is a pure function of the aggregated data: two bar
/// lists built from the same cell matrix with the same layout agree
/// bar for bar.
pub proof fn lemma_bars_deterministic(
    cells: Seq<Seq<Option<i64>>>,
    slot_width: int,
    bar_width: int,
    gap: int,
    a: Seq<BarRect>,
    b: Seq<BarRect>,
)
    requires
        a == spec_grouped_bars(cells, slot_width, bar_width, gap),
        b == spec_grouped_bars(cells, slot_width, bar_width, gap),
    ensures
        a == b,
{
}

/// Color alternation: when every bar's color class is its emission-index
/// parity, consecutive bars always differ in color class — and the class
/// depends on nothing but the index.
pub proof fn lemma_color_alternation(bars: Seq<BarRect>)
    requires
        forall|i: int| 0 <= i < bars.len() ==> (#[trigger] bars[i]).color_class == i % 2,
    ensures
        forall|i: int|
            0 <= i && i + 1 < bars.len() ==> (#[trigger] bars[i]).color_class != bars[
                i + 1
            ].color_class,
{
}

/// Picks the palette class for a categorical label: the label's first
/// index in the fixed key list, or the fallback class `keys.len()` for
/// any unmatched label — never an error.
pub fn color_for_label(keys: &Vec<String>, label: &String) -> (c: usize)
    ensures
        c as int == find_label(keys.deep_view(), label@),
        c <= keys@.len(),
{
    proof {
        crate::mapper::lemma_find_label(keys.deep_view(), label@);
    }
    match find_index(keys, label) {
        Some(i) => i,
        None => keys.len(),
    }
}

/// Builds keyed scatter points: each point keeps its coordinates and is
/// colored by its label's class under [`color_for_label`].
#[verifier::loop_isolation(false)]
pub fn build_keyed_scatter(
    points: &Vec<(i64, i64)>,
    labels: &Vec<String>,
    keys: &Vec<String>,
) -> (r: Vec<ScatterPoint>)
    requires
        labels@.len() == points@.len(),
    ensures
        r@.len() == points@.len(),
        forall|i: int|
            0 <= i < r@.len() ==> {
                &&& (#[trigger] r@[i]).x == points@[i].0
                &&& r@[i].y == points@[i].1
                &&& r@[i].color_class as int == find_label(keys.deep_view(), labels.deep_view()[i])
            },
{
    let mut out: Vec<ScatterPoint> = Vec::new();
    let n: usize = points.len();
    let mut i: usize = 0;
    while i < n
        invariant
            0 <= i <= n,
            out@.len() == i,
            forall|k: int|
                0 <= k < i ==> {
                    &&& (#[trigger] out@[k]).x == points@[k].0
                    &&& out@[k].y == points@[k].1
                    &&& out@[k].color_class as int == find_label(
                        keys.deep_view(),
                        labels.deep_view()[k],
                    )
                },
        decreases n - i,
    {
        let (x, y) = points[i];
        let c = color_for_label(keys, &labels[i]);
        proof {
            assert(labels.deep_view()[i as int] == labels@[i as int]@);
        }
        out.push(ScatterPoint { x, y, color_class: c });
        i += 1;
    }
    out
}

/// Turns an ordered point list into the line segments joining each point
/// to the next: segment `i` runs from point `i` to point `i + 1`.
#[verifier::loop_isolation(false)]
pub fn line_segments(points: &Vec<(i64, i64)>) -> (segs: Vec<((i64, i64), (i64, i64))>)
    ensures
        points@.len() == 0 ==> segs@.len() == 0,
        points@.len() > 0 ==> segs@.len() == points@.len() - 1,
        forall|i: int|
            0 <= i < segs@.len() ==> #[trigger] segs@[i] == (points@[i], points@[i + 1]),
{
    let mut segs: Vec<((i64, i64), (i64, i64))> = Vec::new();
    let n: usize = points.len();
    if n == 0 {
        return segs;
    }
    let mut i: usize = 0;
    while i < n - 1
        invariant
            n >= 1,
            0 <= i <= n - 1,
            segs@.len() == i,
            forall|k: int| 0 <= k < i ==> #[trigger] segs@[k] == (points@[k], points@[k + 1]),
        decreases n - i,
    {
        segs.push((points[i], points[i + 1]));
        i += 1;
    }
    segs
}

/// How many points fall outside a configured axis window: the diagnostic
/// a builder reports instead of crashing when data leaves the domain.
pub open spec fn spec_outside_window(
    points: Seq<(i64, i64)>,
    xlo: int,
    xhi: int,
    ylo: int,
    yhi: int,
) -> int
    decreases points.len(),
{
    if points.len() == 0 {
        0
    } else {
        spec_outside_window(points.drop_last(), xlo, xhi, ylo, yhi) + if xlo
            <= points.last().0 <= xhi && ylo <= points.last().1 <= yhi {
            0int
        } else {
            1int
        }
    }
}

/// Counts the points outside a configured axis window, so a caller can
/// warn (or clamp) rather than crash on out-of-domain data.
#[verifier::loop_isolation(false)]
pub fn count_outside_window(points: &Vec<(i64, i64)>, xlo: i64, xhi: i64, ylo: i64, yhi: i64) -> (c:
    usize)
    ensures
        c as int == spec_outside_window(points@, xlo as int, xhi as int, ylo as int, yhi as int),
{
    let mut c: usize = 0;
    let n: usize = points.len();
    let mut i: usize = 0;
    while i < n
        invariant
            0 <= i <= n,
            c <= i,
            c as int == spec_outside_window(
                points@.subrange(0, i as int),
                xlo as int,
                xhi as int,
                ylo as int,
                yhi as int,
            ),
        decreases n - i,
    {
        proof {
            assert(points@.subrange(0, i + 1).drop_last() =~= points@.subrange(0, i as int));
            assert(points@.subrange(0, i + 1).last() == points@[i as int]);
        }
        let (x, y) = points[i];
        if !(xlo <= x && x <= xhi && ylo <= y && y <= yhi) {
            c += 1;
        }
        i += 1;
    }
    proof {
        assert(points@.subrange(0, n as int) =~= points@);
    }
    c
}

} // verus!
