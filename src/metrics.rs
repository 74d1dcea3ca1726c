//! Box-model metrics and the inline combination of boxes.
use vstd::prelude::*;

verus! {

/// Widths of the four edges of a box.
#[derive(Clone, Copy, PartialEq, Eq, Structural, Debug, Default)]
pub struct BoxEdges {
    pub top: i32,
    pub bottom: i32,
    pub left: i32,
    pub right: i32,
}

/// Size of the content area.
#[derive(Clone, Copy, PartialEq, Eq, Structural, Debug, Default)]
pub struct BoxContent {
    pub width: i32,
    pub height: i32,
}

/// The box model of one box: content size and its padding, margin and border.
#[derive(Clone, Copy, PartialEq, Eq, Structural, Debug, Default)]
pub struct BoxMetrics {
    pub content: BoxContent,
    pub padding: BoxEdges,
    pub margin: BoxEdges,
    pub border: BoxEdges,
}

/// `a + b`, clamped to the range of `i32`.
pub open spec fn sat_add(a: i32, b: i32) -> i32 {
    if a + b > i32::MAX {
        i32::MAX
    } else if a + b < i32::MIN {
        i32::MIN
    } else {
        (a + b) as i32
    }
}

pub open spec fn max_i32(a: i32, b: i32) -> i32 {
    if a >= b {
        a
    } else {
        b
    }
}

pub open spec fn zero_edges() -> BoxEdges {
    BoxEdges { top: 0, bottom: 0, left: 0, right: 0 }
}

/// The box with every dimension zero.
pub open spec fn zero_box() -> BoxMetrics {
    BoxMetrics {
        content: BoxContent { width: 0, height: 0 },
        padding: zero_edges(),
        margin: zero_edges(),
        border: zero_edges(),
    }
}

/// The inline combination used by this library's layout stage: `b` is
/// laid to the right of `a`. Content widths add
/// (saturating), the height is the larger one, and the edges of the
/// combined box are zero.
pub open spec fn spec_lay(a: BoxMetrics, b: BoxMetrics) -> BoxMetrics {
    BoxMetrics {
        content: BoxContent {
            width: sat_add(a.content.width, b.content.width),
            height: max_i32(a.content.height, b.content.height),
        },
        padding: zero_edges(),
        margin: zero_edges(),
        border: zero_edges(),
    }
}

/// Left fold of `spec_lay` over `s`; the zero box for an empty sequence.
pub open spec fn fold_lay(s: Seq<BoxMetrics>) -> BoxMetrics
    decreases s.len(),
{
    if s.len() == 0 {
        zero_box()
    } else if s.len() == 1 {
        s[0]
    } else {
        spec_lay(fold_lay(s.drop_last()), s.last())
    }
}

impl BoxEdges {
    pub fn zero() -> (r: BoxEdges)
        ensures
            r == zero_edges(),
    {
        BoxEdges { top: 0, bottom: 0, left: 0, right: 0 }
    }
}

impl BoxMetrics {
    pub fn zero() -> (r: BoxMetrics)
        ensures
            r == zero_box(),
    {
        BoxMetrics {
            content: BoxContent { width: 0, height: 0 },
            padding: BoxEdges::zero(),
            margin: BoxEdges::zero(),
            border: BoxEdges::zero(),
        }
    }

    /// A box with the given content size and zero edges.
    pub fn sized(width: i32, height: i32) -> (r: BoxMetrics)
        ensures
            r.content == (BoxContent { width, height }),
            r.padding == zero_edges(),
            r.margin == zero_edges(),
            r.border == zero_edges(),
    {
        BoxMetrics {
            content: BoxContent { width, height },
            padding: BoxEdges::zero(),
            margin: BoxEdges::zero(),
            border: BoxEdges::zero(),
        }
    }
}

impl BoxMetrics {
    /// The content size grown by padding, margin and border on each side
    /// (saturating).
    pub fn outer(&self) -> (r: BoxContent)
        ensures
            r.width == sat_add(
                sat_add(
                    sat_add(
                        sat_add(sat_add(sat_add(self.content.width, self.padding.left), self.padding.right), self.margin.left),
                        self.margin.right,
                    ),
                    self.border.left,
                ),
                self.border.right,
            ),
            r.height == sat_add(
                sat_add(
                    sat_add(
                        sat_add(sat_add(sat_add(self.content.height, self.padding.top), self.padding.bottom), self.margin.top),
                        self.margin.bottom,
                    ),
                    self.border.top,
                ),
                self.border.bottom,
            ),
    {
        let mut w = saturating_add(self.content.width, self.padding.left);
        w = saturating_add(w, self.padding.right);
        w = saturating_add(w, self.margin.left);
        w = saturating_add(w, self.margin.right);
        w = saturating_add(w, self.border.left);
        w = saturating_add(w, self.border.right);
        let mut h = saturating_add(self.content.height, self.padding.top);
        h = saturating_add(h, self.padding.bottom);
        h = saturating_add(h, self.margin.top);
        h = saturating_add(h, self.margin.bottom);
        h = saturating_add(h, self.border.top);
        h = saturating_add(h, self.border.bottom);
        BoxContent { width: w, height: h }
    }
}

fn saturating_add(a: i32, b: i32) -> (r: i32)
    ensures
        r == sat_add(a, b),
{
    let s: i64 = a as i64 + b as i64;
    if s > i32::MAX as i64 {
        i32::MAX
    } else if s < i32::MIN as i64 {
        i32::MIN
    } else {
        s as i32
    }
}

/// Lays `b` to the right of `a`.
pub fn lay(a: BoxMetrics, b: BoxMetrics) -> (r: BoxMetrics)
    ensures
        r == spec_lay(a, b),
{
    let height = if a.content.height >= b.content.height {
        a.content.height
    } else {
        b.content.height
    };
    BoxMetrics {
        content: BoxContent { width: saturating_add(a.content.width, b.content.width), height },
        padding: BoxEdges::zero(),
        margin: BoxEdges::zero(),
        border: BoxEdges::zero(),
    }
}

/// Lays out `boxes` from left to right.
pub fn lay_all(boxes: &Vec<BoxMetrics>) -> (r: BoxMetrics)
    ensures
        r == fold_lay(boxes@),
{
    if boxes.len() == 0 {
        return BoxMetrics::zero();
    }
    let mut acc = boxes[0];
    let mut i: usize = 1;
    assert(boxes@.take(1).drop_last() =~= Seq::<BoxMetrics>::empty());
    while i < boxes.len()
        invariant
            1 <= i <= boxes.len(),
            acc == fold_lay(boxes@.take(i as int)),
        decreases boxes.len() - i,
    {
        assert(boxes@.take(i + 1).drop_last() =~= boxes@.take(i as int));
        acc = lay(acc, boxes[i]);
        i = i + 1;
    }
    assert(boxes@.take(boxes.len() as int) =~= boxes@);
    acc
}

} // verus!
