use vstd::prelude::*;

verus! {

/// A bounding box in nanodegrees: `left`/`right` bound the x axis,
/// `bottom`/`top` the y axis.
///
/// The empty box (see [`Bbox::default`]) has every bound at the far end of its
/// range, so that the first point added sets all four of them.
#[derive(Debug, Clone, Copy, PartialEq, Eq, Structural)]
pub struct Bbox {
    pub left: i64,
    pub right: i64,
    pub top: i64,
    pub bottom: i64,
}

/// The empty box: no point has been added yet.
pub open spec fn empty_bbox() -> Bbox {
    Bbox { left: i64::MAX, right: i64::MIN, top: i64::MIN, bottom: i64::MAX }
}

/// `m` is the smallest element of `xs`.
pub open spec fn is_min_of(m: i64, xs: Seq<i64>) -> bool {
    (exists|i: int| 0 <= i < xs.len() && xs[i] == m) && (forall|i: int|
        0 <= i < xs.len() ==> m <= xs[i])
}

/// `m` is the largest element of `xs`.
pub open spec fn is_max_of(m: i64, xs: Seq<i64>) -> bool {
    (exists|i: int| 0 <= i < xs.len() && xs[i] == m) && (forall|i: int|
        0 <= i < xs.len() ==> xs[i] <= m)
}

/// `lo` is the smaller of `start` and every element of `xs`.
pub open spec fn low_bound(lo: i64, start: i64, xs: Seq<i64>) -> bool {
    &&& lo <= start
    &&& forall|i: int| 0 <= i < xs.len() ==> lo <= xs[i]
    &&& lo == start || exists|i: int| 0 <= i < xs.len() && xs[i] == lo
}

/// `hi` is the larger of `start` and every element of `xs`.
pub open spec fn high_bound(hi: i64, start: i64, xs: Seq<i64>) -> bool {
    &&& start <= hi
    &&& forall|i: int| 0 <= i < xs.len() ==> xs[i] <= hi
    &&& hi == start || exists|i: int| 0 <= i < xs.len() && xs[i] == hi
}

/// `b` is `a` grown to hold every x of `xs` and every y of `ys`.
pub open spec fn grown_by(a: Bbox, b: Bbox, xs: Seq<i64>, ys: Seq<i64>) -> bool {
    &&& low_bound(b.left, a.left, xs)
    &&& high_bound(b.right, a.right, xs)
    &&& high_bound(b.top, a.top, ys)
    &&& low_bound(b.bottom, a.bottom, ys)
}

impl Default for Bbox {
    fn default() -> (r: Self)
        ensures
            r == empty_bbox(),
    {
        Bbox { left: i64::MAX, right: i64::MIN, top: i64::MIN, bottom: i64::MAX }
    }
}

impl Bbox {
    /// Grows the box to hold the point `(x, y)`.
    pub fn add_node(&mut self, x: i64, y: i64)
        ensures
            grown_by(*old(self), *final(self), seq![x], seq![y]),
    {
        if x < self.left {
            self.left = x;
        }
        if x > self.right {
            self.right = x;
        }
        if y > self.top {
            self.top = y;
        }
        if y < self.bottom {
            self.bottom = y;
        }
        assert(seq![x][0] == x && seq![y][0] == y);
    }

    /// Grows the box to hold every x of `xs` and every y of `ys`.
    pub fn add_node_list(&mut self, xs: &[i64], ys: &[i64])
        ensures
            grown_by(*old(self), *final(self), xs@, ys@),
    {
        let ghost start = *self;
        let mut i: usize = 0;
        while i < xs.len()
            invariant
                0 <= i <= xs.len(),
                low_bound(self.left, start.left, xs@.take(i as int)),
                high_bound(self.right, start.right, xs@.take(i as int)),
                self.top == start.top,
                self.bottom == start.bottom,
            decreases xs.len() - i,
        {
            let x = xs[i];
            if x < self.left {
                self.left = x;
            }
            if x > self.right {
                self.right = x;
            }
            i = i + 1;
            assert(xs@.take(i as int)[i - 1] == x);
            assert forall|k: int| 0 <= k < i - 1 implies xs@.take(i as int)[k] == xs@.take(
                i - 1,
            )[k] by {}
        }
        assert(xs@.take(xs@.len() as int) =~= xs@);
        let mut j: usize = 0;
        while j < ys.len()
            invariant
                0 <= j <= ys.len(),
                low_bound(self.left, start.left, xs@),
                high_bound(self.right, start.right, xs@),
                high_bound(self.top, start.top, ys@.take(j as int)),
                low_bound(self.bottom, start.bottom, ys@.take(j as int)),
            decreases ys.len() - j,
        {
            let y = ys[j];
            if y > self.top {
                self.top = y;
            }
            if y < self.bottom {
                self.bottom = y;
            }
            j = j + 1;
            assert(ys@.take(j as int)[j - 1] == y);
            assert forall|k: int| 0 <= k < j - 1 implies ys@.take(j as int)[k] == ys@.take(
                j - 1,
            )[k] by {}
        }
        assert(ys@.take(ys@.len() as int) =~= ys@);
    }

    /// Whether no point has been added: the box equals the default one.
    pub fn is_empty(&self) -> (r: bool)
        ensures
            r == (*self == empty_bbox()),
    {
        self.left == i64::MAX && self.right == i64::MIN && self.top == i64::MIN && self.bottom
            == i64::MAX
    }
}

/// Points added to the empty box give exactly their extremes: `left` and
/// `right` are the least and greatest x, `bottom` and `top` the least and
/// greatest y, and the box is no longer empty.
pub proof fn lemma_bbox_of_points(b: Bbox, xs: Seq<i64>, ys: Seq<i64>)
    requires
        grown_by(empty_bbox(), b, xs, ys),
        xs.len() > 0,
        ys.len() > 0,
    ensures
        is_min_of(b.left, xs),
        is_max_of(b.right, xs),
        is_max_of(b.top, ys),
        is_min_of(b.bottom, ys),
        b != empty_bbox(),
{
    assert(b.left <= xs[0] <= b.right);
    if b.left != i64::MAX {
    } else {
        assert(xs[0] == i64::MAX);
    }
    if b.right == i64::MIN {
        assert(xs[0] == i64::MIN);
    }
    if b.top == i64::MIN {
        assert(ys[0] == i64::MIN);
    }
    if b.bottom == i64::MAX {
        assert(ys[0] == i64::MAX);
    }
}

} // verus!
