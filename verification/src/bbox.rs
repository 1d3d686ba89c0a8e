//! Axis-aligned bounding boxes and their union.
//!
//! Coordinates are plain signed integers; the caller picks the unit and the
//! fixed-point scale (the bounds reporting path stores scaled geographic
//! degrees). The box algebra is the same whatever the scale.

use crate::geojson::PolygonGeometry;
use crate::utils::{Error, ScriptError};
use vstd::prelude::*;

verus! {

/// An axis-aligned extent. Normalized boxes have `xmin <= xmax` and
/// `ymin <= ymax`; [`BoundingBox::extend`] and [`BoundingBox::union`] keep
/// that shape when their inputs have it.
#[derive(Clone, Copy, Debug)]
pub struct BoundingBox {
    pub xmin: i64,
    pub ymin: i64,
    pub xmax: i64,
    pub ymax: i64,
}

impl BoundingBox {
    /// The box is normalized: its minima lie at or below its maxima.
    pub open spec fn wf(&self) -> bool {
        self.xmin <= self.xmax && self.ymin <= self.ymax
    }

    /// The componentwise min/max merge of two boxes.
    pub open spec fn spec_extend(a: BoundingBox, b: BoundingBox) -> BoundingBox {
        BoundingBox {
            xmin: if b.xmin < a.xmin {
                b.xmin
            } else {
                a.xmin
            },
            ymin: if b.ymin < a.ymin {
                b.ymin
            } else {
                a.ymin
            },
            xmax: if b.xmax > a.xmax {
                b.xmax
            } else {
                a.xmax
            },
            ymax: if b.ymax > a.ymax {
                b.ymax
            } else {
                a.ymax
            },
        }
    }

    /// The fold of [`BoundingBox::spec_extend`] over a non-empty sequence,
    /// starting from its first element.
    pub open spec fn spec_union(boxes: Seq<BoundingBox>) -> BoundingBox
        recommends
            boxes.len() > 0,
        decreases boxes.len(),
    {
        if boxes.len() <= 1 {
            boxes[0]
        } else {
            Self::spec_extend(Self::spec_union(boxes.drop_last()), boxes.last())
        }
    }

    /// The corner coordinates in `[xmin, ymin, xmax, ymax]` order.
    pub fn to_array(&self) -> (r: [i64; 4])
        ensures
            r@ == seq![self.xmin, self.ymin, self.xmax, self.ymax],
    {
        let r = [self.xmin, self.ymin, self.xmax, self.ymax];
        proof {
            assert(r@ =~= seq![self.xmin, self.ymin, self.xmax, self.ymax]);
        }
        r
    }

    /// The box as a polygon with one closed five-point exterior ring,
    /// counterclockwise from the `(xmin, ymin)` corner back to itself.
    pub fn to_polygon(&self) -> (r: PolygonGeometry)
        ensures
            r.geom_type@ == "polygon"@,
            r.coordinates@.len() == 1,
            ({
                let ring = r.coordinates@[0]@;
                &&& ring.len() == 5
                &&& ring[0]@ == seq![self.xmin, self.ymin]
                &&& ring[1]@ == seq![self.xmax, self.ymin]
                &&& ring[2]@ == seq![self.xmax, self.ymax]
                &&& ring[3]@ == seq![self.xmin, self.ymax]
                &&& ring[4]@ == seq![self.xmin, self.ymin]
            }),
    {
        let mut ring: Vec<[i64; 2]> = Vec::new();
        let p0 = [self.xmin, self.ymin];
        let p1 = [self.xmax, self.ymin];
        let p2 = [self.xmax, self.ymax];
        let p3 = [self.xmin, self.ymax];
        let p4 = [self.xmin, self.ymin];
        proof {
            assert(p0@ =~= seq![self.xmin, self.ymin]);
            assert(p1@ =~= seq![self.xmax, self.ymin]);
            assert(p2@ =~= seq![self.xmax, self.ymax]);
            assert(p3@ =~= seq![self.xmin, self.ymax]);
            assert(p4@ =~= seq![self.xmin, self.ymin]);
        }
        ring.push(p0);
        ring.push(p1);
        ring.push(p2);
        ring.push(p3);
        ring.push(p4);
        PolygonGeometry::from_exterior(ring)
    }

    /// Extend `self` to contain `other`: componentwise min/max merge.
    pub fn extend(&mut self, other: &BoundingBox)
        ensures
            *final(self) == Self::spec_extend(*old(self), *other),
    {
        if other.xmin < self.xmin {
            self.xmin = other.xmin;
        }
        if other.ymin < self.ymin {
            self.ymin = other.ymin;
        }
        if other.xmax > self.xmax {
            self.xmax = other.xmax;
        }
        if other.ymax > self.ymax {
            self.ymax = other.ymax;
        }
    }

    /// The union of all the passed bounding boxes: the smallest box
    /// containing every one of them. An empty slice is refused with
    /// `NotEnoughinputs`.
    pub fn union(boxes: &[BoundingBox]) -> (r: Result<BoundingBox, Error>)
        ensures
            boxes@.len() == 0 ==> (r matches Err(e) && e == Error::ScriptError(
                ScriptError::NotEnoughinputs,
            )),
            boxes@.len() > 0 ==> (r matches Ok(u) && u == Self::spec_union(boxes@)),
    {
        if boxes.is_empty() {
            Err(Error::ScriptError(ScriptError::NotEnoughinputs))
        } else {
            let mut bbox = boxes[0];
            let mut k: usize = 1;
            proof {
                assert(boxes@.take(1) =~= seq![boxes@[0]]);
            }
            while k < boxes.len()
                invariant
                    1 <= k <= boxes@.len(),
                    bbox == Self::spec_union(boxes@.take(k as int)),
                decreases boxes@.len() - k,
            {
                proof {
                    Self::lemma_union_take_step(boxes@, k as int);
                }
                bbox.extend(&boxes[k]);
                k = k + 1;
            }
            proof {
                assert(boxes@.take(boxes@.len() as int) =~= boxes@);
            }
            Ok(bbox)
        }
    }

    /// Folding one more box extends the union of the prefix by that box.
    proof fn lemma_union_take_step(boxes: Seq<BoundingBox>, k: int)
        requires
            1 <= k < boxes.len(),
        ensures
            Self::spec_union(boxes.take(k + 1)) == Self::spec_extend(
                Self::spec_union(boxes.take(k)),
                boxes[k],
            ),
    {
        let t = boxes.take(k + 1);
        assert(t.drop_last() =~= boxes.take(k));
        assert(t.last() == boxes[k]);
    }

    /// The union of a non-empty sequence is the componentwise minimum of the
    /// minima and maximum of the maxima: it bounds every box, and each of
    /// its four coordinates is attained by the box at one of the returned
    /// witness indices.
    pub proof fn lemma_union_bounds(boxes: Seq<BoundingBox>) -> (w: (int, int, int, int))
        requires
            boxes.len() > 0,
        ensures
            forall|k: int|
                0 <= k < boxes.len() ==> {
                    let u = Self::spec_union(boxes);
                    u.xmin <= (#[trigger] boxes[k]).xmin && u.ymin <= boxes[k].ymin
                        && boxes[k].xmax <= u.xmax && boxes[k].ymax <= u.ymax
                },
            0 <= w.0 < boxes.len() && Self::spec_union(boxes).xmin == boxes[w.0].xmin,
            0 <= w.1 < boxes.len() && Self::spec_union(boxes).ymin == boxes[w.1].ymin,
            0 <= w.2 < boxes.len() && Self::spec_union(boxes).xmax == boxes[w.2].xmax,
            0 <= w.3 < boxes.len() && Self::spec_union(boxes).ymax == boxes[w.3].ymax,
        decreases boxes.len(),
    {
        if boxes.len() == 1 {
            (0, 0, 0, 0)
        } else {
            let dl = boxes.drop_last();
            let wd = Self::lemma_union_bounds(dl);
            let u = Self::spec_union(boxes);
            let v = Self::spec_union(dl);
            let last = boxes.len() - 1;
            assert forall|k: int| 0 <= k < boxes.len() implies {
                u.xmin <= (#[trigger] boxes[k]).xmin && u.ymin <= boxes[k].ymin && boxes[k].xmax
                    <= u.xmax && boxes[k].ymax <= u.ymax
            } by {
                if k < boxes.len() - 1 {
                    assert(dl[k] == boxes[k]);
                }
            }
            assert(dl[wd.0] == boxes[wd.0]);
            assert(dl[wd.1] == boxes[wd.1]);
            assert(dl[wd.2] == boxes[wd.2]);
            assert(dl[wd.3] == boxes[wd.3]);
            let w0 = if u.xmin == boxes[last].xmin { last } else { wd.0 };
            let w1 = if u.ymin == boxes[last].ymin { last } else { wd.1 };
            let w2 = if u.xmax == boxes[last].xmax { last } else { wd.2 };
            let w3 = if u.ymax == boxes[last].ymax { last } else { wd.3 };
            (w0, w1, w2, w3)
        }
    }

    /// The union does not depend on the order of the boxes: any two
    /// sequences holding the same boxes the same number of times have the
    /// same union.
    pub proof fn lemma_union_permutation(a: Seq<BoundingBox>, b: Seq<BoundingBox>)
        requires
            a.len() > 0,
            a.to_multiset() == b.to_multiset(),
        ensures
            Self::spec_union(a) == Self::spec_union(b),
    {
        broadcast use vstd::seq_lib::group_seq_properties;

        a.to_multiset_ensures();
        b.to_multiset_ensures();
        assert(b.len() > 0);
        Self::lemma_union_bounds(a);
        Self::lemma_union_bounds(b);
        let u = Self::spec_union(a);
        let v = Self::spec_union(b);
        Self::lemma_coordinate_le(a, b, u, v);
        Self::lemma_coordinate_le(b, a, v, u);
        assert(u.xmin == v.xmin && u.ymin == v.ymin && u.xmax == v.xmax && u.ymax == v.ymax);
    }

    /// Half of the permutation argument: whatever coordinate the union of
    /// `a` attains in some box also occurs in `b`, so the union of `b` lies
    /// at or beyond it.
    proof fn lemma_coordinate_le(a: Seq<BoundingBox>, b: Seq<BoundingBox>, u: BoundingBox, v: BoundingBox)
        requires
            a.len() > 0,
            b.len() > 0,
            a.to_multiset() == b.to_multiset(),
            u == Self::spec_union(a),
            v == Self::spec_union(b),
        ensures
            v.xmin <= u.xmin,
            v.ymin <= u.ymin,
            u.xmax <= v.xmax,
            u.ymax <= v.ymax,
    {
        let wa = Self::lemma_union_bounds(a);
        Self::lemma_union_bounds(b);
        assert(a.contains(a[wa.0]));
        Self::lemma_contains_transfer(a, b, a[wa.0]);
        let jx = choose|j: int| 0 <= j < b.len() && b[j] == a[wa.0];
        assert(v.xmin <= b[jx].xmin);
        assert(a.contains(a[wa.1]));
        Self::lemma_contains_transfer(a, b, a[wa.1]);
        let jy = choose|j: int| 0 <= j < b.len() && b[j] == a[wa.1];
        assert(v.ymin <= b[jy].ymin);
        assert(a.contains(a[wa.2]));
        Self::lemma_contains_transfer(a, b, a[wa.2]);
        let jp = choose|j: int| 0 <= j < b.len() && b[j] == a[wa.2];
        assert(b[jp].xmax <= v.xmax);
        assert(a.contains(a[wa.3]));
        Self::lemma_contains_transfer(a, b, a[wa.3]);
        let jq = choose|j: int| 0 <= j < b.len() && b[j] == a[wa.3];
        assert(b[jq].ymax <= v.ymax);
    }

    /// An element of `a` is an element of any sequence with the same
    /// multiset of elements.
    proof fn lemma_contains_transfer(a: Seq<BoundingBox>, b: Seq<BoundingBox>, x: BoundingBox)
        requires
            a.to_multiset() == b.to_multiset(),
            a.contains(x),
        ensures
            b.contains(x),
    {
        a.to_multiset_ensures();
        b.to_multiset_ensures();
        assert(a.to_multiset().count(x) > 0);
        assert(b.to_multiset().count(x) > 0);
    }

    /// The merge is commutative.
    pub proof fn lemma_extend_commutative(a: BoundingBox, b: BoundingBox)
        ensures
            Self::spec_extend(a, b) == Self::spec_extend(b, a),
    {
    }

    /// The merge is associative.
    pub proof fn lemma_extend_associative(a: BoundingBox, b: BoundingBox, c: BoundingBox)
        ensures
            Self::spec_extend(Self::spec_extend(a, b), c) == Self::spec_extend(
                a,
                Self::spec_extend(b, c),
            ),
    {
    }

    /// A box's union with itself is the box: self-union is idempotent.
    pub proof fn lemma_union_self_idempotent(a: BoundingBox)
        ensures
            Self::spec_union(seq![a, a]) == a,
    {
        let s = seq![a, a];
        assert(s.last() == a);
        assert(s.drop_last() =~= seq![a]);
        assert(Self::spec_union(seq![a]) == a);
        assert(Self::spec_extend(a, a) == a);
    }

    /// A union of normalized boxes is normalized.
    pub proof fn lemma_union_wf(boxes: Seq<BoundingBox>)
        requires
            boxes.len() > 0,
            forall|k: int| 0 <= k < boxes.len() ==> (#[trigger] boxes[k]).wf(),
        ensures
            Self::spec_union(boxes).wf(),
        decreases boxes.len(),
    {
        if boxes.len() > 1 {
            let dl = boxes.drop_last();
            assert forall|k: int| 0 <= k < dl.len() implies (#[trigger] dl[k]).wf() by {
                assert(dl[k] == boxes[k]);
            }
            Self::lemma_union_wf(dl);
        }
    }
}

} // verus!
