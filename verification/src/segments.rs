//! The segments of a local shard, as far as updates see them: which points
//! each segment holds, with which version, vector and payload, and whether
//! the segment still takes new points.
//!
//! A point is in at most one segment. Every write carries the sequence
//! number of its operation; a point that a later operation has written is
//! left alone by an earlier one.

use vstd::prelude::*;
use crate::id_map::{lemma_position_of, IdMap};
use crate::operations::{Payload, VectorBits};
use crate::types::{PointId, SeqNumberType};

verus! {

/// A point as a segment stores it.
pub struct StoredPoint {
    /// The sequence number of the operation that wrote the point last.
    pub version: SeqNumberType,
    pub vector: VectorBits,
    pub payload: Payload,
}

/// A segment of a local shard.
pub struct Segment {
    /// True while the segment takes new points; false once it is sealed for
    /// optimisation.
    pub appendable: bool,
    pub points: IdMap<PointId, StoredPoint>,
    /// The payload fields that have an index.
    pub indexed_fields: Vec<String>,
}

/// The segments of a local shard.
pub struct SegmentHolder {
    pub segments: Vec<Segment>,
}

/// All points of `segments`, by id.
pub open spec fn points_of(segments: Seq<Segment>) -> Map<PointId, StoredPoint>
    decreases segments.len(),
{
    if segments.len() == 0 {
        Map::empty()
    } else {
        points_of(segments.drop_last()).union_prefer_right(segments.last().points@)
    }
}

/// No point is in two segments, and no segment holds a point twice.
pub open spec fn disjoint(segments: Seq<Segment>) -> bool {
    &&& forall|i: int| 0 <= i < segments.len() ==> (#[trigger] segments[i]).points.wf()
    &&& forall|i: int, j: int, id: PointId|
        0 <= i < j < segments.len() && #[trigger] segments[i].points@.dom().contains(id)
            ==> !#[trigger] segments[j].points@.dom().contains(id)
}

/// A point is among all points when a segment holds it, and is then what
/// that segment holds.
pub proof fn lemma_points_of(segments: Seq<Segment>, id: PointId)
    requires
        disjoint(segments),
    ensures
        points_of(segments).dom().contains(id) <==> exists|i: int|
            0 <= i < segments.len() && (#[trigger] segments[i]).points@.dom().contains(id),
        forall|i: int|
            0 <= i < segments.len() && (#[trigger] segments[i]).points@.dom().contains(id)
                ==> points_of(segments)[id] == segments[i].points@[id],
    decreases segments.len(),
{
    if segments.len() > 0 {
        let rest = segments.drop_last();
        assert(disjoint(rest)) by {
            assert forall|i: int| 0 <= i < rest.len() implies (#[trigger] rest[i]).points.wf() by {
                assert(rest[i] == segments[i]);
            }
            assert forall|i: int, j: int, p: PointId|
                0 <= i < j < rest.len() && #[trigger] rest[i].points@.dom().contains(
                    p,
                ) implies !#[trigger] rest[j].points@.dom().contains(p) by {
                assert(rest[i] == segments[i] && rest[j] == segments[j]);
                assert(segments[i].points@.dom().contains(p));
            }
        }
        lemma_points_of(rest, id);
        let last = segments.last();
        let n = segments.len() - 1;
        assert(last == segments[n]);
        let all = points_of(segments);
        let before = points_of(rest);
        assert(all.dom().contains(id) == (before.dom().contains(id) || last.points@.dom().contains(
            id,
        )));
        if before.dom().contains(id) {
            let i = choose|i: int|
                0 <= i < rest.len() && (#[trigger] rest[i]).points@.dom().contains(id);
            assert(segments[i] == rest[i]);
            assert(segments[i].points@.dom().contains(id));
            assert(!segments[n].points@.dom().contains(id));
        }
        if last.points@.dom().contains(id) {
            assert(segments[n].points@.dom().contains(id));
        }
        if exists|i: int|
            0 <= i < segments.len() && (#[trigger] segments[i]).points@.dom().contains(id) {
            let i = choose|i: int|
                0 <= i < segments.len() && (#[trigger] segments[i]).points@.dom().contains(id);
            if i < n {
                assert(rest[i] == segments[i]);
                assert(rest[i].points@.dom().contains(id));
                assert(before.dom().contains(id));
            }
        }
        assert forall|i: int|
            0 <= i < segments.len() && (#[trigger] segments[i]).points@.dom().contains(
                id,
            ) implies all[id] == segments[i].points@[id] by {
            if i < n {
                assert(rest[i] == segments[i]);
                assert(rest[i].points@.dom().contains(id));
                assert(segments[i].points@.dom().contains(id));
                assert(!segments[n].points@.dom().contains(id));
                assert(before[id] == rest[i].points@[id]);
            }
        }
    }
}

/// True when two lists of segments differ in their points only.
pub open spec fn same_shape(a: Seq<Segment>, b: Seq<Segment>) -> bool {
    a.len() == b.len() && forall|i: int|
        0 <= i < a.len() ==> (#[trigger] a[i]).appendable == b[i].appendable && a[i].indexed_fields
            == b[i].indexed_fields
}

/// True when every point but `id` lies in `after` where it lies in
/// `before`.
pub open spec fn kept_homes(before: Seq<Segment>, after: Seq<Segment>, id: PointId) -> bool {
    after.len() == before.len() && forall|k: int, other: PointId|
        0 <= k < after.len() && other != id ==> #[trigger] after[k].points@.dom().contains(other)
            == before[k].points@.dom().contains(other)
}

/// True when point `id` lies in a segment of `segments` that takes new
/// points.
pub open spec fn in_appendable(segments: Seq<Segment>, id: PointId) -> bool {
    exists|k: int|
        0 <= k < segments.len() && segments[k].appendable && #[trigger] segments[k].points@.dom().contains(
            id,
        )
}

/// A point that lies in a segment that takes new points still does so when
/// another point has moved.
pub proof fn lemma_stays_in_appendable(
    before: Seq<Segment>,
    after: Seq<Segment>,
    moved: PointId,
    id: PointId,
)
    requires
        kept_homes(before, after, moved),
        same_shape(before, after),
        id != moved,
    ensures
        in_appendable(after, id) == in_appendable(before, id),
{
    if in_appendable(before, id) {
        let k = choose|k: int|
            0 <= k < before.len() && before[k].appendable && #[trigger] before[k].points@.dom().contains(
                id,
            );
        assert(after[k].points@.dom().contains(id));
    }
    if in_appendable(after, id) {
        let k = choose|k: int|
            0 <= k < after.len() && after[k].appendable && #[trigger] after[k].points@.dom().contains(
                id,
            );
        assert(before[k].points@.dom().contains(id));
    }
}

impl SegmentHolder {
    /// No point is in two segments.
    pub open spec fn wf(&self) -> bool {
        disjoint(self.segments@)
    }

    /// All points of the holder, by id.
    pub open spec fn view(&self) -> Map<PointId, StoredPoint> {
        points_of(self.segments@)
    }

    /// A holder of `segments`.
    pub fn new() -> (holder: Self)
        ensures
            holder.wf(),
            holder.segments@.len() == 0,
            holder@ == Map::<PointId, StoredPoint>::empty(),
    {
        SegmentHolder { segments: Vec::new() }
    }

    /// Adds an empty segment and returns its index.
    pub fn add_segment(&mut self, appendable: bool) -> (index: usize)
        requires
            old(self).wf(),
        ensures
            final(self).wf(),
            final(self)@ == old(self)@,
            index == old(self).segments@.len(),
            final(self).segments@.len() == old(self).segments@.len() + 1,
            final(self).segments@[index as int].appendable == appendable,
            final(self).segments@[index as int].points.entries().len() == 0,
            final(self).segments@[index as int].indexed_fields@.len() == 0,
            forall|i: int|
                0 <= i < old(self).segments@.len() ==> #[trigger] final(self).segments@[i] == old(
                    self).segments@[i],
    {
        let segment = Segment { appendable, points: IdMap::new(), indexed_fields: Vec::new() };
        proof {
            assert forall|id: PointId| !segment.points@.dom().contains(id) by {
                lemma_position_of(segment.points.entries(), id);
            }
        }
        let index = self.segments.len();
        self.segments.push(segment);
        proof {
            let after = self.segments@;
            let before = old(self).segments@;
            assert(after.drop_last() == before);
            assert(points_of(after) =~= points_of(before));
            assert forall|i: int, j: int, id: PointId|
                0 <= i < j < after.len() && #[trigger] after[i].points@.dom().contains(
                    id,
                ) implies !#[trigger] after[j].points@.dom().contains(id) by {
                if j < before.len() {
                    assert(after[i] == before[i] && after[j] == before[j]);
                    assert(before[i].points@.dom().contains(id));
                }
            }
            assert forall|i: int| 0 <= i < after.len() implies (#[trigger] after[i]).points.wf() by {
                if i < before.len() {
                    assert(after[i] == before[i]);
                }
            }
        }
        index
    }

    /// The index of the segment that holds `id`.
    pub fn segment_of(&self, id: PointId) -> (r: Option<usize>)
        requires
            self.wf(),
        ensures
            match r {
                Some(i) => i < self.segments@.len() && self.segments@[i as int].points@.dom().contains(
                    id,
                ) && self@.dom().contains(id) && self@[id] == self.segments@[i as int].points@[id],
                None => !self@.dom().contains(id),
            },
    {
        proof {
            lemma_points_of(self.segments@, id);
        }
        let mut i: usize = 0;
        while i < self.segments.len()
            invariant
                i <= self.segments.len(),
                self.wf(),
                forall|k: int| 0 <= k < i ==> !(#[trigger] self.segments@[k]).points@.dom().contains(id),
            decreases self.segments.len() - i,
        {
            if self.segments[i].points.contains(id) {
                proof {
                    lemma_points_of(self.segments@, id);
                    assert(self.segments@[i as int].points@.dom().contains(id));
                }
                return Some(i);
            }
            i += 1;
        }
        proof {
            lemma_points_of(self.segments@, id);
        }
        None
    }

    /// The index of the first segment that takes new points.
    pub fn first_appendable(&self) -> (r: Option<usize>)
        ensures
            match r {
                Some(i) => i < self.segments@.len() && self.segments@[i as int].appendable
                    && forall|k: int| 0 <= k < i ==> !(#[trigger] self.segments@[k]).appendable,
                None => forall|k: int|
                    0 <= k < self.segments@.len() ==> !(#[trigger] self.segments@[k]).appendable,
            },
    {
        let mut i: usize = 0;
        while i < self.segments.len()
            invariant
                i <= self.segments.len(),
                forall|k: int| 0 <= k < i ==> !(#[trigger] self.segments@[k]).appendable,
            decreases self.segments.len() - i,
        {
            if self.segments[i].appendable {
                return Some(i);
            }
            i += 1;
        }
        None
    }

    /// Takes the point `id` out of its segment.
    pub fn take_point(&mut self, id: PointId) -> (r: Option<(usize, StoredPoint)>)
        requires
            old(self).wf(),
        ensures
            final(self).wf(),
            same_shape(old(self).segments@, final(self).segments@),
            kept_homes(old(self).segments@, final(self).segments@, id),
            forall|k: int|
                0 <= k < final(self).segments@.len() ==> !(#[trigger] final(
                    self).segments@[k]).points@.dom().contains(id),
            final(self)@ == old(self)@.remove(id),
            match r {
                Some((i, point)) => old(self)@.dom().contains(id) && point == old(self)@[id] && i
                    < old(self).segments@.len() && old(self).segments@[i as int].points@.dom().contains(
                    id,
                ),
                None => !old(self)@.dom().contains(id),
            },
    {
        match self.segment_of(id) {
            None => {
                proof {
                    assert(old(self)@.remove(id) =~= old(self)@);
                    lemma_points_of(self.segments@, id);
                }
                None
            },
            Some(i) => {
                let removed = self.segments[i].points.remove(id);
                proof {
                    lemma_segment_changed(old(self).segments@, self.segments@, i as int, id);
                    lemma_points_of(self.segments@, id);
                }
                match removed {
                    Some(point) => Some((i, point)),
                    None => None,
                }
            },
        }
    }

    /// Puts `point` as point `id` into segment `at`. No segment holds the
    /// point yet.
    pub fn put_point(&mut self, at: usize, id: PointId, point: StoredPoint)
        requires
            old(self).wf(),
            at < old(self).segments@.len(),
            !old(self)@.dom().contains(id),
        ensures
            final(self).wf(),
            same_shape(old(self).segments@, final(self).segments@),
            kept_homes(old(self).segments@, final(self).segments@, id),
            forall|k: int|
                0 <= k < final(self).segments@.len() ==> (#[trigger] final(
                    self).segments@[k]).points@.dom().contains(id) == (k == at),
            final(self)@ == old(self)@.insert(id, point),
    {
        proof {
            lemma_points_of(old(self).segments@, id);
        }
        self.segments[at].points.insert(id, point);
        proof {
            lemma_segment_changed(old(self).segments@, self.segments@, at as int, id);
        }
    }
}

/// When one segment changes at one point that no other segment holds, all
/// points together change at that point only, and as the segment does.
pub proof fn lemma_segment_changed(
    before: Seq<Segment>,
    after: Seq<Segment>,
    at: int,
    id: PointId,
)
    requires
        disjoint(before),
        0 <= at < before.len(),
        after.len() == before.len(),
        forall|i: int| 0 <= i < before.len() && i != at ==> #[trigger] after[i] == before[i],
        after[at].appendable == before[at].appendable,
        after[at].indexed_fields == before[at].indexed_fields,
        after[at].points.wf(),
        forall|i: int|
            0 <= i < before.len() && i != at ==> !(#[trigger] before[i]).points@.dom().contains(id),
        after[at].points@ == before[at].points@.remove(id) || exists|p: StoredPoint|
            after[at].points@ == before[at].points@.insert(id, p),
    ensures
        disjoint(after),
        same_shape(before, after),
        after[at].points@ == before[at].points@.remove(id) ==> points_of(after) == points_of(
            before,
        ).remove(id),
        forall|p: StoredPoint|
            after[at].points@ == before[at].points@.insert(id, p) ==> points_of(after)
                == points_of(before).insert(id, p),
{
    assert forall|i: int, j: int, other: PointId|
        0 <= i < j < after.len() && #[trigger] after[i].points@.dom().contains(
            other,
        ) implies !#[trigger] after[j].points@.dom().contains(other) by {
        if other != id {
            assert(before[i].points@.dom().contains(other));
            assert(!before[j].points@.dom().contains(other));
        }
    }
    lemma_points_of(before, id);
    lemma_points_of(after, id);
    assert(!points_of(after).dom().contains(id) || after[at].points@.dom().contains(id)) by {
        if points_of(after).dom().contains(id) {
            let i = choose|i: int|
                0 <= i < after.len() && (#[trigger] after[i]).points@.dom().contains(id);
            if i != at {
                assert(before[i].points@.dom().contains(id));
            }
        }
    }
    if after[at].points@ == before[at].points@.remove(id) {
        let target = points_of(before).remove(id);
        let result = points_of(after);
        assert forall|k: PointId|
            #![trigger result.dom().contains(k)]
            #![trigger target.dom().contains(k)]
            result.dom().contains(k) == target.dom().contains(k) && (result.dom().contains(k)
                ==> result[k] == target[k]) by {
            if k != id {
                lemma_other_point(before, after, at, id, k);
            }
        }
        assert(result =~= target);
    }
    assert forall|p: StoredPoint|
        after[at].points@ == before[at].points@.insert(id, p) implies points_of(after)
            == points_of(before).insert(id, p) by {
        assert(after[at].points@.dom().contains(id));
        assert(points_of(after)[id] == after[at].points@[id]);
        assert(points_of(after).dom().contains(id));
        let target = points_of(before).insert(id, p);
        let result = points_of(after);
        assert forall|k: PointId|
            #![trigger result.dom().contains(k)]
            #![trigger target.dom().contains(k)]
            result.dom().contains(k) == target.dom().contains(k) && (result.dom().contains(k)
                ==> result[k] == target[k]) by {
            if k != id {
                lemma_other_point(before, after, at, id, k);
            }
        }
        assert(result =~= target);
    }
}

/// When one segment changes at point `id` only, every other point is where
/// and what it was.
pub proof fn lemma_other_point(
    before: Seq<Segment>,
    after: Seq<Segment>,
    at: int,
    id: PointId,
    other: PointId,
)
    requires
        disjoint(before),
        disjoint(after),
        0 <= at < before.len(),
        after.len() == before.len(),
        forall|i: int| 0 <= i < before.len() && i != at ==> #[trigger] after[i] == before[i],
        after[at].points@ == before[at].points@.remove(id) || exists|p: StoredPoint|
            after[at].points@ == before[at].points@.insert(id, p),
        other != id,
    ensures
        points_of(after).dom().contains(other) == points_of(before).dom().contains(other),
        points_of(after).dom().contains(other) ==> points_of(after)[other] == points_of(
            before,
        )[other],
{
    lemma_points_of(before, other);
    lemma_points_of(after, other);
    if points_of(before).dom().contains(other) {
        let i = choose|i: int|
            0 <= i < before.len() && (#[trigger] before[i]).points@.dom().contains(other);
        assert(after[i].points@.dom().contains(other));
        assert(after[i].points@[other] == before[i].points@[other]);
    }
    if points_of(after).dom().contains(other) {
        let i = choose|i: int|
            0 <= i < after.len() && (#[trigger] after[i]).points@.dom().contains(other);
        assert(before[i].points@.dom().contains(other));
        assert(after[i].points@[other] == before[i].points@[other]);
    }
}

} // verus!
