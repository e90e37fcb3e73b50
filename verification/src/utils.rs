//! Small tools of the builder: concatenation of index lists, the buckets that
//! a split is chosen from, and the joint box of a set of shapes.
use vstd::prelude::*;

use crate::aabb::AABB;
use crate::Point2;

verus! {

/// The vectors' contents, one after the other.
pub open spec fn concatenation<T>(vectors: Seq<Vec<T>>) -> Seq<T>
    decreases vectors.len(),
{
    if vectors.len() == 0 {
        Seq::empty()
    } else {
        concatenation(vectors.drop_last()) + vectors.last()@
    }
}

/// Moves the contents of all the vectors, in order, into one new vector.
pub fn concatenate_vectors<T: Sized>(vectors: &mut [Vec<T>]) -> (result: Vec<T>)
    ensures
        result@ == concatenation(old(vectors)@),
        final(vectors)@.len() == old(vectors)@.len(),
        forall|i: int| 0 <= i < final(vectors)@.len() ==> (#[trigger] final(vectors)@[i])@.len() == 0,
{
    let mut result = Vec::new();
    let count = vectors.len();
    let mut i: usize = 0;
    while i < count
        invariant
            i <= count,
            vectors@.len() == count,
            old(vectors)@.len() == count,
            result@ == concatenation(old(vectors)@.take(i as int)),
            forall|j: int| 0 <= j < i ==> (#[trigger] vectors@[j])@.len() == 0,
            forall|j: int| i <= j < count ==> vectors@[j] == old(vectors)@[j],
        decreases count - i,
    {
        proof {
            assert(old(vectors)@.take(i + 1).drop_last() == old(vectors)@.take(i as int));
        }
        result.append(&mut vectors[i]);
        i += 1;
    }
    proof {
        assert(old(vectors)@.take(count as int) == old(vectors)@);
    }
    result
}

/// The least box that holds the boxes at the given indices; the empty box
/// where there is none.
pub open spec fn joint_aabb(indices: Seq<usize>, boxes: Seq<AABB>) -> AABB
    decreases indices.len(),
{
    if indices.len() == 0 {
        AABB::spec_empty()
    } else {
        joint_aabb(indices.drop_last(), boxes).spec_join(boxes[indices.last() as int])
    }
}

/// A running union of boxes, with their number.
#[derive(Copy, Clone, Debug, PartialEq, Eq, Structural)]
pub struct Bucket {
    pub size: usize,
    pub aabb: AABB,
}

impl Bucket {
    /// The bucket of no box.
    pub open spec fn spec_empty() -> Bucket {
        Bucket { size: 0, aabb: AABB::spec_empty() }
    }

    /// The bucket of the boxes of both.
    pub open spec fn spec_join_bucket(self, other: Bucket) -> Bucket {
        Bucket { size: (self.size + other.size) as usize, aabb: self.aabb.spec_join(other.aabb) }
    }

    /// The bucket of no box.
    pub fn empty() -> (bucket: Bucket)
        ensures
            bucket == Self::spec_empty(),
    {
        Bucket { size: 0, aabb: AABB::empty() }
    }

    /// Takes one more box into the bucket.
    pub fn add_aabb(&mut self, aabb: &AABB)
        requires
            old(self).size < usize::MAX,
        ensures
            *final(self) == (Bucket {
                size: (old(self).size + 1) as usize,
                aabb: old(self).aabb.spec_join(*aabb),
            }),
    {
        self.size += 1;
        self.aabb = self.aabb.join(aabb);
    }

    /// The bucket of the boxes of both buckets.
    pub fn join_bucket(a: Bucket, b: &Bucket) -> (joined: Bucket)
        requires
            a.size + b.size <= usize::MAX,
        ensures
            joined == a.spec_join_bucket(*b),
    {
        Bucket { size: a.size + b.size, aabb: a.aabb.join(&b.aabb) }
    }
}

/// Whether every index names one of the boxes.
pub open spec fn indices_in_range(indices: Seq<usize>, boxes: Seq<AABB>) -> bool {
    forall|i: int| 0 <= i < indices.len() ==> indices[i] < boxes.len()
}

/// The least box that holds the shapes' boxes at the given indices.
pub fn joint_aabb_of_shapes(indices: &[usize], shapes: &[AABB]) -> (aabb: AABB)
    requires
        indices_in_range(indices@, shapes@),
    ensures
        aabb == joint_aabb(indices@, shapes@),
{
    let mut aabb = AABB::empty();
    let mut i: usize = 0;
    while i < indices.len()
        invariant
            i <= indices@.len(),
            indices_in_range(indices@, shapes@),
            aabb == joint_aabb(indices@.take(i as int), shapes@),
        decreases indices@.len() - i,
    {
        proof {
            assert(indices@.take(i + 1).drop_last() == indices@.take(i as int));
        }
        let shape = &shapes[indices[i]];
        aabb.join_mut(shape);
        i += 1;
    }
    proof {
        assert(indices@.take(indices@.len() as int) == indices@);
    }
    aabb
}

/// The joint box of two lists of boxes is the union of the two lists' joint
/// boxes.
pub proof fn lemma_joint_aabb_concat(a: Seq<usize>, b: Seq<usize>, boxes: Seq<AABB>)
    ensures
        joint_aabb(a + b, boxes) == joint_aabb(a, boxes).spec_join(joint_aabb(b, boxes)),
    decreases b.len(),
{
    if b.len() == 0 {
        assert(a + b == a);
    } else {
        assert((a + b).drop_last() == a + b.drop_last());
        lemma_joint_aabb_concat(a, b.drop_last(), boxes);
    }
}

/// The joint box of one box is that box.
pub proof fn lemma_joint_aabb_single(index: usize, boxes: Seq<AABB>)
    ensures
        joint_aabb(seq![index], boxes) == boxes[index as int],
{
    assert(seq![index].drop_last().len() == 0);
    assert(joint_aabb(seq![index].drop_last(), boxes) == AABB::spec_empty());
}

/// The joint box holds every point of every box that went into it.
pub proof fn lemma_joint_aabb_contains(indices: Seq<usize>, boxes: Seq<AABB>, i: int, p: Point2)
    requires
        0 <= i < indices.len(),
        boxes[indices[i] as int].contains(p),
    ensures
        joint_aabb(indices, boxes).contains(p),
    decreases indices.len(),
{
    if i < indices.len() - 1 {
        lemma_joint_aabb_contains(indices.drop_last(), boxes, i, p);
    }
}

/// Whether the box `outer` reaches at least as far as `inner` on every side.
pub open spec fn encloses(outer: AABB, inner: AABB) -> bool {
    &&& outer.min.x <= inner.min.x
    &&& outer.min.y <= inner.min.y
    &&& outer.max.x >= inner.max.x
    &&& outer.max.y >= inner.max.y
}

/// The joint box encloses every box that went into it.
pub proof fn lemma_joint_aabb_encloses(indices: Seq<usize>, boxes: Seq<AABB>, i: int)
    requires
        0 <= i < indices.len(),
    ensures
        encloses(joint_aabb(indices, boxes), boxes[indices[i] as int]),
    decreases indices.len(),
{
    if i < indices.len() - 1 {
        lemma_joint_aabb_encloses(indices.drop_last(), boxes, i);
    }
}

/// The joint box of a list encloses the joint box of any list of boxes taken
/// from it.
pub proof fn lemma_joint_aabb_of_fewer(fewer: Seq<usize>, indices: Seq<usize>, boxes: Seq<AABB>)
    requires
        forall|i: int| 0 <= i < fewer.len() ==> indices.contains(#[trigger] fewer[i]),
    ensures
        encloses(joint_aabb(indices, boxes), joint_aabb(fewer, boxes)),
    decreases fewer.len(),
{
    if fewer.len() > 0 {
        let rest = fewer.drop_last();
        assert forall|i: int| 0 <= i < rest.len() implies indices.contains(#[trigger] rest[i]) by {
            assert(rest[i] == fewer[i]);
        }
        lemma_joint_aabb_of_fewer(rest, indices, boxes);
        assert(indices.contains(fewer[fewer.len() - 1]));
        let at = choose|at: int| 0 <= at < indices.len() && indices[at] == fewer.last();
        lemma_joint_aabb_encloses(indices, boxes, at);
    }
}

/// The joint box does not depend on the order in which the boxes are listed.
pub proof fn lemma_joint_aabb_permutation(a: Seq<usize>, b: Seq<usize>, boxes: Seq<AABB>)
    requires
        a.to_multiset() == b.to_multiset(),
    ensures
        joint_aabb(a, boxes) == joint_aabb(b, boxes),
{
    broadcast use vstd::seq_lib::to_multiset_contains;

    assert forall|i: int| 0 <= i < a.len() implies b.contains(#[trigger] a[i]) by {
        assert(a.contains(a[i]));
        assert(a.to_multiset().count(a[i]) > 0);
    }
    assert forall|i: int| 0 <= i < b.len() implies a.contains(#[trigger] b[i]) by {
        assert(b.contains(b[i]));
        assert(b.to_multiset().count(b[i]) > 0);
    }
    lemma_joint_aabb_of_fewer(a, b, boxes);
    lemma_joint_aabb_of_fewer(b, a, boxes);
}

/// The joint box of boxes that are not empty, of one at least, is not empty.
pub proof fn lemma_joint_aabb_not_empty(indices: Seq<usize>, boxes: Seq<AABB>)
    requires
        indices.len() > 0,
        forall|i: int| 0 <= i < indices.len() ==> !boxes[#[trigger] indices[i] as int].spec_is_empty(),
    ensures
        !joint_aabb(indices, boxes).spec_is_empty(),
{
    lemma_joint_aabb_encloses(indices, boxes, 0);
    assert(!boxes[indices[0] as int].spec_is_empty());
}

/// The empty bucket is neutral for the merging of buckets, on either side.
pub proof fn lemma_join_bucket_empty(a: Bucket)
    ensures
        Bucket::spec_empty().spec_join_bucket(a) == a,
        a.spec_join_bucket(Bucket::spec_empty()) == a,
{
}

/// Merging two buckets does not depend on their order.
pub proof fn lemma_join_bucket_commutative(a: Bucket, b: Bucket)
    ensures
        a.spec_join_bucket(b) == b.spec_join_bucket(a),
{
}

/// Merging three buckets does not depend on how they are grouped, as long as
/// the number of their boxes can be held.
pub proof fn lemma_join_bucket_associative(a: Bucket, b: Bucket, c: Bucket)
    requires
        a.size + b.size + c.size <= usize::MAX,
    ensures
        a.spec_join_bucket(b).spec_join_bucket(c) == a.spec_join_bucket(b.spec_join_bucket(c)),
{
}

} // verus!
