//! Nearest-hit resolution: of all the primitives of a scene that a ray hits,
//! the one that it hits first.
//!
//! Every sphere of the scene is tested before every triangle, each list in
//! scene order. The hit with the smallest distance is kept; of hits at equal
//! distance the one that was tested first is.

use crate::distance::Distance;
use vstd::prelude::*;

verus! {

/// A primitive of a scene, by its place in the list of its kind.
#[derive(Clone, Copy, Debug, PartialEq, Eq, Structural)]
pub enum ShapeRef {
    Sphere(usize),
    Triangle(usize),
}

/// A hit as nearest-hit resolution sees it: which primitive was hit, and how
/// far along the ray.
#[derive(Clone, Copy, Debug, PartialEq, Eq, Structural)]
pub struct HitInfo {
    pub shape: ShapeRef,
    pub distance: Distance,
}

impl ShapeRef {
    /// The place of the primitive in the order of testing, in a scene of
    /// `spheres` spheres.
    pub open spec fn spec_order(self, spheres: int) -> int {
        match self {
            ShapeRef::Sphere(i) => i as int,
            ShapeRef::Triangle(i) => spheres + i,
        }
    }
}

/// The results of testing one ray against every primitive, in the order of
/// testing.
pub open spec fn spec_candidates(
    spheres: Seq<Option<Distance>>,
    triangles: Seq<Option<Distance>>,
) -> Seq<Option<Distance>> {
    spheres + triangles
}

/// Whether no candidate is a hit.
pub open spec fn all_miss(candidates: Seq<Option<Distance>>) -> bool {
    forall|j: int| 0 <= j < candidates.len() ==> candidates[j] is None
}

/// Whether the `i`-th candidate is the nearest hit: it is a hit, strictly
/// nearer than every hit before it and no farther than any hit after it.
pub open spec fn is_nearest(candidates: Seq<Option<Distance>>, i: int) -> bool {
    &&& 0 <= i < candidates.len()
    &&& candidates[i] is Some
    &&& forall|j: int|
        0 <= j < i && candidates[j] is Some ==> candidates[i].unwrap().key()
            < (#[trigger] candidates[j]).unwrap().key()
    &&& forall|j: int|
        i < j < candidates.len() && candidates[j] is Some ==> candidates[i].unwrap().key()
            <= (#[trigger] candidates[j]).unwrap().key()
}

/// The nearest hit after one more primitive was tested: the hit on that
/// primitive where there was no hit before or where it is strictly nearer,
/// else the hit from before.
pub open spec fn spec_keep_nearest(
    closest: Option<HitInfo>,
    shape: ShapeRef,
    tested: Option<Distance>,
) -> Option<HitInfo> {
    match (closest, tested) {
        (_, None) => closest,
        (None, Some(distance)) => Some(HitInfo { shape, distance }),
        (Some(kept), Some(distance)) => if distance.key() < kept.distance.key() {
            Some(HitInfo { shape, distance })
        } else {
            closest
        },
    }
}

/// One step of nearest-hit resolution: `closest` is the nearest hit so far,
/// `tested` the result of testing the primitive `shape`.
pub fn keep_nearest(closest: Option<HitInfo>, shape: ShapeRef, tested: Option<Distance>) -> (kept:
    Option<HitInfo>)
    ensures
        kept == spec_keep_nearest(closest, shape, tested),
{
    match tested {
        None => closest,
        Some(distance) => match closest {
            None => Some(HitInfo { shape, distance }),
            Some(before) => if distance.is_nearer_than(&before.distance) {
                Some(HitInfo { shape, distance })
            } else {
                closest
            },
        },
    }
}

/// Whether `closest` is the nearest hit among the first `tested` candidates.
spec fn nearest_so_far(
    candidates: Seq<Option<Distance>>,
    spheres: int,
    tested: int,
    closest: Option<HitInfo>,
) -> bool {
    match closest {
        None => all_miss(candidates.take(tested)),
        Some(hit) => {
            &&& is_nearest(candidates.take(tested), hit.shape.spec_order(spheres))
            &&& candidates[hit.shape.spec_order(spheres)] == Some(hit.distance)
            &&& match hit.shape {
                ShapeRef::Sphere(i) => i < spheres,
                ShapeRef::Triangle(i) => spheres + i < candidates.len(),
            }
        },
    }
}

/// Testing one more candidate and keeping the nearer hit keeps the nearest.
proof fn lemma_keep_nearest_step(
    candidates: Seq<Option<Distance>>,
    spheres: int,
    tested: int,
    closest: Option<HitInfo>,
    shape: ShapeRef,
)
    requires
        0 <= tested < candidates.len(),
        0 <= spheres <= candidates.len(),
        nearest_so_far(candidates, spheres, tested, closest),
        shape.spec_order(spheres) == tested,
        match shape {
            ShapeRef::Sphere(i) => i < spheres,
            ShapeRef::Triangle(i) => true,
        },
    ensures
        nearest_so_far(
            candidates,
            spheres,
            tested + 1,
            spec_keep_nearest(closest, shape, candidates[tested]),
        ),
{
    let before = candidates.take(tested);
    let after = candidates.take(tested + 1);
    assert forall|j: int| 0 <= j < tested implies after[j] == before[j] by {}
    assert(after[tested] == candidates[tested]);
    match closest {
        None => {
            assert forall|j: int| 0 <= j < tested implies after[j] is None by {
                assert(before[j] is None);
            }
        },
        Some(hit) => {
            let k = hit.shape.spec_order(spheres);
            assert(is_nearest(before, k));
            assert(after[k] == before[k]);
            assert forall|j: int| 0 <= j < tested && after[j] is Some implies before[k].unwrap().key()
                <= (#[trigger] after[j]).unwrap().key() by {
                assert(before[j] == after[j]);
            }
        },
    }
}

/// The nearest hit of a ray, from the results of testing the ray against
/// every sphere and every triangle of the scene, each list in scene order:
/// nothing where every test missed, else the hit with the smallest distance,
/// and of hits at equal distance the one that was tested first.
pub fn trace_ray(spheres: &Vec<Option<Distance>>, triangles: &Vec<Option<Distance>>) -> (nearest:
    Option<HitInfo>)
    ensures
        match nearest {
            None => all_miss(spec_candidates(spheres@, triangles@)),
            Some(hit) => {
                &&& is_nearest(
                    spec_candidates(spheres@, triangles@),
                    hit.shape.spec_order(spheres@.len() as int),
                )
                &&& match hit.shape {
                    ShapeRef::Sphere(i) => i < spheres@.len() && spheres@[i as int] == Some(
                        hit.distance,
                    ),
                    ShapeRef::Triangle(i) => i < triangles@.len() && triangles@[i as int] == Some(
                        hit.distance,
                    ),
                }
            },
        },
{
    let ghost candidates = spec_candidates(spheres@, triangles@);
    let ghost count = spheres@.len() as int;
    let mut closest: Option<HitInfo> = None;
    let mut i: usize = 0;
    while i < spheres.len()
        invariant
            i <= spheres.len(),
            candidates == spec_candidates(spheres@, triangles@),
            count == spheres@.len(),
            nearest_so_far(candidates, count, i as int, closest),
        decreases spheres.len() - i,
    {
        proof {
            lemma_keep_nearest_step(candidates, count, i as int, closest, ShapeRef::Sphere(i));
        }
        closest = keep_nearest(closest, ShapeRef::Sphere(i), spheres[i]);
        i = i + 1;
    }
    let mut k: usize = 0;
    while k < triangles.len()
        invariant
            k <= triangles.len(),
            candidates == spec_candidates(spheres@, triangles@),
            count == spheres@.len(),
            nearest_so_far(candidates, count, count + k, closest),
        decreases triangles.len() - k,
    {
        proof {
            lemma_keep_nearest_step(candidates, count, count + k, closest, ShapeRef::Triangle(k));
        }
        closest = keep_nearest(closest, ShapeRef::Triangle(k), triangles[k]);
        k = k + 1;
    }
    assert(candidates.take(candidates.len() as int) =~= candidates);
    closest
}

/// At most one candidate is the nearest hit.
pub proof fn lemma_nearest_is_unique(candidates: Seq<Option<Distance>>, i: int, j: int)
    requires
        is_nearest(candidates, i),
        is_nearest(candidates, j),
    ensures
        i == j,
{
}

/// Of two hits along one ray the one with the strictly smaller distance is
/// the nearest, and at equal distances the one that was tested first is.
pub proof fn lemma_nearest_of_two(candidates: Seq<Option<Distance>>, first: int, second: int)
    requires
        0 <= first < second < candidates.len(),
        candidates[first] is Some,
        candidates[second] is Some,
        forall|j: int|
            0 <= j < candidates.len() && j != first && j != second ==> candidates[j] is None,
    ensures
        candidates[second].unwrap().key() < candidates[first].unwrap().key() ==> is_nearest(
            candidates,
            second,
        ),
        candidates[first].unwrap().key() <= candidates[second].unwrap().key() ==> is_nearest(
            candidates,
            first,
        ),
{
}

/// Where any candidate is a hit, one of them is the nearest.
pub proof fn lemma_nearest_exists(candidates: Seq<Option<Distance>>)
    requires
        !all_miss(candidates),
    ensures
        exists|i: int| is_nearest(candidates, i),
    decreases candidates.len(),
{
    let last = candidates.len() - 1;
    let rest = candidates.drop_last();
    if all_miss(rest) {
        assert(candidates[last] is Some) by {
            if candidates[last] is None {
                assert forall|j: int| 0 <= j < candidates.len() implies candidates[j] is None by {
                    if j < last {
                        assert(rest[j] is None);
                    }
                }
            }
        }
        assert forall|j: int| 0 <= j < last implies candidates[j] is None by {
            assert(rest[j] is None);
        }
        assert(is_nearest(candidates, last));
    } else {
        lemma_nearest_exists(rest);
        let i = choose|i: int| is_nearest(rest, i);
        assert forall|j: int| 0 <= j < last implies candidates[j] == rest[j] by {}
        if candidates[last] is Some && candidates[last].unwrap().key() < rest[i].unwrap().key() {
            assert forall|j: int| 0 <= j < last && candidates[j] is Some implies candidates[last].unwrap().key()
                < (#[trigger] candidates[j]).unwrap().key() by {
                assert(rest[j] == candidates[j]);
            }
            assert(is_nearest(candidates, last));
        } else {
            assert forall|j: int|
                i < j < candidates.len() && candidates[j] is Some implies candidates[i].unwrap().key()
                <= (#[trigger] candidates[j]).unwrap().key() by {
                if j < last {
                    assert(rest[j] == candidates[j]);
                }
            }
            assert(is_nearest(candidates, i));
        }
    }
}

} // verus!
