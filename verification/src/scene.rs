//! Finding the object a ray hits first.

use vstd::prelude::*;
use crate::ray::Hit;
use crate::scalar::Scalar;

verus! {

/// True where a point is lit by a light at the distance `light_distance`:
/// the ray towards the light hits nothing, or what it hits lies beyond the
/// light.
pub open spec fn lit(shadow_hit: Option<Hit>, light_distance: Scalar) -> bool {
    match shadow_hit {
        Some(hit) => light_distance.spec_lt(hit.distance),
        None => true,
    }
}

/// Decides whether a point is lit, from what the ray towards the light hit.
pub fn in_light(shadow_hit: &Option<Hit>, light_distance: Scalar) -> (r: bool)
    ensures
        r == lit(*shadow_hit, light_distance),
{
    match shadow_hit {
        Some(hit) => hit.distance.gt(light_distance),
        None => true,
    }
}

/// The nearest hit after one more object has been asked: the candidate
/// replaces the nearest hit so far only where it is strictly nearer, so of
/// equally near objects the first one asked stays.
pub open spec fn closer_of(
    nearest: Option<(usize, Hit)>,
    object_index: usize,
    candidate: Option<Hit>,
) -> Option<(usize, Hit)> {
    match candidate {
        None => nearest,
        Some(hit) => match nearest {
            None => Some((object_index, hit)),
            Some((_, current)) => if hit.distance.spec_lt(current.distance) {
                Some((object_index, hit))
            } else {
                nearest
            },
        },
    }
}

/// Keeps the nearer of the nearest hit so far and the hit, if any, on one
/// more object.
pub fn closer(nearest: Option<(usize, Hit)>, object_index: usize, candidate: Option<Hit>) -> (r:
    Option<(usize, Hit)>)
    requires
        nearest matches Some((_, hit)) ==> hit.wf(),
        candidate matches Some(hit) ==> hit.wf(),
    ensures
        r == closer_of(nearest, object_index, candidate),
        r matches Some((_, hit)) ==> hit.wf(),
{
    match candidate {
        None => nearest,
        Some(hit) => match nearest {
            None => Some((object_index, hit)),
            Some((_, current)) => if hit.distance.lt(current.distance) {
                Some((object_index, hit))
            } else {
                nearest
            },
        },
    }
}

/// The hit that is nearest among `hits`, with its index: of equally near
/// hits the first.
pub open spec fn nearest_of(hits: Seq<Option<Hit>>) -> Option<(usize, Hit)>
    decreases hits.len(),
{
    if hits.len() == 0 {
        None
    } else {
        closer_of(nearest_of(hits.drop_last()), (hits.len() - 1) as usize, hits.last())
    }
}

/// The nearest of several hits is one of them, and none of them is nearer.
pub proof fn lemma_nearest_is_least(hits: Seq<Option<Hit>>)
    requires
        forall|i: int| 0 <= i < hits.len() && (#[trigger] hits[i]) is Some ==> hits[i]->0.wf(),
        hits.len() <= usize::MAX,
    ensures
        nearest_of(hits) is None <==> forall|i: int| 0 <= i < hits.len() ==> (#[trigger] hits[i]) is None,
        nearest_of(hits) matches Some((index, hit)) ==> {
            &&& index < hits.len()
            &&& hits[index as int] == Some(hit)
            &&& forall|i: int|
                0 <= i < hits.len() && (#[trigger] hits[i]) is Some ==> hit.distance.spec_le(
                    hits[i]->0.distance,
                )
            &&& forall|i: int|
                0 <= i < index && (#[trigger] hits[i]) is Some ==> hit.distance.spec_lt(
                    hits[i]->0.distance,
                )
        },
    decreases hits.len(),
{
    if hits.len() > 0 {
        let rest = hits.drop_last();
        assert forall|i: int| 0 <= i < rest.len() && (#[trigger] rest[i]) is Some implies rest[i]->0.wf() by {
            assert(rest[i] == hits[i]);
        }
        lemma_nearest_is_least(rest);
        let last = hits.len() - 1;
        assert(forall|i: int| 0 <= i < last ==> rest[i] == hits[i]);
        if nearest_of(hits) is None {
            assert forall|i: int| 0 <= i < hits.len() implies (#[trigger] hits[i]) is None by {
                if i < last {
                    assert(rest[i] is None);
                }
            }
        }
        if let Some((index, hit)) = nearest_of(hits) {
            assert(hit.wf());
            assert forall|i: int| 0 <= i < hits.len() && (#[trigger] hits[i]) is Some implies hit.distance.spec_le(
                hits[i]->0.distance,
            ) by {
                if i < last {
                    assert(rest[i] is Some);
                }
            }
            assert forall|i: int| 0 <= i < index && (#[trigger] hits[i]) is Some implies hit.distance.spec_lt(
                hits[i]->0.distance,
            ) by {
                if i < last {
                    assert(rest[i] is Some);
                }
            }
        }
    }
}

/// Asks each of `object_count` objects for the hit of one ray on it and
/// returns the nearest hit with the index of its object. `intersect(i)`
/// supplies the hit on object `i`, if any; the distance of a hit must be a
/// number.
pub fn trace<F: Fn(usize) -> Option<Hit>>(object_count: usize, intersect: &F) -> (nearest: Option<
    (usize, Hit),
>)
    requires
        forall|i: usize| intersect.requires((i,)),
        forall|i: usize, hit: Hit| intersect.ensures((i,), Some(hit)) ==> hit.wf(),
    ensures
        exists|hits: Seq<Option<Hit>>|
            {
                &&& hits.len() == object_count
                &&& forall|i: int|
                    0 <= i < object_count ==> intersect.ensures((i as usize,), #[trigger] hits[i])
                &&& nearest == nearest_of(hits)
            },
        nearest matches Some((index, hit)) ==> index < object_count && hit.wf()
            && intersect.ensures((index,), Some(hit)),
{
    let mut nearest: Option<(usize, Hit)> = None;
    let ghost mut hits: Seq<Option<Hit>> = Seq::empty();
    let mut i: usize = 0;
    while i < object_count
        invariant
            i <= object_count,
            forall|k: usize| intersect.requires((k,)),
            hits.len() == i,
            forall|k: usize, hit: Hit| intersect.ensures((k,), Some(hit)) ==> hit.wf(),
            forall|k: int| 0 <= k < i ==> intersect.ensures((k as usize,), #[trigger] hits[k]),
            nearest == nearest_of(hits),
            nearest matches Some((index, hit)) ==> index < i && hit.wf() && intersect.ensures(
                (index,),
                Some(hit),
            ),
        decreases object_count - i,
    {
        let candidate = intersect(i);
        proof {
            let longer = hits.push(candidate);
            assert(longer.drop_last() =~= hits);
            hits = longer;
        }
        nearest = closer(nearest, i, candidate);
        i += 1;
    }
    nearest
}

} // verus!
