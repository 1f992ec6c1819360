//! The exact parts of flood-filling a region found by ray casting: ray collisions, choosing the nearest
//! collision in the direction of a ray, finding long gaps between traced points, and deciding whether a
//! step along the outline moves away from the center.

use vstd::prelude::*;

use crate::geo::{Coord2, distance_squared, dot_from, lemma_product_bound};

verus! {

/// Represents a collision between a ray and an object
#[derive(Clone, Debug)]
pub struct RayCollision<Item> {
    /// Where this collision occurred
    pub position: Coord2,
    /// The object that this ray colided with
    pub what: Item,
}

impl<Item> RayCollision<Item> {
    /// Creates a new collision at a specific point
    pub fn new(position: Coord2, what: Item) -> (r: RayCollision<Item>)
        ensures
            r.position == position,
            r.what == what,
    {
        RayCollision { position, what }
    }
}

/// The dot product of the vector from `center` to `position` with the direction of the ray.
pub open spec fn ray_direction(center: Coord2, ray_vector: Coord2, position: Coord2) -> int {
    (position.0 - center.0) * ray_vector.0 + (position.1 - center.1) * ray_vector.1
}

/// A collision that is not behind the center, looking along the ray.
pub open spec fn ahead_of_ray(center: Coord2, ray_vector: Coord2, position: Coord2) -> bool {
    ray_direction(center, ray_vector, position) >= 0
}

/// `k` is the index of the nearest collision ahead of the ray (the first one, among equally near ones).
pub open spec fn is_nearest_collision<Item>(candidates: Seq<RayCollision<Item>>, center: Coord2, ray_vector: Coord2, k: int) -> bool {
    &&& 0 <= k < candidates.len()
    &&& ahead_of_ray(center, ray_vector, candidates[k].position)
    &&& forall|j: int|
        0 <= j < candidates.len() && ahead_of_ray(center, ray_vector, #[trigger] candidates[j].position)
            ==> distance_squared(candidates[j].position, center) >= distance_squared(candidates[k].position, center)
    &&& forall|j: int|
        0 <= j < k && ahead_of_ray(center, ray_vector, #[trigger] candidates[j].position)
            ==> distance_squared(candidates[j].position, center) > distance_squared(candidates[k].position, center)
}

fn ray_direction_exec(center: &Coord2, ray_vector: &Coord2, position: &Coord2) -> (r: i128)
    ensures
        r == ray_direction(*center, *ray_vector, *position),
{
    let dx = position.0 as i64 - center.0 as i64;
    let dy = position.1 as i64 - center.1 as i64;
    proof {
        lemma_product_bound(dx as int, ray_vector.0 as int, 0x1_0000_0000, 0x8000_0000);
        lemma_product_bound(dy as int, ray_vector.1 as int, 0x1_0000_0000, 0x8000_0000);
    }
    (dx as i128) * (ray_vector.0 as i128) + (dy as i128) * (ray_vector.1 as i128)
}

/// Finds the nearest collision and the square of its distance from the center from the results of a
/// ray-casting operation. The ray leaves `center` in the direction `ray_vector`; collisions behind the
/// center are ignored, and of several equally near collisions the first is the one returned.
pub fn find_nearest_collision<Item>(candidates: Vec<RayCollision<Item>>, center: Coord2, ray_vector: Coord2) -> (r: Option<
    (RayCollision<Item>, i128),
>)
    ensures
        r is None <==> (forall|j: int|
            0 <= j < candidates@.len() ==> !ahead_of_ray(center, ray_vector, #[trigger] candidates@[j].position)),
        r matches Some((c, d)) ==> exists|k: int|
            is_nearest_collision(candidates@, center, ray_vector, k) && c == #[trigger] candidates@[k] && d
                == distance_squared(c.position, center),
{
    let mut candidates = candidates;
    let ghost given = candidates@;
    let mut nearest: Option<usize> = None;
    let mut nearest_distance_squared: i128 = 0;
    let n = candidates.len();
    for i in 0..n
        invariant
            n == candidates@.len(),
            candidates@ == given,
            nearest matches Some(k) ==> {
                &&& k < i
                &&& ahead_of_ray(center, ray_vector, candidates@[k as int].position)
                &&& nearest_distance_squared == distance_squared(candidates@[k as int].position, center)
                &&& forall|j: int|
                    0 <= j < i && ahead_of_ray(center, ray_vector, #[trigger] candidates@[j].position)
                        ==> distance_squared(candidates@[j].position, center) >= nearest_distance_squared
                &&& forall|j: int|
                    0 <= j < k && ahead_of_ray(center, ray_vector, #[trigger] candidates@[j].position)
                        ==> distance_squared(candidates@[j].position, center) > nearest_distance_squared
            },
            nearest is None ==> forall|j: int|
                0 <= j < i ==> !ahead_of_ray(center, ray_vector, #[trigger] candidates@[j].position),
    {
        let position = candidates[i].position;
        // Ignore collisions in the opposite direction of our ray
        let direction = ray_direction_exec(&center, &ray_vector, &position);
        if direction >= 0 {
            // If this collision is closer to the center than before, then it becomes the nearest collision
            let distance = position.distance_squared_to(&center);
            match nearest {
                None => {
                    nearest = Some(i);
                    nearest_distance_squared = distance;
                },
                Some(_) => {
                    if distance < nearest_distance_squared {
                        nearest = Some(i);
                        nearest_distance_squared = distance;
                    }
                },
            }
        }
    }
    match nearest {
        None => None,
        Some(k) => {
            let collision = candidates.remove(k);
            proof {
                assert(is_nearest_collision(given, center, ray_vector, k as int));
            }
            Some((collision, nearest_distance_squared))
        },
    }
}

/// An edge between two consecutive points of a traced outline that is long enough to cast more rays from
#[derive(Clone, Copy, Debug, PartialEq, Eq)]
pub struct LongEdge {
    pub start: Coord2,
    pub end: Coord2,
    pub edge_index: (usize, usize),
    pub ray_collided: bool,
}

/// The index of the point before point `i` on a closed outline of `n` points.
pub open spec fn previous_index(i: int, n: int) -> int {
    if i == 0 { n - 1 } else { i - 1 }
}

/// The long edges among the first `m` edges of a closed outline, in order: edge `i` runs from the point
/// before point `i` to point `i`, and is long when its squared length is at least `min_len_squared`.
pub open spec fn long_edges_spec<Item>(edges: Seq<RayCollision<Item>>, min_len_squared: int, m: nat) -> Seq<LongEdge>
    decreases m,
{
    if m == 0 {
        Seq::empty()
    } else {
        let i = m - 1;
        let last = previous_index(i, edges.len() as int);
        let earlier = long_edges_spec(edges, min_len_squared, (m - 1) as nat);
        if distance_squared(edges[last].position, edges[i].position) >= min_len_squared {
            earlier.push(
                LongEdge {
                    start: edges[last].position,
                    end: edges[i].position,
                    edge_index: (last as usize, i as usize),
                    ray_collided: false,
                },
            )
        } else {
            earlier
        }
    }
}

/// Retrieves the 'long' edges from a set of edges returned by a raycast tracing operation: the edges
/// between consecutive points (wrapping round from the last point to the first) whose squared length is
/// at least `edge_min_len_squared`
pub fn find_long_edges<Item>(edges: &[RayCollision<Item>], edge_min_len_squared: i128) -> (r: Vec<LongEdge>)
    ensures
        r@ == long_edges_spec(edges@, edge_min_len_squared as int, edges@.len()),
{
    let mut long_edges: Vec<LongEdge> = Vec::new();
    let n = edges.len();
    for edge_num in 0..n
        invariant
            n == edges@.len(),
            long_edges@ == long_edges_spec(edges@, edge_min_len_squared as int, edge_num as nat),
    {
        // Get the length of this edge
        let last_edge = if edge_num == 0 { n - 1 } else { edge_num - 1 };
        let edge_distance_squared = edges[last_edge].position.distance_squared_to(&edges[edge_num].position);

        // Add to the list of long edges if it's long enough to need further ray-casting
        if edge_distance_squared >= edge_min_len_squared {
            long_edges.push(
                LongEdge {
                    start: edges[last_edge].position,
                    end: edges[edge_num].position,
                    edge_index: (last_edge, edge_num),
                    ray_collided: false,
                },
            );
        }
    }
    long_edges
}

/// The point `to` lies further along the ray from `center` through `from` than `from` does: its position
/// along that ray (`dot(to - center, from - center) / |from - center|^2`) is greater than 1.
pub open spec fn moving_outwards(center: Coord2, from: Coord2, to: Coord2) -> bool {
    dot_from(center, to, from) > distance_squared(from, center)
}

/// Determines if the 'to' position is further away from the 'center' position than the 'from' position,
/// measured along the ray from the center through 'from'
pub fn ray_is_moving_outwards(center: &Coord2, from: &Coord2, to: &Coord2) -> (r: bool)
    ensures
        r == moving_outwards(*center, *from, *to),
{
    let pos_scaled = center.dot_from(to, from);
    let length_squared = from.distance_squared_to(center);
    // The position along the ray is greater than 1 when the projection exceeds the squared length
    pos_scaled > length_squared
}

} // verus!
