//! Node records are ordered by their distance from the start, a node not
//! reached yet coming before every reached one.
use vstd::prelude::*;
use core::cmp::Ordering;
use vstd::std_specs::cmp::PartialOrdSpec;
use super::dijkstra::NodeData;

verus! {

/// How two optional distances compare: none comes first, then the
/// distances by size.
pub open spec fn distance_order(a: Option<usize>, b: Option<usize>) -> Ordering {
    match (a, b) {
        (None, None) => Ordering::Equal,
        (None, Some(_)) => Ordering::Less,
        (Some(_), None) => Ordering::Greater,
        (Some(x), Some(y)) => if x < y {
            Ordering::Less
        } else if x == y {
            Ordering::Equal
        } else {
            Ordering::Greater
        },
    }
}

/// The distance a record holds, if any.
pub open spec fn recorded_distance(data: NodeData) -> Option<usize> {
    match data.distance_data {
        Some(d) => Some(d.distance),
        None => None,
    }
}

/// Records are ordered by distance: one not reached yet comes before
/// every reached one and is equal to another not reached, and reached
/// ones compare as their distances do.
pub proof fn lemma_order_by_distance(a: NodeData, b: NodeData)
    ensures
        a.partial_cmp_spec(&b) == Some(Ordering::Less) <==> (a.distance_data is None
            && b.distance_data is Some) || (a.distance_data is Some && b.distance_data is Some
            && a.distance_data.unwrap().distance < b.distance_data.unwrap().distance),
        a.partial_cmp_spec(&b) == Some(Ordering::Equal) <==> (a.distance_data is None
            && b.distance_data is None) || (a.distance_data is Some && b.distance_data is Some
            && a.distance_data.unwrap().distance == b.distance_data.unwrap().distance),
        a.partial_cmp_spec(&b) == Some(Ordering::Greater) <==> (a.distance_data is Some
            && b.distance_data is None) || (a.distance_data is Some && b.distance_data is Some
            && a.distance_data.unwrap().distance > b.distance_data.unwrap().distance),
{
}

impl PartialOrd for NodeData {
    fn partial_cmp(&self, other: &Self) -> (order: Option<Ordering>) {
        let order = match (self.distance(), other.distance()) {
            (None, None) => Ordering::Equal,
            (None, Some(_)) => Ordering::Less,
            (Some(_), None) => Ordering::Greater,
            (Some(x), Some(y)) => if x < y {
                Ordering::Less
            } else if x == y {
                Ordering::Equal
            } else {
                Ordering::Greater
            },
        };
        Some(order)
    }
}

impl vstd::std_specs::cmp::PartialOrdSpecImpl for NodeData {
    open spec fn obeys_partial_cmp_spec() -> bool {
        true
    }

    open spec fn partial_cmp_spec(&self, other: &Self) -> Option<Ordering> {
        Some(distance_order(recorded_distance(*self), recorded_distance(*other)))
    }
}

} // verus!
