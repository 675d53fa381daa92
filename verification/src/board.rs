use vstd::prelude::*;
use crate::model::{Component, ComponentView, World, WorldView};
use crate::model::component_at;
use crate::sorting::{pair_value, sort_by_key, sort_by_keys};

verus! {

/// The departure time of entity `e` when it is a stop departure.
pub open spec fn departure_time_of(w: WorldView, e: usize) -> Option<u64> {
    match component_at(w, e) {
        Some(ComponentView::Departure(d)) => d.departure_time,
        _ => None,
    }
}

/// Whether entity `e` is a stop departure.
pub open spec fn is_stop_departure(w: WorldView, e: usize) -> bool {
    component_at(w, e) matches Some(ComponentView::Departure(_))
}

/// Whether departure time `a` comes no later than `b`; an unknown time
/// comes before every known one.
pub open spec fn time_le(a: Option<u64>, b: Option<u64>) -> bool {
    match (a, b) {
        (None, _) => true,
        (Some(_), None) => false,
        (Some(x), Some(y)) => x <= y,
    }
}

/// The entities among `es` that are stop departures, in order.
pub open spec fn stop_departures_among(w: WorldView, es: Seq<usize>) -> Seq<usize>
    decreases es.len(),
{
    if es.len() == 0 {
        Seq::empty()
    } else if is_stop_departure(w, es.last()) {
        stop_departures_among(w, es.drop_last()).push(es.last())
    } else {
        stop_departures_among(w, es.drop_last())
    }
}

/// The rank of a departure time: every unknown time first, then the known
/// ones by time.
pub open spec fn time_rank(t: Option<u64>) -> int {
    match t {
        None => pair_value((0, 0)),
        Some(x) => pair_value((1, x)),
    }
}

/// The sort key of an entity on a departure board: the rank of its
/// departure time.
pub open spec fn time_key(w: WorldView) -> spec_fn(usize) -> int {
    |e: usize| time_rank(departure_time_of(w, e))
}

/// The departures ordered by departure time, keeping the order of
/// departures with equal times (a stable sort).
pub open spec fn sort_by_time(w: WorldView, es: Seq<usize>) -> Seq<usize> {
    sort_by_key(time_key(w), es)
}

/// The departure board of a stop facility: its listed departures that are
/// stop departures, ordered by departure time (unknown times first).
pub open spec fn board_spec(w: WorldView, stop: usize) -> Seq<usize> {
    match component_at(w, stop) {
        Some(ComponentView::StopFacility(s)) => sort_by_time(w, stop_departures_among(w, s.departures)),
        _ => Seq::empty(),
    }
}

/// The departure time of entity `e`, when it is a stop departure.
fn time_of(world: &World, e: usize) -> (res: Option<u64>)
    ensures
        res == departure_time_of(world@, e),
{
    match world.get(e) {
        Some(Component::Departure(d)) => d.departure_time,
        _ => None,
    }
}

/// The sort key of a departure time, as `time_rank` ranks it.
fn time_key_of(t: Option<u64>) -> (res: (u64, u64))
    ensures
        pair_value(res) == time_rank(t),
{
    match t {
        None => (0, 0),
        Some(x) => (1, x),
    }
}

impl World {
    /// The departure board of stop facility `stop`: the departures that it
    /// lists, ordered by departure time with unknown times first and ties
    /// kept in listed order; empty when `stop` is no stop facility.
    pub fn departure_board(&self, stop: usize) -> (res: Vec<usize>)
        ensures
            res@ == board_spec(self@, stop),
    {
        let listed: &Vec<usize> = match self.get(stop) {
            Some(Component::StopFacility(s)) => &s.departures,
            _ => {
                return Vec::new();
            },
        };
        let mut found: Vec<usize> = Vec::new();
        let mut i: usize = 0;
        assert(listed@.take(0) =~= Seq::<usize>::empty());
        while i < listed.len()
            invariant
                i <= listed@.len(),
                found@ == stop_departures_among(self@, listed@.take(i as int)),
            decreases listed@.len() - i,
        {
            assert(listed@.take(i + 1).drop_last() =~= listed@.take(i as int));
            let e = listed[i];
            match self.get(e) {
                Some(Component::Departure(_)) => {
                    found.push(e);
                },
                _ => {},
            }
            i = i + 1;
        }
        assert(listed@.take(listed@.len() as int) =~= listed@);
        let mut keys: Vec<(u64, u64)> = Vec::new();
        let mut k: usize = 0;
        while k < found.len()
            invariant
                k <= found@.len(),
                keys@.len() == k,
                forall|m: int| 0 <= m < k ==> time_key(self@)(#[trigger] found@[m]) == pair_value(keys@[m]),
            decreases found@.len() - k,
        {
            keys.push(time_key_of(time_of(self, found[k])));
            k = k + 1;
        }
        sort_by_keys(&found, &keys, Ghost(time_key(self@)))
    }
}

} // verus!
