//! The static schedule, reduced to what the realtime queries read: stops
//! with their names, routes with their short names, and which stops each
//! trip visits.

use vstd::prelude::*;
use vstd::seq_lib::{to_multiset_build, to_multiset_remove};
use crate::text::{
    contains_text, lemma_text_le_total, lemma_text_le_transitive, opt_text, same_text, text_le,
    text_le_exec, texts,
};

verus! {

/// A stop of the schedule.
#[derive(Clone, Debug)]
pub struct StopRecord {
    pub id: String,
    pub name: Option<String>,
}

/// A route of the schedule.
#[derive(Clone, Debug)]
pub struct RouteRecord {
    pub id: String,
    pub short_name: Option<String>,
}

/// A trip of the schedule: its route and the stops it visits, in order.
#[derive(Clone, Debug)]
pub struct TripRecord {
    pub route_id: String,
    pub stop_ids: Vec<String>,
}

/// Read-only lookups over a loaded schedule. Where two records share an
/// identifier, the first one counts.
#[derive(Clone, Debug)]
pub struct ScheduleIndex {
    pub stops: Vec<StopRecord>,
    pub routes: Vec<RouteRecord>,
    pub trips: Vec<TripRecord>,
}

/// The first stop with identifier `id`.
pub open spec fn stop_lookup(stops: Seq<StopRecord>, id: Seq<char>) -> Option<StopRecord>
    decreases stops.len(),
{
    if stops.len() == 0 {
        None
    } else if stops[0].id@ == id {
        Some(stops[0])
    } else {
        stop_lookup(stops.drop_first(), id)
    }
}

/// The first stop named `name`.
pub open spec fn stop_named(stops: Seq<StopRecord>, name: Seq<char>) -> Option<StopRecord>
    decreases stops.len(),
{
    if stops.len() == 0 {
        None
    } else if opt_text(stops[0].name) == Some(name) {
        Some(stops[0])
    } else {
        stop_named(stops.drop_first(), name)
    }
}

/// The first route with identifier `id`.
pub open spec fn route_lookup(routes: Seq<RouteRecord>, id: Seq<char>) -> Option<RouteRecord>
    decreases routes.len(),
{
    if routes.len() == 0 {
        None
    } else if routes[0].id@ == id {
        Some(routes[0])
    } else {
        route_lookup(routes.drop_first(), id)
    }
}

/// The name of stop `id`, if the stop exists and has one.
pub open spec fn stop_name_of(stops: Seq<StopRecord>, id: Seq<char>) -> Option<Seq<char>> {
    match stop_lookup(stops, id) {
        Some(s) => opt_text(s.name),
        None => None,
    }
}

/// The short name of route `id`, if the route exists and has one.
pub open spec fn route_name_of(routes: Seq<RouteRecord>, id: Seq<char>) -> Option<Seq<char>> {
    match route_lookup(routes, id) {
        Some(r) => opt_text(r.short_name),
        None => None,
    }
}

/// Whether trip `t` visits stop `stop`.
pub open spec fn visits(t: TripRecord, stop: Seq<char>) -> bool {
    texts(t.stop_ids@).contains(stop)
}

/// The routes of the trips that visit `stop`, each once, in trip order.
pub open spec fn serving_routes(trips: Seq<TripRecord>, stop: Seq<char>) -> Seq<Seq<char>>
    decreases trips.len(),
{
    if trips.len() == 0 {
        Seq::empty()
    } else {
        let before = serving_routes(trips.drop_last(), stop);
        let t = trips.last();
        if visits(t, stop) && !before.contains(t.route_id@) {
            before.push(t.route_id@)
        } else {
            before
        }
    }
}

/// The routes serving a stop are listed once each, and are exactly the
/// routes of the trips that visit it.
pub proof fn lemma_serving_routes_exact(trips: Seq<TripRecord>, stop: Seq<char>)
    ensures
        serving_routes(trips, stop).no_duplicates(),
        forall|r: Seq<char>| #[trigger] serving_routes(trips, stop).contains(r) <==> exists|i: int|
            0 <= i < trips.len() && visits(#[trigger] trips[i], stop) && trips[i].route_id@ == r,
    decreases trips.len(),
{
    if trips.len() > 0 {
        let init = trips.drop_last();
        lemma_serving_routes_exact(init, stop);
        let before = serving_routes(init, stop);
        let last = trips.last();
        assert forall|r: Seq<char>| #[trigger] serving_routes(trips, stop).contains(r) <==> exists|i: int|
            0 <= i < trips.len() && visits(#[trigger] trips[i], stop) && trips[i].route_id@ == r by {
            if serving_routes(trips, stop).contains(r) {
                if before.contains(r) {
                    let i = choose|i: int| 0 <= i < init.len() && visits(#[trigger] init[i], stop) && init[i].route_id@ == r;
                    assert(trips[i] == init[i]);
                } else {
                    assert(serving_routes(trips, stop)[before.len() as int] == r);
                    assert(trips[trips.len() - 1] == last);
                }
            }
            if exists|i: int| 0 <= i < trips.len() && visits(#[trigger] trips[i], stop) && trips[i].route_id@ == r {
                let i = choose|i: int| 0 <= i < trips.len() && visits(#[trigger] trips[i], stop) && trips[i].route_id@ == r;
                if i < init.len() {
                    assert(init[i] == trips[i]);
                    assert(before.contains(r));
                    let k = choose|k: int| 0 <= k < before.len() && before[k] == r;
                    assert(serving_routes(trips, stop)[k] == r);
                } else if !before.contains(r) {
                    assert(serving_routes(trips, stop)[before.len() as int] == r);
                }
            }
        }
    }
}

/// A stop as an identifier and an optional name.
pub open spec fn stop_entry(s: StopRecord) -> (Seq<char>, Option<Seq<char>>) {
    (s.id@, opt_text(s.name))
}

/// The views of a list of (identifier, name) pairs.
pub open spec fn entries(v: Seq<(String, Option<String>)>) -> Seq<(Seq<char>, Option<Seq<char>>)> {
    v.map_values(|e: (String, Option<String>)| (e.0@, opt_text(e.1)))
}

impl ScheduleIndex {
    /// Every stop as (identifier, name), ordered by identifier.
    pub fn get_all_stops(&self) -> (r: Vec<(String, Option<String>)>)
        ensures
            entries(r@).to_multiset() == self.stops@.map_values(|s: StopRecord| stop_entry(s)).to_multiset(),
            forall|i: int, j: int| 0 <= i < j < r@.len() ==> text_le(#[trigger] r@[i].0@, #[trigger] r@[j].0@),
    {
        let ghost all = self.stops@.map_values(|s: StopRecord| stop_entry(s));
        let mut r: Vec<(String, Option<String>)> = Vec::new();
        let mut i: usize = 0;
        assert(all.subrange(0, 0) =~= entries(r@));
        while i < self.stops.len()
            invariant
                i <= self.stops@.len(),
                all == self.stops@.map_values(|s: StopRecord| stop_entry(s)),
                forall|a: int, b: int| 0 <= a < b < r@.len() ==> text_le(#[trigger] r@[a].0@, #[trigger] r@[b].0@),
                entries(r@).to_multiset() == all.subrange(0, i as int).to_multiset(),
            decreases self.stops@.len() - i,
        {
            let stop = &self.stops[i];
            let name = match &stop.name {
                Some(n) => Some(n.clone()),
                None => None,
            };
            let e = (stop.id.clone(), name);
            let mut pos: usize = 0;
            while pos < r.len() && text_le_exec(r[pos].0.as_str(), e.0.as_str())
                invariant
                    pos <= r@.len(),
                    forall|j: int| 0 <= j < pos ==> text_le(#[trigger] r@[j].0@, e.0@),
                decreases r@.len() - pos,
            {
                pos = pos + 1;
            }
            if pos < r.len() {
                proof {
                    lemma_text_le_total(r@[pos as int].0@, e.0@);
                }
            }
            let ghost before = r@;
            r.insert(pos, e);
            assert(r@ == before.insert(pos as int, e));
            assert forall|a: int, b: int| 0 <= a < b < r@.len() implies text_le(#[trigger] r@[a].0@, #[trigger] r@[b].0@) by {
                if b < pos {
                    assert(text_le(before[a].0@, before[b].0@));
                } else if b == pos {
                } else if a < pos {
                    assert(text_le(before[a].0@, before[b - 1].0@));
                } else if a == pos {
                    if b - 1 > pos {
                        assert(text_le(before[pos as int].0@, before[b - 1].0@));
                        lemma_text_le_transitive(e.0@, before[pos as int].0@, before[b - 1].0@);
                    }
                } else {
                    assert(text_le(before[a - 1].0@, before[b - 1].0@));
                }
            }
            proof {
                let s = entries(r@);
                assert(s =~= entries(before).insert(pos as int, (e.0@, opt_text(e.1))));
                assert(s.remove(pos as int) =~= entries(before));
                to_multiset_remove(s, pos as int);
                assert(s.to_multiset().count(s[pos as int]) > 0) by {
                    vstd::seq_lib::lemma_seq_contains(s, s[pos as int]);
                    s.to_multiset_ensures();
                }
                assert(s.to_multiset() =~= entries(before).to_multiset().insert(s[pos as int]));
                let pre = all.subrange(0, i as int);
                assert(all[i as int] == stop_entry(self.stops@[i as int]));
                assert(s[pos as int] == all[i as int]);
                assert(all.subrange(0, i + 1) =~= pre.push(all[i as int]));
                to_multiset_build(pre, all[i as int]);
            }
            i = i + 1;
        }
        assert(all.subrange(0, i as int) =~= all);
        r
    }

    /// An index over the given records.
    pub fn new(stops: Vec<StopRecord>, routes: Vec<RouteRecord>, trips: Vec<TripRecord>) -> (r: Self)
        ensures
            r.stops == stops,
            r.routes == routes,
            r.trips == trips,
    {
        ScheduleIndex { stops, routes, trips }
    }

    fn find_stop(&self, stop_id: &str) -> (r: Option<usize>)
        ensures
            match r {
                Some(i) => i < self.stops@.len() && stop_lookup(self.stops@, stop_id@) == Some(self.stops@[i as int]),
                None => stop_lookup(self.stops@, stop_id@) is None,
            },
    {
        let mut i: usize = 0;
        assert(self.stops@.subrange(0, self.stops@.len() as int) =~= self.stops@);
        while i < self.stops.len()
            invariant
                i <= self.stops@.len(),
                stop_lookup(self.stops@, stop_id@) == stop_lookup(self.stops@.subrange(i as int, self.stops@.len() as int), stop_id@),
            decreases self.stops@.len() - i,
        {
            let ghost rest = self.stops@.subrange(i as int, self.stops@.len() as int);
            assert(rest[0] == self.stops@[i as int]);
            if same_text(self.stops[i].id.as_str(), stop_id) {
                return Some(i);
            }
            assert(rest.drop_first() =~= self.stops@.subrange(i + 1, self.stops@.len() as int));
            i = i + 1;
        }
        None
    }

    /// Whether the schedule has a stop `stop_id`.
    pub fn is_valid_stop(&self, stop_id: &str) -> (r: bool)
        ensures
            r == stop_lookup(self.stops@, stop_id@) is Some,
    {
        self.find_stop(stop_id).is_some()
    }

    /// The name of stop `stop_id`, if it exists and has one.
    pub fn get_stop_name(&self, stop_id: &str) -> (r: Option<String>)
        ensures
            opt_text(r) == stop_name_of(self.stops@, stop_id@),
    {
        match self.find_stop(stop_id) {
            Some(i) => match &self.stops[i].name {
                Some(n) => Some(n.clone()),
                None => None,
            },
            None => None,
        }
    }

    /// The identifier of the first stop named `stop_name`.
    pub fn get_stop_id(&self, stop_name: &str) -> (r: Option<String>)
        ensures
            opt_text(r) == match stop_named(self.stops@, stop_name@) {
                Some(s) => Some(s.id@),
                None => None,
            },
    {
        let mut i: usize = 0;
        assert(self.stops@.subrange(0, self.stops@.len() as int) =~= self.stops@);
        while i < self.stops.len()
            invariant
                i <= self.stops@.len(),
                stop_named(self.stops@, stop_name@) == stop_named(self.stops@.subrange(i as int, self.stops@.len() as int), stop_name@),
            decreases self.stops@.len() - i,
        {
            let ghost rest = self.stops@.subrange(i as int, self.stops@.len() as int);
            assert(rest[0] == self.stops@[i as int]);
            if let Some(n) = &self.stops[i].name {
                if same_text(n.as_str(), stop_name) {
                    return Some(self.stops[i].id.clone());
                }
            }
            assert(rest.drop_first() =~= self.stops@.subrange(i + 1, self.stops@.len() as int));
            i = i + 1;
        }
        None
    }

    /// The short name of route `route_id`, if it exists and has one.
    pub fn get_route_name(&self, route_id: &str) -> (r: Option<String>)
        ensures
            opt_text(r) == route_name_of(self.routes@, route_id@),
    {
        let mut i: usize = 0;
        assert(self.routes@.subrange(0, self.routes@.len() as int) =~= self.routes@);
        while i < self.routes.len()
            invariant
                i <= self.routes@.len(),
                route_lookup(self.routes@, route_id@) == route_lookup(self.routes@.subrange(i as int, self.routes@.len() as int), route_id@),
            decreases self.routes@.len() - i,
        {
            let ghost rest = self.routes@.subrange(i as int, self.routes@.len() as int);
            assert(rest[0] == self.routes@[i as int]);
            if same_text(self.routes[i].id.as_str(), route_id) {
                return match &self.routes[i].short_name {
                    Some(n) => Some(n.clone()),
                    None => None,
                };
            }
            assert(rest.drop_first() =~= self.routes@.subrange(i + 1, self.routes@.len() as int));
            i = i + 1;
        }
        None
    }

    /// The routes whose trips visit stop `stop_id`, each once, in trip order.
    pub fn get_routes_for_stop(&self, stop_id: &str) -> (r: Vec<String>)
        ensures
            texts(r@) == serving_routes(self.trips@, stop_id@),
    {
        let mut routes: Vec<String> = Vec::new();
        let mut i: usize = 0;
        assert(texts(routes@) =~= Seq::empty());
        while i < self.trips.len()
            invariant
                i <= self.trips@.len(),
                texts(routes@) == serving_routes(self.trips@.subrange(0, i as int), stop_id@),
            decreases self.trips@.len() - i,
        {
            let trip = &self.trips[i];
            assert(self.trips@.subrange(0, i + 1).drop_last() =~= self.trips@.subrange(0, i as int));
            assert(self.trips@.subrange(0, i + 1).last() == self.trips@[i as int]);
            if contains_text(&trip.stop_ids, stop_id) && !contains_text(&routes, trip.route_id.as_str()) {
                let ghost before = routes@;
                routes.push(trip.route_id.clone());
                assert(texts(routes@) =~= texts(before).push(trip.route_id@));
            }
            i = i + 1;
        }
        assert(self.trips@.subrange(0, i as int) =~= self.trips@);
        routes
    }
}

} // verus!
