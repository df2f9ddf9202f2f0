//! The stop-status query: validating the stop, routing its routes to feeds,
//! folding in the fetched feeds while counting failures, and ranking the
//! arrivals.

use vstd::prelude::*;
use vstd::seq_lib::{to_multiset_build, to_multiset_remove};
use crate::arrivals::{arrivals_by_route, ranked_arrivals, RouteArrivals, TrainArrival};
use crate::feed::{collect_predictions, feeds_preds, view_preds, FeedMessage};
use crate::router::{
    all_known, feed_groups, get_realtime_feeds_for_routes, route_group, strip_express, FeedGroup,
    RouteError,
};
use crate::schedule::{
    entries, serving_routes, stop_entry, stop_lookup, stop_name_of, stop_named, ScheduleIndex, StopRecord,
};
use crate::text::{opt_text, same_text, text_le, texts};

verus! {

/// Failures beyond this many make the checker report `Error`.
pub const FAILURE_THRESHOLD: u32 = 10;

/// How many arrivals of each route a stop status keeps unless told otherwise.
pub const DEFAULT_MAX_ARRIVALS: usize = 2;

/// A coarse liveness signal derived from the failure count.
#[derive(Clone, Copy, Debug, PartialEq, Eq, Structural)]
pub enum TrainCheckerStatus {
    Healthy,
    Error,
}

/// Why a stop-status query failed.
#[derive(Clone, Debug)]
pub enum CheckerError {
    /// The stop is not in the schedule.
    InvalidStop(String),
    /// A route of the stop belongs to no feed; named without its express
    /// marker (one trailing `X`).
    UnknownRoute(String),
    /// The stop's routes need no feed at all.
    NoFeedsRequested,
}

/// Why fetching one feed failed.
#[derive(Clone, Copy, Debug, PartialEq, Eq, Structural)]
pub enum FetchError {
    /// The request could not be sent or its body not read.
    Transport,
    /// The server answered with a status outside 2xx.
    HttpStatus(u16),
    /// The body is not a valid feed message.
    Decode,
    /// The task that fetched the feed did not complete.
    TaskFailed,
}

/// The health shown for a failure count.
pub open spec fn health_of(count: u32) -> TrainCheckerStatus {
    if count > FAILURE_THRESHOLD {
        TrainCheckerStatus::Error
    } else {
        TrainCheckerStatus::Healthy
    }
}

/// The feeds that were fetched, in order.
pub open spec fn fetched(outcomes: Seq<Result<FeedMessage, FetchError>>) -> Seq<FeedMessage>
    decreases outcomes.len(),
{
    if outcomes.len() == 0 {
        Seq::empty()
    } else {
        let before = fetched(outcomes.drop_last());
        match outcomes.last() {
            Ok(f) => before.push(f),
            Err(_) => before,
        }
    }
}

/// How many fetches failed.
pub open spec fn failed_count(outcomes: Seq<Result<FeedMessage, FetchError>>) -> nat
    decreases outcomes.len(),
{
    if outcomes.len() == 0 {
        0
    } else {
        failed_count(outcomes.drop_last()) + if outcomes.last() is Err {
            1nat
        } else {
            0nat
        }
    }
}

/// A failure count after `n` more failures; the count wraps around past
/// `u32::MAX`.
pub open spec fn add_failures(count: u32, n: nat) -> u32 {
    ((count + n) % 0x1_0000_0000) as u32
}

/// Relies on chrono's `Utc::now`, read as whole seconds since the Unix
/// epoch. Nothing is promised of the value.
#[verifier::external_body]
fn current_timestamp() -> (r: i64) {
    chrono::Utc::now().timestamp()
}

/// Each fetch outcome is either a fetched feed or a counted failure: when
/// every fetch fails no feed remains and every attempt counts; otherwise
/// exactly the failed ones count.
pub proof fn lemma_fetch_outcomes_split(outcomes: Seq<Result<FeedMessage, FetchError>>)
    ensures
        fetched(outcomes).len() + failed_count(outcomes) == outcomes.len(),
        failed_count(outcomes) == outcomes.filter(|o: Result<FeedMessage, FetchError>| o is Err).len(),
        (forall|i: int| 0 <= i < outcomes.len() ==> (#[trigger] outcomes[i]) is Err) ==> fetched(outcomes)
            == Seq::<FeedMessage>::empty() && failed_count(outcomes) == outcomes.len(),
    decreases outcomes.len(),
{
    let is_err = |o: Result<FeedMessage, FetchError>| o is Err;
    if outcomes.len() > 0 {
        let init = outcomes.drop_last();
        lemma_fetch_outcomes_split(init);
        assert(init.push(outcomes.last()) =~= outcomes);
        init.lemma_filter_push(outcomes.last(), is_err);
        if forall|i: int| 0 <= i < outcomes.len() ==> (#[trigger] outcomes[i]) is Err {
            assert forall|i: int| 0 <= i < init.len() implies (#[trigger] init[i]) is Err by {
                assert(init[i] == outcomes[i]);
            }
            assert(outcomes[outcomes.len() - 1] is Err);
        }
    } else {
        assert(outcomes.filter(is_err) =~= Seq::<Result<FeedMessage, FetchError>>::empty());
    }
}

/// While the counter does not wrap, folding in fetch outcomes raises it by
/// exactly the number of failed fetches, whatever their kind: by the number
/// of attempts when all of them fail.
pub proof fn lemma_failures_counted_exactly(count: u32, outcomes: Seq<Result<FeedMessage, FetchError>>)
    requires
        count + failed_count(outcomes) <= u32::MAX,
    ensures
        add_failures(count, failed_count(outcomes)) == count + failed_count(outcomes),
        add_failures(count, failed_count(outcomes)) == count + outcomes.filter(
            |o: Result<FeedMessage, FetchError>| o is Err,
        ).len(),
        (forall|i: int| 0 <= i < outcomes.len() ==> (#[trigger] outcomes[i]) is Err) ==> add_failures(
            count,
            failed_count(outcomes),
        ) == count + outcomes.len(),
{
    lemma_fetch_outcomes_split(outcomes);
}

/// From any count, at least `FAILURE_THRESHOLD + 1` further failures (short
/// of wrapping the counter) make the health `Error`; a reset count is
/// healthy.
pub proof fn lemma_health_after_failures(count: u32, n: nat)
    requires
        n > FAILURE_THRESHOLD,
        count + n <= u32::MAX,
    ensures
        health_of(add_failures(count, n)) == TrainCheckerStatus::Error,
        health_of(0) == TrainCheckerStatus::Healthy,
{
}

/// What a validated stop needs fetched.
#[derive(Clone, Debug)]
pub struct StopQuery {
    pub stop_id: String,
    /// The routes that serve the stop, each once.
    pub routes: Vec<String>,
    /// The feeds that cover those routes, each once.
    pub feeds: Vec<FeedGroup>,
}

/// A stop with its serving routes and the nearest arrivals of each route
/// that has any.
#[derive(Clone, Debug)]
pub struct StopStatus {
    pub stop_id: String,
    pub stop_name: Option<String>,
    pub routes: Vec<String>,
    pub train_arrivals: Vec<RouteArrivals>,
}

/// An arrival as plain values: route, route name, seconds from now, and
/// the time in words.
pub open spec fn arrival_view(a: TrainArrival) -> (Seq<char>, Option<Seq<char>>, i32, Seq<char>) {
    (a.route_id@, opt_text(a.route_name), a.arrival_time, a.human_time@)
}

/// The views of a list of arrivals.
pub open spec fn arrival_views(v: Seq<TrainArrival>) -> Seq<(Seq<char>, Option<Seq<char>>, i32, Seq<char>)> {
    v.map_values(|a: TrainArrival| arrival_view(a))
}

/// The arrivals listed for `route`: those of its first entry, or none.
pub open spec fn arrivals_of(v: Seq<RouteArrivals>, route: Seq<char>) -> Seq<TrainArrival>
    decreases v.len(),
{
    if v.len() == 0 {
        Seq::empty()
    } else if v[0].route_id@ == route {
        v[0].arrivals@
    } else {
        arrivals_of(v.drop_first(), route)
    }
}

/// Whether an arrival (as plain values) is due `t` seconds from now.
pub open spec fn due_in(t: i32) -> spec_fn((Seq<char>, Option<Seq<char>>, i32, Seq<char>)) -> bool {
    |a: (Seq<char>, Option<Seq<char>>, i32, Seq<char>)| a.2 == t
}

/// Every listed arrival, route after route.
pub open spec fn all_listed(v: Seq<RouteArrivals>) -> Seq<(Seq<char>, Option<Seq<char>>, i32, Seq<char>)>
    decreases v.len(),
{
    if v.len() == 0 {
        Seq::empty()
    } else {
        all_listed(v.drop_last()) + arrival_views(v.last().arrivals@)
    }
}

fn copy_arrival(a: &TrainArrival) -> (r: TrainArrival)
    ensures
        arrival_view(r) == arrival_view(*a),
{
    TrainArrival {
        route_id: a.route_id.clone(),
        route_name: match &a.route_name {
            Some(n) => Some(n.clone()),
            None => None,
        },
        arrival_time: a.arrival_time,
        human_time: a.human_time.clone(),
    }
}

fn copy_arrivals(v: &Vec<TrainArrival>, out: &mut Vec<TrainArrival>)
    ensures
        arrival_views(final(out)@) == arrival_views(old(out)@) + arrival_views(v@),
{
    let ghost start = arrival_views(out@);
    let mut i: usize = 0;
    while i < v.len()
        invariant
            i <= v@.len(),
            arrival_views(out@) == start + arrival_views(v@.subrange(0, i as int)),
        decreases v@.len() - i,
    {
        let ghost before = out@;
        out.push(copy_arrival(&v[i]));
        assert(arrival_views(out@) =~= arrival_views(before).push(arrival_view(v@[i as int])));
        assert(arrival_views(v@.subrange(0, i + 1)) =~= arrival_views(v@.subrange(0, i as int)).push(
            arrival_view(v@[i as int]),
        ));
        i = i + 1;
    }
    assert(v@.subrange(0, i as int) =~= v@);
}

impl StopStatus {
    /// The arrivals listed for `route_id`; none if the route has no entry.
    pub fn route_arrivals(&self, route_id: &str) -> (r: Vec<TrainArrival>)
        ensures
            arrival_views(r@) == arrival_views(arrivals_of(self.train_arrivals@, route_id@)),
    {
        let v = &self.train_arrivals;
        let mut i: usize = 0;
        assert(v@.subrange(0, v@.len() as int) =~= v@);
        while i < v.len()
            invariant
                i <= v@.len(),
                v@ == self.train_arrivals@,
                arrivals_of(v@, route_id@) == arrivals_of(v@.subrange(i as int, v@.len() as int), route_id@),
            decreases v@.len() - i,
        {
            let ghost rest = v@.subrange(i as int, v@.len() as int);
            assert(rest[0] == v@[i as int]);
            if same_text(v[i].route_id.as_str(), route_id) {
                let mut out: Vec<TrainArrival> = Vec::new();
                copy_arrivals(&v[i].arrivals, &mut out);
                assert(arrival_views(out@) =~= arrival_views(v@[i as int].arrivals@));
                assert(rest[0].route_id@ == route_id@);
                assert(arrivals_of(rest, route_id@) == rest[0].arrivals@);
                return out;
            }
            assert(rest.drop_first() =~= v@.subrange(i + 1, v@.len() as int));
            i = i + 1;
        }
        let out: Vec<TrainArrival> = Vec::new();
        assert(arrival_views(out@) =~= Seq::empty());
        out
    }

    /// Every listed arrival, nearest first; arrivals due at the same time
    /// keep their listing order (route after route).
    pub fn all_arrivals(&self) -> (r: Vec<TrainArrival>)
        ensures
            arrival_views(r@).to_multiset() == all_listed(self.train_arrivals@).to_multiset(),
            forall|i: int, j: int| 0 <= i < j < r@.len() ==> #[trigger] r@[i].arrival_time <= #[trigger] r@[j].arrival_time,
            forall|t: i32| #[trigger] arrival_views(r@).filter(due_in(t)) == all_listed(self.train_arrivals@).filter(due_in(t)),
    {
        let v = &self.train_arrivals;
        let mut flat: Vec<TrainArrival> = Vec::new();
        let mut k: usize = 0;
        assert(arrival_views(flat@) =~= Seq::empty());
        while k < v.len()
            invariant
                k <= v@.len(),
                arrival_views(flat@) == all_listed(v@.subrange(0, k as int)),
            decreases v@.len() - k,
        {
            copy_arrivals(&v[k].arrivals, &mut flat);
            assert(v@.subrange(0, k + 1).drop_last() =~= v@.subrange(0, k as int));
            k = k + 1;
        }
        assert(v@.subrange(0, k as int) =~= v@);
        let ghost all = arrival_views(flat@);
        let mut r: Vec<TrainArrival> = Vec::new();
        let mut i: usize = 0;
        assert(all.subrange(0, 0) =~= arrival_views(r@));
        while i < flat.len()
            invariant
                i <= flat@.len(),
                all == arrival_views(flat@),
                forall|a: int, b: int| 0 <= a < b < r@.len() ==> #[trigger] r@[a].arrival_time <= #[trigger] r@[b].arrival_time,
                arrival_views(r@).to_multiset() == all.subrange(0, i as int).to_multiset(),
                forall|t: i32| #[trigger] arrival_views(r@).filter(due_in(t)) == all.subrange(0, i as int).filter(due_in(t)),
            decreases flat@.len() - i,
        {
            let x = copy_arrival(&flat[i]);
            let mut pos: usize = 0;
            while pos < r.len() && r[pos].arrival_time <= x.arrival_time
                invariant
                    pos <= r@.len(),
                    forall|j: int| 0 <= j < pos ==> #[trigger] r@[j].arrival_time <= x.arrival_time,
                decreases r@.len() - pos,
            {
                pos = pos + 1;
            }
            let ghost before = r@;
            let ghost xv = arrival_view(x);
            r.insert(pos, x);
            assert(r@ == before.insert(pos as int, x));
            assert forall|a: int, b: int| 0 <= a < b < r@.len() implies #[trigger] r@[a].arrival_time
                <= #[trigger] r@[b].arrival_time by {
                if b < pos {
                    assert(before[a].arrival_time <= before[b].arrival_time);
                } else if b == pos {
                } else if a < pos {
                    assert(before[a].arrival_time <= before[b - 1].arrival_time);
                } else if a == pos {
                    assert(before[pos as int].arrival_time <= before[b - 1].arrival_time);
                } else {
                    assert(before[a - 1].arrival_time <= before[b - 1].arrival_time);
                }
            }
            proof {
                let s = arrival_views(r@);
                assert(s =~= arrival_views(before).insert(pos as int, xv));
                assert(s.remove(pos as int) =~= arrival_views(before));
                to_multiset_remove(s, pos as int);
                assert(s.to_multiset().count(xv) > 0) by {
                    vstd::seq_lib::lemma_seq_contains(s, xv);
                    s.to_multiset_ensures();
                }
                assert(s.to_multiset() =~= arrival_views(before).to_multiset().insert(xv));
                let pre = all.subrange(0, i as int);
                assert(xv == all[i as int]);
                assert(all.subrange(0, i + 1) =~= pre.push(all[i as int]));
                to_multiset_build(pre, all[i as int]);
                let sb = arrival_views(before);
                assert forall|j: int| pos <= j < sb.len() implies sb[j].2 > xv.2 by {
                    assert(before[pos as int].arrival_time <= before[j].arrival_time);
                }
                assert forall|t: i32| #[trigger] s.filter(due_in(t)) == all.subrange(0, i + 1).filter(due_in(t)) by {
                    let p = due_in(t);
                    let head = sb.take(pos as int);
                    let tail = sb.skip(pos as int);
                    assert(sb =~= head + tail);
                    assert(s =~= head.push(xv) + tail);
                    Seq::filter_distributes_over_add(head, tail, p);
                    Seq::filter_distributes_over_add(head.push(xv), tail, p);
                    head.lemma_filter_push(xv, p);
                    pre.lemma_filter_push(xv, p);
                    if p(xv) {
                        if tail.filter(p).len() > 0 {
                            let e = tail.filter(p)[0];
                            tail.lemma_filter_pred(p, 0);
                            assert(tail.filter(p).contains(e));
                            tail.lemma_filter_contains_rev(p, e);
                            let j = choose|j: int| 0 <= j < tail.len() && tail[j] == e;
                            assert(tail[j] == sb[pos + j]);
                            assert(false);
                        }
                        assert(tail.filter(p) =~= Seq::empty());
                        assert(s.filter(p) =~= head.filter(p).push(xv));
                        assert(sb.filter(p) =~= head.filter(p));
                    }
                }
            }
            i = i + 1;
        }
        assert(all.subrange(0, i as int) =~= all);
        r
    }
}

/// Settings of a monitor that polls a stop.
#[derive(Clone, Copy, Debug)]
pub struct TrainCheckerConfig {
    pub update_interval_secs: u64,
    pub max_arrivals_per_route: usize,
}

/// The shortest polling interval a monitor may be set to, in seconds.
pub const MIN_UPDATE_INTERVAL_SECS: u64 = 5;

/// The longest polling interval a monitor may be set to, in seconds.
pub const MAX_UPDATE_INTERVAL_SECS: u64 = 120;

/// One step of interval adjustment, in seconds.
pub const UPDATE_INTERVAL_STEP_SECS: u64 = 5;

/// The polling interval one step faster, never below the minimum; an
/// interval already at or below the minimum is kept.
pub fn faster_interval(secs: u64) -> (r: u64)
    ensures
        secs > MIN_UPDATE_INTERVAL_SECS ==> r == if secs - UPDATE_INTERVAL_STEP_SECS > MIN_UPDATE_INTERVAL_SECS {
            secs - UPDATE_INTERVAL_STEP_SECS
        } else {
            MIN_UPDATE_INTERVAL_SECS as int
        },
        secs <= MIN_UPDATE_INTERVAL_SECS ==> r == secs,
{
    if secs > MIN_UPDATE_INTERVAL_SECS {
        if secs - UPDATE_INTERVAL_STEP_SECS > MIN_UPDATE_INTERVAL_SECS {
            secs - UPDATE_INTERVAL_STEP_SECS
        } else {
            MIN_UPDATE_INTERVAL_SECS
        }
    } else {
        secs
    }
}

/// The polling interval one step slower, never above the maximum; an
/// interval already at or above the maximum is kept.
pub fn slower_interval(secs: u64) -> (r: u64)
    ensures
        secs < MAX_UPDATE_INTERVAL_SECS ==> r == if secs + UPDATE_INTERVAL_STEP_SECS < MAX_UPDATE_INTERVAL_SECS {
            secs + UPDATE_INTERVAL_STEP_SECS
        } else {
            MAX_UPDATE_INTERVAL_SECS as int
        },
        secs >= MAX_UPDATE_INTERVAL_SECS ==> r == secs,
{
    if secs < MAX_UPDATE_INTERVAL_SECS {
        if secs + UPDATE_INTERVAL_STEP_SECS < MAX_UPDATE_INTERVAL_SECS {
            secs + UPDATE_INTERVAL_STEP_SECS
        } else {
            MAX_UPDATE_INTERVAL_SECS
        }
    } else {
        secs
    }
}

impl Default for TrainCheckerConfig {
    fn default() -> (r: Self)
        ensures
            r.update_interval_secs == 10,
            r.max_arrivals_per_route == DEFAULT_MAX_ARRIVALS,
    {
        TrainCheckerConfig { update_interval_secs: 10, max_arrivals_per_route: DEFAULT_MAX_ARRIVALS }
    }
}

/// The schedule of a network together with the count of failed feed
/// fetches.
pub struct TrainChecker {
    schedule: ScheduleIndex,
    failed_requests: u32,
}

impl TrainChecker {
    /// The number of failed feed fetches since the start or the last reset.
    pub closed spec fn failures(&self) -> u32 {
        self.failed_requests
    }

    /// The schedule that the checker answers from.
    pub closed spec fn index(&self) -> ScheduleIndex {
        self.schedule
    }

    pub fn schedule(&self) -> (r: &ScheduleIndex)
        ensures
            *r == self.index(),
    {
        &self.schedule
    }

    /// A checker over `schedule` with no failures counted.
    pub fn new(schedule: ScheduleIndex) -> (r: Self)
        ensures
            r.index() == schedule,
            r.failures() == 0,
    {
        TrainChecker { schedule, failed_requests: 0 }
    }

    pub fn get_failed_requests_count(&self) -> (r: u32)
        ensures
            r == self.failures(),
    {
        self.failed_requests
    }

    pub fn reset_failed_requests(&mut self)
        ensures
            final(self).failures() == 0,
            final(self).index() == old(self).index(),
    {
        self.failed_requests = 0;
    }

    /// `Error` once more than `FAILURE_THRESHOLD` fetches have failed.
    pub fn get_status(&self) -> (r: TrainCheckerStatus)
        ensures
            r == health_of(self.failures()),
    {
        if self.failed_requests > FAILURE_THRESHOLD {
            TrainCheckerStatus::Error
        } else {
            TrainCheckerStatus::Healthy
        }
    }

    /// Whether the schedule has a stop `stop_id`.
    pub fn is_valid_stop(&self, stop_id: &str) -> (r: bool)
        ensures
            r == stop_lookup(self.index().stops@, stop_id@) is Some,
    {
        self.schedule.is_valid_stop(stop_id)
    }

    /// The name of stop `stop_id`, if it exists and has one.
    pub fn get_stop_name(&self, stop_id: &str) -> (r: Option<String>)
        ensures
            opt_text(r) == stop_name_of(self.index().stops@, stop_id@),
    {
        self.schedule.get_stop_name(stop_id)
    }

    /// Every stop as (identifier, name), ordered by identifier.
    pub fn get_all_stops(&self) -> (r: Vec<(String, Option<String>)>)
        ensures
            entries(r@).to_multiset() == self.index().stops@.map_values(|s: StopRecord| stop_entry(s)).to_multiset(),
            forall|i: int, j: int| 0 <= i < j < r@.len() ==> text_le(#[trigger] r@[i].0@, #[trigger] r@[j].0@),
    {
        self.schedule.get_all_stops()
    }

    /// The identifier of the first stop named `stop_name`.
    pub fn get_stop_id(&self, stop_name: &str) -> (r: Option<String>)
        ensures
            opt_text(r) == match stop_named(self.index().stops@, stop_name@) {
                Some(s) => Some(s.id@),
                None => None,
            },
    {
        self.schedule.get_stop_id(stop_name)
    }

    /// The routes whose trips visit stop `stop_id`, each once.
    pub fn get_routes_for_stop(&self, stop_id: &str) -> (r: Vec<String>)
        ensures
            texts(r@) == serving_routes(self.index().trips@, stop_id@),
    {
        self.schedule.get_routes_for_stop(stop_id)
    }

    /// A stop for display: `name (id)`.
    pub fn format_stop_display(&self, stop_id: &str, stop_name: &str) -> (r: String)
        ensures
            r@ == stop_name@ + seq![' ', '('] + stop_id@ + seq![')'],
    {
        let open_paren = " (";
        let close_paren = ")";
        proof {
            reveal_strlit(" (");
            reveal_strlit(")");
        }
        let r = String::from_str(stop_name).concat(open_paren).concat(stop_id).concat(close_paren);
        assert(r@ =~= stop_name@ + seq![' ', '('] + stop_id@ + seq![')']);
        r
    }

    /// Validates `stop_id` and works out which feeds its routes need: fails
    /// on a stop outside the schedule, on a route outside every feed group,
    /// and on a stop whose routes need no feed.
    pub fn plan_stop_query(&self, stop_id: &str) -> (r: Result<StopQuery, CheckerError>)
        ensures
            ({
                let served = serving_routes(self.index().trips@, stop_id@);
                &&& stop_lookup(self.index().stops@, stop_id@) is None <==> r is Err && r->Err_0 is InvalidStop
                &&& r matches Err(CheckerError::InvalidStop(id)) ==> id@ == stop_id@
                &&& r matches Err(CheckerError::UnknownRoute(id)) ==> stop_lookup(self.index().stops@, stop_id@) is Some
                    && exists|k: int|
                    0 <= k < served.len() && all_known(served.subrange(0, k)) && route_group(#[trigger] served[k])
                        is None && id@ == strip_express(served[k])
                &&& (stop_lookup(self.index().stops@, stop_id@) is Some && !all_known(served)) <==> (r is Err
                    && r->Err_0 is UnknownRoute)
                &&& (stop_lookup(self.index().stops@, stop_id@) is Some && all_known(served) && feed_groups(
                    served,
                ).len() == 0) <==> (r is Err && r->Err_0 is NoFeedsRequested)
                &&& r matches Ok(q) ==> q.stop_id@ == stop_id@ && texts(q.routes@) == served && q.feeds@
                    == feed_groups(served)
            }),
    {
        if !self.schedule.is_valid_stop(stop_id) {
            return Err(CheckerError::InvalidStop(String::from_str(stop_id)));
        }
        let routes = self.schedule.get_routes_for_stop(stop_id);
        match get_realtime_feeds_for_routes(&routes) {
            Ok(feeds) => {
                if feeds.len() == 0 {
                    Err(CheckerError::NoFeedsRequested)
                } else {
                    Ok(StopQuery { stop_id: String::from_str(stop_id), routes, feeds })
                }
            },
            Err(RouteError::UnknownRoute(id)) => {
                proof {
                    let served = texts(routes@);
                    let k = choose|k: int|
                        0 <= k < routes@.len() && all_known(served.subrange(0, k))
                            && route_group(#[trigger] routes@[k]@) is None && id@ == strip_express(routes@[k]@);
                    assert(served[k] == routes@[k]@);
                    assert(!all_known(served));
                }
                Err(CheckerError::UnknownRoute(id))
            },
        }
    }

    /// The status of the queried stop from the fetched feeds: its name, its
    /// serving routes, and per route that the feeds predict at the stop the
    /// `cap` nearest upcoming arrivals, measured from `now` (seconds since
    /// the epoch).
    pub fn build_stop_status(&self, query: StopQuery, feeds: &Vec<FeedMessage>, now: i64, cap: usize) -> (r: StopStatus)
        ensures
            r.stop_id@ == query.stop_id@,
            opt_text(r.stop_name) == stop_name_of(self.index().stops@, query.stop_id@),
            r.routes == query.routes,
            ranked_arrivals(r.train_arrivals@, feeds_preds(feeds@, query.stop_id@, now), self.index().routes@, cap as nat),
    {
        let preds = collect_predictions(feeds, query.stop_id.as_str(), now);
        let train_arrivals = arrivals_by_route(&self.schedule, &preds, cap);
        let stop_name = self.schedule.get_stop_name(query.stop_id.as_str());
        StopStatus { stop_id: query.stop_id, stop_name, routes: query.routes, train_arrivals }
    }

    /// Folds in the outcomes of the query's fetches (counting each failure)
    /// and builds the stop's status from the feeds that were fetched.
    pub fn complete_stop_status(
        &mut self,
        query: StopQuery,
        outcomes: Vec<Result<FeedMessage, FetchError>>,
        now: i64,
        cap: usize,
    ) -> (r: StopStatus)
        ensures
            final(self).index() == old(self).index(),
            final(self).failures() == add_failures(old(self).failures(), failed_count(outcomes@)),
            r.stop_id@ == query.stop_id@,
            opt_text(r.stop_name) == stop_name_of(old(self).index().stops@, query.stop_id@),
            r.routes == query.routes,
            ranked_arrivals(
                r.train_arrivals@,
                feeds_preds(fetched(outcomes@), query.stop_id@, now),
                old(self).index().routes@,
                cap as nat,
            ),
    {
        let feeds = self.record_fetch_results(outcomes);
        self.build_stop_status(query, &feeds, now, cap)
    }

    /// As `complete_stop_status`, with the arrivals measured from the current
    /// time and `DEFAULT_MAX_ARRIVALS` kept per route.
    pub fn get_stop_status(&mut self, query: StopQuery, outcomes: Vec<Result<FeedMessage, FetchError>>) -> (r: StopStatus)
        ensures
            final(self).index() == old(self).index(),
            final(self).failures() == add_failures(old(self).failures(), failed_count(outcomes@)),
            r.stop_id@ == query.stop_id@,
            opt_text(r.stop_name) == stop_name_of(old(self).index().stops@, query.stop_id@),
            r.routes == query.routes,
            exists|now: i64|
                ranked_arrivals(
                    r.train_arrivals@,
                    #[trigger] feeds_preds(fetched(outcomes@), query.stop_id@, now),
                    old(self).index().routes@,
                    DEFAULT_MAX_ARRIVALS as nat,
                ),
    {
        let now = current_timestamp();
        let r = self.complete_stop_status(query, outcomes, now, DEFAULT_MAX_ARRIVALS);
        assert(ranked_arrivals(
            r.train_arrivals@,
            feeds_preds(fetched(outcomes@), query.stop_id@, now),
            old(self).index().routes@,
            DEFAULT_MAX_ARRIVALS as nat,
        ));
        r
    }

    /// Counts one failed fetch.
    pub fn record_failure(&mut self)
        ensures
            final(self).failures() == add_failures(old(self).failures(), 1),
            final(self).index() == old(self).index(),
    {
        if self.failed_requests == u32::MAX {
            self.failed_requests = 0;
        } else {
            self.failed_requests = self.failed_requests + 1;
        }
    }

    /// Folds the outcomes of concurrent fetches: the feeds that were
    /// fetched, in order, while each failure counts once.
    pub fn record_fetch_results(&mut self, outcomes: Vec<Result<FeedMessage, FetchError>>) -> (r: Vec<FeedMessage>)
        ensures
            r@ == fetched(outcomes@),
            final(self).failures() == add_failures(old(self).failures(), failed_count(outcomes@)),
            final(self).index() == old(self).index(),
    {
        let ghost all = outcomes@;
        let ghost start = self.failed_requests;
        let total = outcomes.len();
        let mut rest = outcomes;
        let mut feeds: Vec<FeedMessage> = Vec::new();
        let mut i: usize = 0;
        assert(all.subrange(0, 0) =~= Seq::<Result<FeedMessage, FetchError>>::empty());
        while rest.len() > 0
            invariant
                i + rest@.len() == all.len(),
                all.len() == total,
                rest@ == all.subrange(i as int, all.len() as int),
                feeds@ == fetched(all.subrange(0, i as int)),
                self.failed_requests == add_failures(start, failed_count(all.subrange(0, i as int))),
                self.schedule == old(self).schedule,
            decreases rest@.len(),
        {
            let o = rest.remove(0);
            assert(o == all[i as int]);
            assert(all.subrange(0, i + 1).drop_last() =~= all.subrange(0, i as int));
            assert(all.subrange(0, i + 1).last() == all[i as int]);
            let ghost n = failed_count(all.subrange(0, i as int));
            match o {
                Ok(f) => {
                    feeds.push(f);
                },
                Err(_) => {
                    self.record_failure();
                    assert(add_failures(add_failures(start, n), 1) == add_failures(start, n + 1)) by (nonlinear_arith);
                },
            }
            assert(rest@ =~= all.subrange(i + 1, all.len() as int));
            i = i + 1;
        }
        assert(all.subrange(0, i as int) =~= all);
        feeds
    }
}

} // verus!
