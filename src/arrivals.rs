//! Reducing predictions to the nearest arrivals of each route.

use vstd::prelude::*;
use vstd::relations::{sorted_by, total_ordering};
use vstd::seq_lib::{lemma_sorted_unique, to_multiset_remove, to_multiset_build};
use crate::feed::{
    all_upcoming, feeds_preds, lemma_feeds_preds_upcoming, upcoming, view_preds, FeedMessage, Prediction,
};
use crate::schedule::{route_name_of, ScheduleIndex};
use crate::text::{contains_text, opt_text, same_text, texts};

verus! {

/// The values of a sequence of `i32` as integers.
pub open spec fn ints(s: Seq<i32>) -> Seq<int> {
    s.map_values(|t: i32| t as int)
}

/// The order in which arrivals are ranked: nearest first.
pub open spec fn ascending() -> spec_fn(int, int) -> bool {
    |a: int, b: int| a <= b
}

/// The `cap` smallest of `times`, in ascending order (all of them if there
/// are no more than `cap`).
pub open spec fn nearest_of(times: Seq<int>, cap: nat) -> Seq<int> {
    let sorted = times.sort_by(ascending());
    if cap < sorted.len() {
        sorted.take(cap as int)
    } else {
        sorted
    }
}

proof fn lemma_ascending_total()
    ensures
        total_ordering(ascending()),
{
}

/// The nearest times are sorted, nearest first, and there are `cap` of them,
/// or all of them where there are no more than `cap`; each is one of `times`.
pub proof fn lemma_nearest_sorted_capped(times: Seq<int>, cap: nat)
    ensures
        sorted_by(nearest_of(times, cap), ascending()),
        nearest_of(times, cap).len() == if cap < times.len() {
            cap as int
        } else {
            times.len() as int
        },
        forall|x: int| nearest_of(times, cap).contains(x) ==> times.contains(x),
{
    lemma_ascending_total();
    times.lemma_sort_by_ensures(ascending());
    let sorted = times.sort_by(ascending());
    assert(sorted.len() == times.len()) by {
        sorted.to_multiset_ensures();
        times.to_multiset_ensures();
    }
    assert forall|x: int| nearest_of(times, cap).contains(x) implies times.contains(x) by {
        let i = choose|i: int| 0 <= i < nearest_of(times, cap).len() && nearest_of(times, cap)[i] == x;
        assert(sorted[i] == x);
        assert(sorted.contains(x));
    }
}

/// A sorted copy of `v`.
fn sort_ascending(v: &Vec<i32>) -> (r: Vec<i32>)
    ensures
        sorted_by(ints(r@), ascending()),
        ints(r@).to_multiset() == ints(v@).to_multiset(),
{
    let mut r: Vec<i32> = Vec::new();
    let mut i: usize = 0;
    assert(ints(v@).subrange(0, 0) =~= ints(r@));
    while i < v.len()
        invariant
            i <= v@.len(),
            sorted_by(ints(r@), ascending()),
            ints(r@).to_multiset() == ints(v@).subrange(0, i as int).to_multiset(),
        decreases v@.len() - i,
    {
        let x = v[i];
        let mut pos: usize = 0;
        while pos < r.len() && r[pos] <= x
            invariant
                pos <= r@.len(),
                forall|j: int| 0 <= j < pos ==> r@[j] <= x,
            decreases r@.len() - pos,
        {
            pos = pos + 1;
        }
        let ghost before = r@;
        r.insert(pos, x);
        assert(r@ == before.insert(pos as int, x));
        assert(ints(r@) =~= ints(before).insert(pos as int, x as int));
        assert forall|a: int, b: int| 0 <= a < b < ints(r@).len() implies #[trigger] (ascending())(
            ints(r@)[a],
            ints(r@)[b],
        ) by {
            assert(sorted_by(ints(before), ascending()));
            if b < pos {
                assert((ascending())(ints(before)[a], ints(before)[b]));
            } else if b == pos {
            } else if a < pos {
                assert((ascending())(ints(before)[a], ints(before)[b - 1]));
            } else if a == pos {
                assert((ascending())(ints(before)[pos as int], ints(before)[b - 1]));
            } else {
                assert((ascending())(ints(before)[a - 1], ints(before)[b - 1]));
            }
        }
        proof {
            let s = ints(r@);
            assert(s.remove(pos as int) =~= ints(before));
            to_multiset_remove(s, pos as int);
            assert(s.to_multiset().count(x as int) > 0) by {
                vstd::seq_lib::lemma_seq_contains(s, x as int);
                s.to_multiset_ensures();
            }
            assert(s.to_multiset() =~= ints(before).to_multiset().insert(x as int));
            let pre = ints(v@).subrange(0, i as int);
            assert(ints(v@).subrange(0, i + 1) =~= pre.push(x as int));
            to_multiset_build(pre, x as int);
        }
        i = i + 1;
    }
    assert(ints(v@).subrange(0, i as int) =~= ints(v@));
    r
}

/// The `cap` nearest of `times`, nearest first.
pub fn nearest_times(times: &Vec<i32>, cap: usize) -> (r: Vec<i32>)
    ensures
        ints(r@) == nearest_of(ints(times@), cap as nat),
{
    let sorted = sort_ascending(times);
    let mut r: Vec<i32> = Vec::new();
    let mut i: usize = 0;
    while i < sorted.len() && i < cap
        invariant
            i <= sorted@.len(),
            i <= cap,
            ints(r@) == ints(sorted@).take(i as int),
        decreases sorted@.len() - i,
    {
        let ghost before = r@;
        r.push(sorted[i]);
        assert(ints(r@) =~= ints(before).push(sorted@[i as int] as int));
        i = i + 1;
        assert(ints(r@) =~= ints(sorted@).take(i as int));
    }
    proof {
        let t = ints(times@);
        lemma_ascending_total();
        t.lemma_sort_by_ensures(ascending());
        lemma_sorted_unique(ints(sorted@), t.sort_by(ascending()), ascending());
        assert(ints(sorted@) == t.sort_by(ascending()));
        if cap >= sorted@.len() {
            assert(ints(sorted@).take(i as int) =~= ints(sorted@));
        } else {
            assert(i == cap);
        }
    }
    r
}

/// The times until arrival that `preds` give for `route`, in order.
pub open spec fn route_times(preds: Seq<(Seq<char>, int)>, route: Seq<char>) -> Seq<int>
    decreases preds.len(),
{
    if preds.len() == 0 {
        Seq::empty()
    } else {
        let before = route_times(preds.drop_last(), route);
        if preds.last().0 == route {
            before.push(preds.last().1)
        } else {
            before
        }
    }
}

/// The routes that `preds` mention, each once, in order of first mention.
pub open spec fn route_order(preds: Seq<(Seq<char>, int)>) -> Seq<Seq<char>>
    decreases preds.len(),
{
    if preds.len() == 0 {
        Seq::empty()
    } else {
        let before = route_order(preds.drop_last());
        if before.contains(preds.last().0) {
            before
        } else {
            before.push(preds.last().0)
        }
    }
}

/// Each route that predictions mention is listed once, and exactly those
/// routes are listed: a stop status has one entry per route.
pub proof fn lemma_route_order_exact(preds: Seq<(Seq<char>, int)>)
    ensures
        route_order(preds).no_duplicates(),
        forall|r: Seq<char>| #[trigger] route_order(preds).contains(r) <==> exists|i: int|
            0 <= i < preds.len() && (#[trigger] preds[i]).0 == r,
    decreases preds.len(),
{
    if preds.len() > 0 {
        let init = preds.drop_last();
        lemma_route_order_exact(init);
        let before = route_order(init);
        let last = preds[preds.len() - 1];
        assert forall|r: Seq<char>| #[trigger] route_order(preds).contains(r) <==> exists|i: int|
            0 <= i < preds.len() && (#[trigger] preds[i]).0 == r by {
            if route_order(preds).contains(r) {
                if before.contains(r) {
                    let i = choose|i: int| 0 <= i < init.len() && (#[trigger] init[i]).0 == r;
                    assert(preds[i] == init[i]);
                } else {
                    assert(route_order(preds)[before.len() as int] == r);
                }
            }
            if exists|i: int| 0 <= i < preds.len() && (#[trigger] preds[i]).0 == r {
                let i = choose|i: int| 0 <= i < preds.len() && (#[trigger] preds[i]).0 == r;
                if i < init.len() {
                    assert(init[i] == preds[i]);
                    assert(before.contains(r));
                    let k = choose|k: int| 0 <= k < before.len() && before[k] == r;
                    assert(route_order(preds)[k] == r);
                } else if !before.contains(last.0) {
                    assert(route_order(preds)[before.len() as int] == r);
                }
            }
        }
    }
}

/// The text that describes, in words, a time `secs` seconds from now.
pub uninterp spec fn human_time_of(secs: int) -> Seq<char>;

/// Relies on chrono_humanize's `HumanTime` built from a chrono `Duration`
/// of `secs` seconds, shown through its `Display` impl: the text depends
/// on the duration alone.
#[verifier::external_body]
fn humanize_seconds(secs: i32) -> (r: String)
    ensures
        r@ == human_time_of(secs as int),
{
    chrono_humanize::HumanTime::from(chrono::Duration::seconds(secs as i64)).to_string()
}

/// One expected train at a stop.
#[derive(Clone, Debug)]
pub struct TrainArrival {
    pub route_id: String,
    pub route_name: Option<String>,
    /// Seconds from now.
    pub arrival_time: i32,
    pub human_time: String,
}

/// The nearest expected trains of one route, nearest first.
#[derive(Clone, Debug)]
pub struct RouteArrivals {
    pub route_id: String,
    pub arrivals: Vec<TrainArrival>,
}

/// Whether `arrs` are the arrivals of `route` (shown as `name`) at the given
/// times, in that order.
pub open spec fn arrivals_at(arrs: Seq<TrainArrival>, route: Seq<char>, name: Option<Seq<char>>, times: Seq<int>) -> bool {
    &&& arrs.len() == times.len()
    &&& forall|i: int| #![trigger arrs[i]] 0 <= i < arrs.len() ==> {
        &&& arrs[i].route_id@ == route
        &&& opt_text(arrs[i].route_name) == name
        &&& arrs[i].arrival_time as int == times[i]
        &&& arrs[i].human_time@ == human_time_of(times[i])
    }
}

/// The route identifiers of a list of per-route arrivals.
pub open spec fn arrival_routes(v: Seq<RouteArrivals>) -> Seq<Seq<char>> {
    v.map_values(|a: RouteArrivals| a.route_id@)
}

/// Whether `v` holds, for each route that `preds` mention and in order of
/// first mention, the `cap` nearest arrivals of that route, named as in
/// `routes`.
pub open spec fn ranked_arrivals(
    v: Seq<RouteArrivals>,
    preds: Seq<(Seq<char>, int)>,
    routes: Seq<crate::schedule::RouteRecord>,
    cap: nat,
) -> bool {
    &&& arrival_routes(v) == route_order(preds)
    &&& forall|k: int| #![trigger v[k]] 0 <= k < v.len() ==> arrivals_at(
        v[k].arrivals@,
        v[k].route_id@,
        route_name_of(routes, v[k].route_id@),
        nearest_of(route_times(preds, v[k].route_id@), cap),
    )
}

/// The times until arrival of `route` among `preds`, in order.
fn times_for(preds: &Vec<Prediction>, route: &str) -> (r: Vec<i32>)
    ensures
        ints(r@) == route_times(view_preds(preds@), route@),
{
    let mut r: Vec<i32> = Vec::new();
    let mut i: usize = 0;
    assert(ints(r@) =~= Seq::empty());
    while i < preds.len()
        invariant
            i <= preds@.len(),
            ints(r@) == route_times(view_preds(preds@.subrange(0, i as int)), route@),
        decreases preds@.len() - i,
    {
        let ghost pre = view_preds(preds@.subrange(0, i as int));
        let ghost next = view_preds(preds@.subrange(0, i + 1));
        assert(next.drop_last() =~= pre);
        assert(next.last() == preds@[i as int]@);
        if same_text(preds[i].route_id.as_str(), route) {
            let ghost before = r@;
            r.push(preds[i].seconds);
            assert(ints(r@) =~= ints(before).push(preds@[i as int].seconds as int));
        }
        i = i + 1;
    }
    assert(preds@.subrange(0, i as int) =~= preds@);
    r
}

/// The routes that `preds` mention, each once, in order of first mention.
fn routes_in(preds: &Vec<Prediction>) -> (r: Vec<String>)
    ensures
        texts(r@) == route_order(view_preds(preds@)),
{
    let mut r: Vec<String> = Vec::new();
    let mut i: usize = 0;
    assert(texts(r@) =~= Seq::empty());
    while i < preds.len()
        invariant
            i <= preds@.len(),
            texts(r@) == route_order(view_preds(preds@.subrange(0, i as int))),
        decreases preds@.len() - i,
    {
        let ghost pre = view_preds(preds@.subrange(0, i as int));
        let ghost next = view_preds(preds@.subrange(0, i + 1));
        assert(next.drop_last() =~= pre);
        assert(next.last() == preds@[i as int]@);
        if !contains_text(&r, preds[i].route_id.as_str()) {
            let ghost before = r@;
            r.push(preds[i].route_id.clone());
            assert(texts(r@) =~= texts(before).push(preds@[i as int].route_id@));
        }
        i = i + 1;
    }
    assert(preds@.subrange(0, i as int) =~= preds@);
    r
}

/// For each route that `preds` mention, in order of first mention, its `cap`
/// nearest arrivals, nearest first, with the route's short name from
/// `schedule` and a description of each time in words.
pub fn arrivals_by_route(schedule: &ScheduleIndex, preds: &Vec<Prediction>, cap: usize) -> (r: Vec<RouteArrivals>)
    ensures
        ranked_arrivals(r@, view_preds(preds@), schedule.routes@, cap as nat),
{
    let routes = routes_in(preds);
    let ghost pv = view_preds(preds@);
    let mut out: Vec<RouteArrivals> = Vec::new();
    let mut k: usize = 0;
    while k < routes.len()
        invariant
            k <= routes@.len(),
            texts(routes@) == route_order(pv),
            pv == view_preds(preds@),
            arrival_routes(out@) == texts(routes@).take(k as int),
            forall|j: int| #![trigger out@[j]] 0 <= j < out@.len() ==> arrivals_at(
                out@[j].arrivals@,
                out@[j].route_id@,
                route_name_of(schedule.routes@, out@[j].route_id@),
                nearest_of(route_times(pv, out@[j].route_id@), cap as nat),
            ),
        decreases routes@.len() - k,
    {
        let route = &routes[k];
        let name = schedule.get_route_name(route.as_str());
        let times = nearest_times(&times_for(preds, route.as_str()), cap);
        let ghost want = nearest_of(route_times(pv, route@), cap as nat);
        let mut arrs: Vec<TrainArrival> = Vec::new();
        let mut i: usize = 0;
        while i < times.len()
            invariant
                i <= times@.len(),
                ints(times@) == want,
                arrivals_at(arrs@, route@, route_name_of(schedule.routes@, route@), want.take(i as int)),
                opt_text(name) == route_name_of(schedule.routes@, route@),
            decreases times@.len() - i,
        {
            let t = times[i];
            let arrival = TrainArrival {
                route_id: route.clone(),
                route_name: match &name {
                    Some(n) => Some(n.clone()),
                    None => None,
                },
                arrival_time: t,
                human_time: humanize_seconds(t),
            };
            arrs.push(arrival);
            i = i + 1;
            assert(want.take(i as int) =~= want.take(i - 1).push(t as int));
        }
        assert(want.take(i as int) =~= want);
        let ghost before = out@;
        out.push(RouteArrivals { route_id: route.clone(), arrivals: arrs });
        assert(arrival_routes(out@) =~= arrival_routes(before).push(route@));
        assert(texts(routes@)[k as int] == route@);
        k = k + 1;
        assert(texts(routes@).take(k as int) =~= texts(routes@).take(k - 1).push(route@));
    }
    assert(texts(routes@).take(k as int) =~= texts(routes@));
    out
}

proof fn lemma_route_times_upcoming(preds: Seq<(Seq<char>, int)>, route: Seq<char>)
    requires
        all_upcoming(preds),
    ensures
        forall|i: int| 0 <= i < route_times(preds, route).len() ==> upcoming(#[trigger] route_times(preds, route)[i]),
    decreases preds.len(),
{
    if preds.len() > 0 {
        let init = preds.drop_last();
        assert forall|i: int| 0 <= i < init.len() implies upcoming(#[trigger] init[i].1) by {
            assert(init[i] == preds[i]);
        }
        lemma_route_times_upcoming(init, route);
        let before = route_times(init, route);
        let last = preds[preds.len() - 1];
        assert(upcoming(last.1));
        if last.0 == route {
            assert forall|i: int| 0 <= i < before.push(last.1).len() implies upcoming(
                #[trigger] before.push(last.1)[i],
            ) by {
                if i < before.len() {
                    assert(before.push(last.1)[i] == before[i]);
                }
            }
        }
    }
}

/// Every arrival ranked from what feeds predict for a stop is strictly in the
/// future.
pub proof fn lemma_ranked_arrivals_upcoming(
    v: Seq<RouteArrivals>,
    feeds: Seq<FeedMessage>,
    stop: Seq<char>,
    now: i64,
    routes: Seq<crate::schedule::RouteRecord>,
    cap: nat,
)
    requires
        ranked_arrivals(v, feeds_preds(feeds, stop, now), routes, cap),
    ensures
        forall|k: int, i: int|
            0 <= k < v.len() && 0 <= i < v[k].arrivals@.len() ==> #[trigger] v[k].arrivals@[i].arrival_time > 0,
{
    let preds = feeds_preds(feeds, stop, now);
    lemma_feeds_preds_upcoming(feeds, stop, now);
    assert forall|k: int, i: int|
        0 <= k < v.len() && 0 <= i < v[k].arrivals@.len() implies #[trigger] v[k].arrivals@[i].arrival_time > 0 by {
        let times = route_times(preds, v[k].route_id@);
        lemma_route_times_upcoming(preds, v[k].route_id@);
        lemma_nearest_sorted_capped(times, cap);
        let near = nearest_of(times, cap);
        assert(arrivals_at(v[k].arrivals@, v[k].route_id@, route_name_of(routes, v[k].route_id@), near));
        let a = v[k].arrivals@[i];
        assert(near[i] == a.arrival_time);
        assert(near.contains(near[i]));
        assert(times.contains(near[i]));
        let j = choose|j: int| 0 <= j < times.len() && times[j] == near[i];
        assert(upcoming(times[j]));
    }
}

/// Where nothing is predicted at the stop, no route has arrivals listed.
pub proof fn lemma_no_predictions_no_arrivals(
    v: Seq<RouteArrivals>,
    preds: Seq<(Seq<char>, int)>,
    routes: Seq<crate::schedule::RouteRecord>,
    cap: nat,
)
    requires
        preds.len() == 0,
        ranked_arrivals(v, preds, routes, cap),
    ensures
        v.len() == 0,
{
    assert(arrival_routes(v).len() == v.len());
}

/// Each route's ranked arrivals are sorted nearest first, and there are
/// `cap` of them, or all of that route's predictions where there are no
/// more than `cap`.
pub proof fn lemma_ranked_arrivals_sorted_capped(
    v: Seq<RouteArrivals>,
    preds: Seq<(Seq<char>, int)>,
    routes: Seq<crate::schedule::RouteRecord>,
    cap: nat,
)
    requires
        ranked_arrivals(v, preds, routes, cap),
    ensures
        forall|k: int| #![trigger v[k]] 0 <= k < v.len() ==> {
            &&& v[k].arrivals@.len() == if cap < route_times(preds, v[k].route_id@).len() {
                cap as int
            } else {
                route_times(preds, v[k].route_id@).len() as int
            }
            &&& forall|i: int, j: int|
                0 <= i < j < v[k].arrivals@.len() ==> #[trigger] v[k].arrivals@[i].arrival_time
                    <= #[trigger] v[k].arrivals@[j].arrival_time
        },
{
    assert forall|k: int| #![trigger v[k]] 0 <= k < v.len() implies {
        &&& v[k].arrivals@.len() == if cap < route_times(preds, v[k].route_id@).len() {
            cap as int
        } else {
            route_times(preds, v[k].route_id@).len() as int
        }
        &&& forall|i: int, j: int|
            0 <= i < j < v[k].arrivals@.len() ==> #[trigger] v[k].arrivals@[i].arrival_time
                <= #[trigger] v[k].arrivals@[j].arrival_time
    } by {
        let times = route_times(preds, v[k].route_id@);
        lemma_nearest_sorted_capped(times, cap);
        let near = nearest_of(times, cap);
        assert forall|i: int, j: int|
            0 <= i < j < v[k].arrivals@.len() implies #[trigger] v[k].arrivals@[i].arrival_time
                <= #[trigger] v[k].arrivals@[j].arrival_time by {
            assert((ascending())(near[i], near[j]));
        }
    }
}

} // verus!
