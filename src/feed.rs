//! Decoded realtime feeds, as plain values, and the arrival predictions they
//! hold for one stop.

use vstd::prelude::*;
use crate::text::same_text;

verus! {

/// One predicted stop visit of a trip.
#[derive(Clone, Debug)]
pub struct StopTimeUpdate {
    pub stop_id: Option<String>,
    /// Predicted arrival instant, in seconds since the Unix epoch.
    pub arrival_time: Option<i64>,
}

/// The predicted stop visits of one trip.
#[derive(Clone, Debug)]
pub struct TripUpdate {
    pub route_id: Option<String>,
    pub stop_time_updates: Vec<StopTimeUpdate>,
}

/// One entity of a feed; only those carrying a trip update matter here.
#[derive(Clone, Debug)]
pub struct FeedEntity {
    pub trip_update: Option<TripUpdate>,
}

/// One decoded realtime feed.
#[derive(Clone, Debug)]
pub struct FeedMessage {
    pub entities: Vec<FeedEntity>,
}

/// A train of `route_id` expected at the stop in `seconds` seconds.
#[derive(Clone, Debug)]
pub struct Prediction {
    pub route_id: String,
    pub seconds: i32,
}

impl View for Prediction {
    type V = (Seq<char>, int);

    open spec fn view(&self) -> (Seq<char>, int) {
        (self.route_id@, self.seconds as int)
    }
}

/// The views of a sequence of predictions.
pub open spec fn view_preds(v: Seq<Prediction>) -> Seq<(Seq<char>, int)> {
    v.map_values(|p: Prediction| p@)
}

/// Whether a time until arrival is kept: strictly in the future, and small
/// enough to be held in whole seconds as an `i32`.
pub open spec fn upcoming(secs: int) -> bool {
    0 < secs <= i32::MAX
}

/// What one stop-time update of a trip of `route` predicts at `stop`.
pub open spec fn update_preds(route: Seq<char>, u: StopTimeUpdate, stop: Seq<char>, now: i64) -> Seq<
    (Seq<char>, int),
> {
    match (u.stop_id, u.arrival_time) {
        (Some(s), Some(t)) => if s@ == stop && upcoming(t - now) {
            seq![(route, t - now)]
        } else {
            Seq::empty()
        },
        _ => Seq::empty(),
    }
}

/// What the stop-time updates of a trip of `route` predict at `stop`, in order.
pub open spec fn updates_preds(route: Seq<char>, ups: Seq<StopTimeUpdate>, stop: Seq<char>, now: i64) -> Seq<
    (Seq<char>, int),
>
    decreases ups.len(),
{
    if ups.len() == 0 {
        Seq::empty()
    } else {
        updates_preds(route, ups.drop_last(), stop, now) + update_preds(route, ups.last(), stop, now)
    }
}

/// What one entity predicts at `stop`: nothing without a trip update or
/// without a route.
pub open spec fn entity_preds(e: FeedEntity, stop: Seq<char>, now: i64) -> Seq<(Seq<char>, int)> {
    match e.trip_update {
        Some(tu) => match tu.route_id {
            Some(r) => updates_preds(r@, tu.stop_time_updates@, stop, now),
            None => Seq::empty(),
        },
        None => Seq::empty(),
    }
}

/// What a sequence of entities predicts at `stop`, in order.
pub open spec fn entities_preds(es: Seq<FeedEntity>, stop: Seq<char>, now: i64) -> Seq<(Seq<char>, int)>
    decreases es.len(),
{
    if es.len() == 0 {
        Seq::empty()
    } else {
        entities_preds(es.drop_last(), stop, now) + entity_preds(es.last(), stop, now)
    }
}

/// What a sequence of feeds predicts at `stop`, in order.
pub open spec fn feeds_preds(fs: Seq<FeedMessage>, stop: Seq<char>, now: i64) -> Seq<(Seq<char>, int)>
    decreases fs.len(),
{
    if fs.len() == 0 {
        Seq::empty()
    } else {
        feeds_preds(fs.drop_last(), stop, now) + entities_preds(fs.last().entities@, stop, now)
    }
}

/// Whether every prediction of `ps` is upcoming.
pub open spec fn all_upcoming(ps: Seq<(Seq<char>, int)>) -> bool {
    forall|i: int| 0 <= i < ps.len() ==> upcoming(#[trigger] ps[i].1)
}

proof fn lemma_updates_preds_upcoming(route: Seq<char>, ups: Seq<StopTimeUpdate>, stop: Seq<char>, now: i64)
    ensures
        all_upcoming(updates_preds(route, ups, stop, now)),
    decreases ups.len(),
{
    if ups.len() > 0 {
        lemma_updates_preds_upcoming(route, ups.drop_last(), stop, now);
        let a = updates_preds(route, ups.drop_last(), stop, now);
        let b = update_preds(route, ups.last(), stop, now);
        assert forall|i: int| 0 <= i < (a + b).len() implies upcoming(#[trigger] (a + b)[i].1) by {
            if i >= a.len() {
                assert((a + b)[i] == b[i - a.len()]);
            }
        }
    }
}

proof fn lemma_entities_preds_upcoming(es: Seq<FeedEntity>, stop: Seq<char>, now: i64)
    ensures
        all_upcoming(entities_preds(es, stop, now)),
    decreases es.len(),
{
    if es.len() > 0 {
        lemma_entities_preds_upcoming(es.drop_last(), stop, now);
        let a = entities_preds(es.drop_last(), stop, now);
        let b = entity_preds(es.last(), stop, now);
        if let Some(tu) = es.last().trip_update {
            if let Some(r) = tu.route_id {
                lemma_updates_preds_upcoming(r@, tu.stop_time_updates@, stop, now);
            }
        }
        assert forall|i: int| 0 <= i < (a + b).len() implies upcoming(#[trigger] (a + b)[i].1) by {
            if i >= a.len() {
                assert((a + b)[i] == b[i - a.len()]);
            }
        }
    }
}

/// Every prediction that feeds give for a stop is upcoming: strictly in the
/// future.
pub proof fn lemma_feeds_preds_upcoming(fs: Seq<FeedMessage>, stop: Seq<char>, now: i64)
    ensures
        all_upcoming(feeds_preds(fs, stop, now)),
    decreases fs.len(),
{
    if fs.len() > 0 {
        lemma_feeds_preds_upcoming(fs.drop_last(), stop, now);
        lemma_entities_preds_upcoming(fs.last().entities@, stop, now);
        let a = feeds_preds(fs.drop_last(), stop, now);
        let b = entities_preds(fs.last().entities@, stop, now);
        assert forall|i: int| 0 <= i < (a + b).len() implies upcoming(#[trigger] (a + b)[i].1) by {
            if i >= a.len() {
                assert((a + b)[i] == b[i - a.len()]);
            }
        }
    }
}

fn push_update_predictions(
    out: &mut Vec<Prediction>,
    route: &String,
    ups: &Vec<StopTimeUpdate>,
    stop_id: &str,
    now: i64,
)
    ensures
        view_preds(final(out)@) == view_preds(old(out)@) + updates_preds(route@, ups@, stop_id@, now),
{
    let ghost start = view_preds(out@);
    let mut i: usize = 0;
    while i < ups.len()
        invariant
            i <= ups@.len(),
            view_preds(out@) == start + updates_preds(route@, ups@.subrange(0, i as int), stop_id@, now),
        decreases ups@.len() - i,
    {
        let u = &ups[i];
        let ghost prefix = ups@.subrange(0, i as int);
        assert(ups@.subrange(0, i + 1).drop_last() =~= prefix);
        assert(ups@.subrange(0, i + 1).last() == ups@[i as int]);
        if let Some(s) = &u.stop_id {
            if let Some(t) = u.arrival_time {
                if same_text(s.as_str(), stop_id) {
                    let d: i128 = t as i128 - now as i128;
                    if 0 < d && d <= i32::MAX as i128 {
                        let ghost before = out@;
                        out.push(Prediction { route_id: route.clone(), seconds: d as i32 });
                        assert(view_preds(out@) =~= view_preds(before).push((route@, d as int)));
                    }
                }
            }
        }
        assert(view_preds(out@) =~= start + updates_preds(route@, ups@.subrange(0, i + 1), stop_id@, now));
        i = i + 1;
    }
    assert(ups@.subrange(0, i as int) =~= ups@);
}

fn push_entity_predictions(out: &mut Vec<Prediction>, es: &Vec<FeedEntity>, stop_id: &str, now: i64)
    ensures
        view_preds(final(out)@) == view_preds(old(out)@) + entities_preds(es@, stop_id@, now),
{
    let ghost start = view_preds(out@);
    let mut i: usize = 0;
    while i < es.len()
        invariant
            i <= es@.len(),
            view_preds(out@) == start + entities_preds(es@.subrange(0, i as int), stop_id@, now),
        decreases es@.len() - i,
    {
        let e = &es[i];
        assert(es@.subrange(0, i + 1).drop_last() =~= es@.subrange(0, i as int));
        assert(es@.subrange(0, i + 1).last() == es@[i as int]);
        if let Some(tu) = &e.trip_update {
            if let Some(r) = &tu.route_id {
                push_update_predictions(out, r, &tu.stop_time_updates, stop_id, now);
            }
        }
        assert(view_preds(out@) =~= start + entities_preds(es@.subrange(0, i + 1), stop_id@, now));
        i = i + 1;
    }
    assert(es@.subrange(0, i as int) =~= es@);
}

/// Every upcoming arrival at `stop_id` that the feeds predict, in feed order,
/// with its time until arrival measured from `now` (seconds since the epoch).
/// Stop-time updates of trips without a route, without an arrival instant,
/// or already due are left out.
pub fn collect_predictions(feeds: &Vec<FeedMessage>, stop_id: &str, now: i64) -> (r: Vec<Prediction>)
    ensures
        view_preds(r@) == feeds_preds(feeds@, stop_id@, now),
{
    let mut out: Vec<Prediction> = Vec::new();
    let mut i: usize = 0;
    assert(view_preds(out@) =~= Seq::empty());
    while i < feeds.len()
        invariant
            i <= feeds@.len(),
            view_preds(out@) == feeds_preds(feeds@.subrange(0, i as int), stop_id@, now),
        decreases feeds@.len() - i,
    {
        assert(feeds@.subrange(0, i + 1).drop_last() =~= feeds@.subrange(0, i as int));
        assert(feeds@.subrange(0, i + 1).last() == feeds@[i as int]);
        push_entity_predictions(&mut out, &feeds[i].entities, stop_id, now);
        i = i + 1;
    }
    assert(feeds@.subrange(0, i as int) =~= feeds@);
    out
}

} // verus!
