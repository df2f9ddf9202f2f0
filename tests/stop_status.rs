use train_checker::arrivals::{nearest_times, RouteArrivals};
use train_checker::checker::{
    faster_interval, slower_interval, CheckerError, FetchError, StopQuery, TrainChecker, TrainCheckerConfig, TrainCheckerStatus,
    DEFAULT_MAX_ARRIVALS,
};
use train_checker::feed::{collect_predictions, FeedEntity, FeedMessage, StopTimeUpdate, TripUpdate};
use train_checker::schedule::{RouteRecord, ScheduleIndex, StopRecord, TripRecord};

const NOW: i64 = 1_700_000_000;

fn stop(id: &str, name: Option<&str>) -> StopRecord {
    StopRecord { id: id.to_string(), name: name.map(|n| n.to_string()) }
}

fn route(id: &str, short_name: Option<&str>) -> RouteRecord {
    RouteRecord { id: id.to_string(), short_name: short_name.map(|n| n.to_string()) }
}

fn trip(route_id: &str, stops: &[&str]) -> TripRecord {
    TripRecord {
        route_id: route_id.to_string(),
        stop_ids: stops.iter().map(|s| s.to_string()).collect(),
    }
}

fn update(stop_id: &str, arrival: Option<i64>) -> StopTimeUpdate {
    StopTimeUpdate { stop_id: Some(stop_id.to_string()), arrival_time: arrival }
}

fn entity(route_id: Option<&str>, updates: Vec<StopTimeUpdate>) -> FeedEntity {
    FeedEntity {
        trip_update: Some(TripUpdate {
            route_id: route_id.map(|r| r.to_string()),
            stop_time_updates: updates,
        }),
    }
}

fn checker() -> TrainChecker {
    let schedule = ScheduleIndex::new(
        vec![
            stop("101N", Some("Van Cortlandt Park-242 St")),
            stop("A27S", Some("42 St-Port Authority Bus Terminal")),
            stop("999N", None),
            stop("L01N", Some("8 Av")),
        ],
        vec![route("1", Some("1")), route("A", Some("A")), route("C", None)],
        vec![
            trip("1", &["101N", "103N"]),
            trip("A", &["A27S"]),
            trip("C", &["A27S"]),
            trip("A", &["A27S", "A28S"]),
            trip("FX", &["L01N"]),
            trip("Q9", &["L01N"]),
        ],
    );
    TrainChecker::new(schedule)
}

fn query(c: &TrainChecker, stop_id: &str) -> StopQuery {
    match c.plan_stop_query(stop_id) {
        Ok(q) => q,
        Err(_) => panic!("query for {} failed", stop_id),
    }
}

fn times(ra: &RouteArrivals) -> Vec<i32> {
    ra.arrivals.iter().map(|a| a.arrival_time).collect()
}

#[test]
fn two_predictions_for_route_one_are_ranked() {
    let mut c = checker();
    let q = query(&c, "101N");
    assert_eq!(q.routes, vec!["1".to_string()]);
    let feed = FeedMessage {
        entities: vec![
            entity(Some("1"), vec![update("101N", Some(NOW + 900))]),
            entity(Some("1"), vec![update("101N", Some(NOW + 120))]),
        ],
    };
    let status = c.complete_stop_status(q, vec![Ok(feed)], NOW, DEFAULT_MAX_ARRIVALS);
    assert_eq!(status.stop_id, "101N");
    assert_eq!(status.stop_name.as_deref(), Some("Van Cortlandt Park-242 St"));
    assert_eq!(status.train_arrivals.len(), 1);
    let ra = &status.train_arrivals[0];
    assert_eq!(ra.route_id, "1");
    assert_eq!(times(ra), vec![120, 900]);
    assert_eq!(ra.arrivals[0].route_name.as_deref(), Some("1"));
    assert_eq!(ra.arrivals[0].human_time, "in 2 minutes");
    assert_eq!(ra.arrivals[1].human_time, "in 15 minutes");
    assert_eq!(c.get_failed_requests_count(), 0);
}

#[test]
fn stop_without_predictions_keeps_its_routes() {
    let mut c = checker();
    let q = query(&c, "A27S");
    let feed = FeedMessage {
        entities: vec![entity(Some("A"), vec![update("A28S", Some(NOW + 60))])],
    };
    let status = c.complete_stop_status(q, vec![Ok(feed)], NOW, DEFAULT_MAX_ARRIVALS);
    assert!(status.train_arrivals.is_empty());
    assert_eq!(status.routes, vec!["A".to_string(), "C".to_string()]);
}

#[test]
fn past_and_present_predictions_are_dropped() {
    let mut c = checker();
    let q = query(&c, "101N");
    let feed = FeedMessage {
        entities: vec![entity(
            Some("1"),
            vec![
                update("101N", Some(NOW - 30)),
                update("101N", Some(NOW)),
                update("101N", None),
                update("101N", Some(NOW + 1)),
            ],
        )],
    };
    let status = c.complete_stop_status(q, vec![Ok(feed)], NOW, DEFAULT_MAX_ARRIVALS);
    assert_eq!(status.train_arrivals.len(), 1);
    assert_eq!(times(&status.train_arrivals[0]), vec![1]);
    for ra in &status.train_arrivals {
        for a in &ra.arrivals {
            assert!(a.arrival_time > 0);
        }
    }
}

#[test]
fn predictions_without_route_are_dropped() {
    let preds = collect_predictions(
        &vec![FeedMessage {
            entities: vec![
                entity(None, vec![update("101N", Some(NOW + 50))]),
                FeedEntity { trip_update: None },
                entity(Some("2"), vec![update("101N", Some(NOW + 70))]),
            ],
        }],
        "101N",
        NOW,
    );
    assert_eq!(preds.len(), 1);
    assert_eq!(preds[0].route_id, "2");
    assert_eq!(preds[0].seconds, 70);
}

#[test]
fn arrivals_are_capped_and_sorted() {
    let mut c = checker();
    let q = query(&c, "A27S");
    let feed1 = FeedMessage {
        entities: vec![
            entity(Some("A"), vec![update("A27S", Some(NOW + 600)), update("A27S", Some(NOW + 60))]),
            entity(Some("C"), vec![update("A27S", Some(NOW + 400))]),
        ],
    };
    let feed2 = FeedMessage {
        entities: vec![entity(Some("A"), vec![update("A27S", Some(NOW + 300)), update("A27S", Some(NOW + 30))])],
    };
    let status = c.complete_stop_status(q, vec![Ok(feed1), Ok(feed2)], NOW, 2);
    assert_eq!(status.train_arrivals.len(), 2);
    assert_eq!(status.train_arrivals[0].route_id, "A");
    assert_eq!(times(&status.train_arrivals[0]), vec![30, 60]);
    assert_eq!(status.train_arrivals[1].route_id, "C");
    assert_eq!(times(&status.train_arrivals[1]), vec![400]);
    assert_eq!(status.train_arrivals[1].arrivals[0].route_name, None);
}

#[test]
fn nearest_times_keeps_duplicates_in_order() {
    assert_eq!(nearest_times(&vec![5, 3, 9, 3, 1], 3), vec![1, 3, 3]);
    assert_eq!(nearest_times(&vec![5, 3], 4), vec![3, 5]);
    assert_eq!(nearest_times(&vec![], 2), Vec::<i32>::new());
    assert_eq!(nearest_times(&vec![7, 2], 0), Vec::<i32>::new());
}

#[test]
fn all_failed_fetches_give_empty_feeds() {
    let mut c = checker();
    let feeds = c.record_fetch_results(vec![
        Err(FetchError::Transport),
        Err(FetchError::HttpStatus(503)),
        Err(FetchError::Decode),
    ]);
    assert!(feeds.is_empty());
    assert_eq!(c.get_failed_requests_count(), 3);
}

#[test]
fn only_failed_fetches_are_counted() {
    let mut c = checker();
    let ok = FeedMessage { entities: vec![FeedEntity { trip_update: None }] };
    let feeds = c.record_fetch_results(vec![Ok(ok.clone()), Err(FetchError::TaskFailed), Ok(ok)]);
    assert_eq!(feeds.len(), 2);
    assert_eq!(c.get_failed_requests_count(), 1);
}

#[test]
fn eleven_failures_make_health_error_until_reset() {
    let mut c = checker();
    assert_eq!(c.get_status(), TrainCheckerStatus::Healthy);
    for _ in 0..10 {
        c.record_failure();
    }
    assert_eq!(c.get_status(), TrainCheckerStatus::Healthy);
    c.record_failure();
    assert_eq!(c.get_failed_requests_count(), 11);
    assert_eq!(c.get_status(), TrainCheckerStatus::Error);
    c.reset_failed_requests();
    assert_eq!(c.get_failed_requests_count(), 0);
    assert_eq!(c.get_status(), TrainCheckerStatus::Healthy);
}

#[test]
fn failed_fetches_during_a_query_are_counted() {
    let mut c = checker();
    let q = query(&c, "101N");
    let status = c.complete_stop_status(q, vec![Err(FetchError::Transport)], NOW, 2);
    assert!(status.train_arrivals.is_empty());
    assert_eq!(status.routes, vec!["1".to_string()]);
    assert_eq!(c.get_failed_requests_count(), 1);
}

#[test]
fn invalid_stop_is_rejected() {
    let c = checker();
    match c.plan_stop_query("nope") {
        Err(CheckerError::InvalidStop(id)) => assert_eq!(id, "nope"),
        _ => panic!("expected InvalidStop"),
    }
}

#[test]
fn unknown_route_of_a_stop_fails_the_query() {
    let c = checker();
    match c.plan_stop_query("L01N") {
        Err(CheckerError::UnknownRoute(id)) => assert_eq!(id, "Q9"),
        _ => panic!("expected UnknownRoute"),
    }
}

#[test]
fn stop_without_routes_requests_no_feeds() {
    let c = checker();
    assert!(matches!(c.plan_stop_query("999N"), Err(CheckerError::NoFeedsRequested)));
}

#[test]
fn stop_lookups() {
    let c = checker();
    assert!(c.is_valid_stop("A27S"));
    assert!(!c.is_valid_stop("A27"));
    assert_eq!(c.get_stop_name("L01N").as_deref(), Some("8 Av"));
    assert_eq!(c.get_stop_name("999N"), None);
    assert_eq!(c.get_stop_id("8 Av").as_deref(), Some("L01N"));
    assert_eq!(c.get_stop_id("Nowhere"), None);
    assert_eq!(c.get_routes_for_stop("L01N"), vec!["FX".to_string(), "Q9".to_string()]);
    assert!(c.get_routes_for_stop("none").is_empty());
    assert_eq!(c.format_stop_display("101N", "Van Cortlandt Park-242 St"), "Van Cortlandt Park-242 St (101N)");
}

#[test]
fn all_stops_are_sorted_by_id() {
    let c = checker();
    let ids: Vec<String> = c.get_all_stops().into_iter().map(|(id, _)| id).collect();
    assert_eq!(ids, vec!["101N", "999N", "A27S", "L01N"]);
    let all = c.get_all_stops();
    assert_eq!(all[1], ("999N".to_string(), None));
}

#[test]
fn config_defaults() {
    let cfg = TrainCheckerConfig::default();
    assert_eq!(cfg.update_interval_secs, 10);
    assert_eq!(cfg.max_arrivals_per_route, 2);
}

fn sample_status() -> train_checker::StopStatus {
    let mut c = checker();
    let q = query(&c, "A27S");
    let feed = FeedMessage {
        entities: vec![
            entity(Some("A"), vec![update("A27S", Some(NOW + 500)), update("A27S", Some(NOW + 90))]),
            entity(Some("C"), vec![update("A27S", Some(NOW + 200)), update("A27S", Some(NOW + 90))]),
        ],
    };
    c.complete_stop_status(q, vec![Ok(feed)], NOW, 2)
}

#[test]
fn route_arrivals_of_one_route() {
    let status = sample_status();
    let a: Vec<i32> = status.route_arrivals("A").iter().map(|x| x.arrival_time).collect();
    assert_eq!(a, vec![90, 500]);
    assert!(status.route_arrivals("E").is_empty());
}

#[test]
fn all_arrivals_nearest_first() {
    let status = sample_status();
    let all: Vec<(String, i32)> =
        status.all_arrivals().into_iter().map(|x| (x.route_id, x.arrival_time)).collect();
    assert_eq!(
        all,
        vec![
            ("A".to_string(), 90),
            ("C".to_string(), 90),
            ("C".to_string(), 200),
            ("A".to_string(), 500)
        ]
    );
}

#[test]
fn polling_interval_steps_are_bounded() {
    assert_eq!(faster_interval(10), 5);
    assert_eq!(faster_interval(7), 5);
    assert_eq!(faster_interval(5), 5);
    assert_eq!(slower_interval(10), 15);
    assert_eq!(slower_interval(118), 120);
    assert_eq!(slower_interval(120), 120);
}
