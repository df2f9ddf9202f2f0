use train_checker::router::{classify_route, feed_url, get_realtime_feeds_for_routes, FeedGroup, RouteError};

fn routes(ids: &[&str]) -> Vec<String> {
    ids.iter().map(|s| s.to_string()).collect()
}

#[test]
fn ace_group_is_requested_once() {
    let r = get_realtime_feeds_for_routes(&routes(&["A", "C", "AX"]));
    assert_eq!(r, Ok(vec![FeedGroup::Ace]));
}

#[test]
fn unknown_route_fails_whatever_else_is_present() {
    let r = get_realtime_feeds_for_routes(&routes(&["A", "1", "X9", "L"]));
    assert_eq!(r, Err(RouteError::UnknownRoute("X9".to_string())));
    let r = get_realtime_feeds_for_routes(&routes(&["X9"]));
    assert_eq!(r, Err(RouteError::UnknownRoute("X9".to_string())));
}

#[test]
fn unknown_route_is_named_without_express_marker() {
    let r = get_realtime_feeds_for_routes(&routes(&["G", "HXX"]));
    assert_eq!(r, Err(RouteError::UnknownRoute("HX".to_string())));
    let r = get_realtime_feeds_for_routes(&routes(&["A", "AXX"]));
    assert_eq!(r, Err(RouteError::UnknownRoute("AX".to_string())));
    let r = get_realtime_feeds_for_routes(&routes(&["X"]));
    assert_eq!(r, Err(RouteError::UnknownRoute("".to_string())));
}

#[test]
fn numbered_feed_only_with_numbered_routes() {
    let r = get_realtime_feeds_for_routes(&routes(&["N", "Q", "R", "W", "B"]));
    assert_eq!(r, Ok(vec![FeedGroup::Nqrw, FeedGroup::Bdfm]));
    let r = get_realtime_feeds_for_routes(&routes(&["6X", "J", "7", "Z", "SI"]));
    assert_eq!(r, Ok(vec![FeedGroup::Numbered, FeedGroup::Jz, FeedGroup::Sir]));
}

#[test]
fn empty_route_set_needs_no_feed() {
    assert_eq!(get_realtime_feeds_for_routes(&Vec::new()), Ok(vec![]));
}

#[test]
fn every_group_is_recognized() {
    assert_eq!(classify_route("E"), Some(FeedGroup::Ace));
    assert_eq!(classify_route("M"), Some(FeedGroup::Bdfm));
    assert_eq!(classify_route("FX"), Some(FeedGroup::Bdfm));
    assert_eq!(classify_route("G"), Some(FeedGroup::G));
    assert_eq!(classify_route("L"), Some(FeedGroup::L));
    assert_eq!(classify_route("1"), Some(FeedGroup::Numbered));
    assert_eq!(classify_route("8"), None);
    assert_eq!(classify_route("S"), None);
    assert_eq!(classify_route("SIX"), Some(FeedGroup::Sir));
    assert_eq!(classify_route("GS"), None);
    assert_eq!(classify_route("AXX"), None);
    assert_eq!(classify_route("SIXX"), None);
}

#[test]
fn feed_urls() {
    let base = "https://api-endpoint.mta.info/Dataservice/mtagtfsfeeds/nyct%2Fgtfs";
    assert_eq!(feed_url(FeedGroup::Numbered), base);
    assert_eq!(feed_url(FeedGroup::Ace), format!("{}-ace", base));
    assert_eq!(feed_url(FeedGroup::Sir), format!("{}-si", base));
    assert_eq!(feed_url(FeedGroup::Nqrw), format!("{}-nqrw", base));
}
