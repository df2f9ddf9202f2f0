//! Mapping route identifiers to the realtime feed endpoints that cover them.

use vstd::prelude::*;
use crate::text::texts;

verus! {

/// Base URL of the realtime feeds; every feed but the numbered lines' adds
/// a hyphen and its suffix.
pub const MTA_SUBWAY_FEED_URL: &'static str = "https://api-endpoint.mta.info/Dataservice/mtagtfsfeeds/nyct%2Fgtfs";

/// One realtime feed endpoint: a fixed group of routes served by one URL.
#[derive(Clone, Copy, Debug, PartialEq, Eq, Structural)]
pub enum FeedGroup {
    Ace,
    Bdfm,
    G,
    Jz,
    Nqrw,
    L,
    Sir,
    /// The numbered lines, served by the base URL without a suffix.
    Numbered,
}

/// Why routing a set of routes to feeds failed.
#[derive(Clone, Debug, PartialEq, Eq)]
pub enum RouteError {
    /// A route identifier outside every group, without its express marker
    /// (one trailing `X`).
    UnknownRoute(String),
}

/// The identifier with its express marker removed: one trailing `X`, if
/// there is one.
pub open spec fn strip_express(s: Seq<char>) -> Seq<char> {
    if s.len() > 0 && s.last() == 'X' {
        s.drop_last()
    } else {
        s
    }
}

/// The group that serves a (stripped) route identifier, if any.
pub open spec fn group_of(s: Seq<char>) -> Option<FeedGroup> {
    if s.len() == 1 {
        let c = s[0];
        if c == 'A' || c == 'C' || c == 'E' {
            Some(FeedGroup::Ace)
        } else if c == 'B' || c == 'D' || c == 'F' || c == 'M' {
            Some(FeedGroup::Bdfm)
        } else if c == 'G' {
            Some(FeedGroup::G)
        } else if c == 'J' || c == 'Z' {
            Some(FeedGroup::Jz)
        } else if c == 'N' || c == 'Q' || c == 'R' || c == 'W' {
            Some(FeedGroup::Nqrw)
        } else if c == 'L' {
            Some(FeedGroup::L)
        } else if '1' <= c && c <= '7' {
            Some(FeedGroup::Numbered)
        } else {
            None
        }
    } else if s.len() == 2 && s[0] == 'S' && s[1] == 'I' {
        Some(FeedGroup::Sir)
    } else {
        None
    }
}

/// The group of a route identifier as it appears in the schedule.
pub open spec fn route_group(route: Seq<char>) -> Option<FeedGroup> {
    group_of(strip_express(route))
}

/// Whether every route of `routes` belongs to some group.
pub open spec fn all_known(routes: Seq<Seq<char>>) -> bool {
    forall|i: int| 0 <= i < routes.len() ==> (#[trigger] route_group(routes[i])) is Some
}

/// The feed groups that cover `routes`, each once, in order of first need.
pub open spec fn feed_groups(routes: Seq<Seq<char>>) -> Seq<FeedGroup>
    decreases routes.len(),
{
    if routes.len() == 0 {
        Seq::empty()
    } else {
        let before = feed_groups(routes.drop_last());
        match route_group(routes.last()) {
            Some(g) => if before.contains(g) {
                before
            } else {
                before.push(g)
            },
            None => before,
        }
    }
}

/// The URL suffix of a group; empty for the numbered lines.
pub open spec fn suffix_of(g: FeedGroup) -> Seq<char> {
    match g {
        FeedGroup::Ace => seq!['a', 'c', 'e'],
        FeedGroup::Bdfm => seq!['b', 'd', 'f', 'm'],
        FeedGroup::G => seq!['g'],
        FeedGroup::Jz => seq!['j', 'z'],
        FeedGroup::Nqrw => seq!['n', 'q', 'r', 'w'],
        FeedGroup::L => seq!['l'],
        FeedGroup::Sir => seq!['s', 'i'],
        FeedGroup::Numbered => Seq::empty(),
    }
}

/// Length of `s` once its express marker (one trailing `X`) is removed.
fn stripped_len(s: &str) -> (n: usize)
    ensures
        n <= s@.len(),
        strip_express(s@) == s@.subrange(0, n as int),
{
    let n = s.unicode_len();
    if n > 0 && s.get_char(n - 1) == 'X' {
        assert(s@.drop_last() =~= s@.subrange(0, n - 1));
        n - 1
    } else {
        assert(s@.subrange(0, n as int) =~= s@);
        n
    }
}

/// The group that serves a route identifier, with its express marker (one
/// trailing `X`) ignored.
pub fn classify_route(route: &str) -> (r: Option<FeedGroup>)
    ensures
        r == route_group(route@),
{
    let n = stripped_len(route);
    proof {
        let t = route@.subrange(0, n as int);
        if n >= 1 {
            assert(t[0] == route@[0]);
        }
        if n >= 2 {
            assert(t[1] == route@[1]);
        }
    }
    if n == 1 {
        let c = route.get_char(0);
        if c == 'A' || c == 'C' || c == 'E' {
            Some(FeedGroup::Ace)
        } else if c == 'B' || c == 'D' || c == 'F' || c == 'M' {
            Some(FeedGroup::Bdfm)
        } else if c == 'G' {
            Some(FeedGroup::G)
        } else if c == 'J' || c == 'Z' {
            Some(FeedGroup::Jz)
        } else if c == 'N' || c == 'Q' || c == 'R' || c == 'W' {
            Some(FeedGroup::Nqrw)
        } else if c == 'L' {
            Some(FeedGroup::L)
        } else if '1' <= c && c <= '7' {
            Some(FeedGroup::Numbered)
        } else {
            None
        }
    } else if n == 2 && route.get_char(0) == 'S' && route.get_char(1) == 'I' {
        Some(FeedGroup::Sir)
    } else {
        None
    }
}

/// Routing lists no feed twice, and lists exactly the groups that some route
/// needs; so the numbered lines' feed is listed only when a route of the
/// numbered lines (express or not) is among the routes.
pub proof fn lemma_feed_groups_exact(routes: Seq<Seq<char>>)
    ensures
        feed_groups(routes).no_duplicates(),
        forall|g: FeedGroup| #[trigger] feed_groups(routes).contains(g) <==> exists|i: int|
            0 <= i < routes.len() && route_group(#[trigger] routes[i]) == Some(g),
    decreases routes.len(),
{
    if routes.len() > 0 {
        let init = routes.drop_last();
        lemma_feed_groups_exact(init);
        let before = feed_groups(init);
        assert forall|g: FeedGroup| #[trigger] feed_groups(routes).contains(g) <==> exists|i: int|
            0 <= i < routes.len() && route_group(#[trigger] routes[i]) == Some(g) by {
            if feed_groups(routes).contains(g) {
                if before.contains(g) {
                    let i = choose|i: int| 0 <= i < init.len() && route_group(#[trigger] init[i]) == Some(g);
                    assert(routes[i] == init[i]);
                } else {
                    assert(feed_groups(routes)[before.len() as int] == g);
                    assert(route_group(routes[routes.len() - 1]) == Some(g));
                }
            }
            if exists|i: int| 0 <= i < routes.len() && route_group(#[trigger] routes[i]) == Some(g) {
                let i = choose|i: int| 0 <= i < routes.len() && route_group(#[trigger] routes[i]) == Some(g);
                if i < init.len() {
                    assert(init[i] == routes[i]);
                    assert(before.contains(g));
                    assert(feed_groups(routes).contains(g)) by {
                        let k = choose|k: int| 0 <= k < before.len() && before[k] == g;
                        assert(feed_groups(routes)[k] == g);
                    }
                } else {
                    if !before.contains(g) {
                        assert(feed_groups(routes)[before.len() as int] == g);
                    }
                }
            }
        }
    }
}

fn contains_group(gs: &Vec<FeedGroup>, g: FeedGroup) -> (r: bool)
    ensures
        r == gs@.contains(g),
{
    let mut i: usize = 0;
    while i < gs.len()
        invariant
            i <= gs@.len(),
            forall|j: int| 0 <= j < i ==> gs@[j] != g,
        decreases gs@.len() - i,
    {
        if gs[i] == g {
            return true;
        }
        i = i + 1;
    }
    false
}

/// The feed groups that must be polled to cover `routes`: each group once,
/// in order of first need. A single route outside every group fails the
/// whole mapping, naming the first such route without its express marker
/// (one trailing `X`, if any: `AXX` is named `AX`).
pub fn get_realtime_feeds_for_routes(routes: &Vec<String>) -> (r: Result<Vec<FeedGroup>, RouteError>)
    ensures
        r is Ok <==> all_known(texts(routes@)),
        r matches Ok(gs) ==> gs@ == feed_groups(texts(routes@)),
        r matches Err(RouteError::UnknownRoute(id)) ==> exists|k: int|
            0 <= k < routes@.len() && all_known(texts(routes@).subrange(0, k))
                && route_group(#[trigger] routes@[k]@) is None && id@ == strip_express(routes@[k]@),
{
    let mut feeds: Vec<FeedGroup> = Vec::new();
    let mut i: usize = 0;
    while i < routes.len()
        invariant
            i <= routes@.len(),
            all_known(texts(routes@).subrange(0, i as int)),
            feeds@ == feed_groups(texts(routes@).subrange(0, i as int)),
        decreases routes@.len() - i,
    {
        let route = &routes[i];
        let ghost prefix = texts(routes@).subrange(0, i as int);
        let ghost next = texts(routes@).subrange(0, i + 1);
        assert(next.drop_last() =~= prefix);
        assert(next.last() == routes@[i as int]@);
        match classify_route(route.as_str()) {
            Some(g) => {
                if !contains_group(&feeds, g) {
                    feeds.push(g);
                }
            },
            None => {
                let n = stripped_len(route.as_str());
                let id = String::from_str(route.as_str().substring_char(0, n));
                assert(texts(routes@)[i as int] == routes@[i as int]@);
                return Err(RouteError::UnknownRoute(id));
            },
        }
        assert(all_known(next)) by {
            assert forall|j: int| 0 <= j < next.len() implies (#[trigger] route_group(next[j])) is Some by {
                if j < i {
                    assert(next[j] == prefix[j]);
                }
            }
        }
        i = i + 1;
    }
    assert(texts(routes@).subrange(0, i as int) =~= texts(routes@));
    Ok(feeds)
}

/// The URL of a feed group: the base URL, then for every group but the
/// numbered lines a hyphen and the group's suffix.
pub fn feed_url(g: FeedGroup) -> (r: String)
    ensures
        r@ == MTA_SUBWAY_FEED_URL@ + (if g == FeedGroup::Numbered {
            Seq::<char>::empty()
        } else {
            seq!['-'] + suffix_of(g)
        }),
{
    let base = String::from_str(MTA_SUBWAY_FEED_URL);
    let suffix: &str = match g {
        FeedGroup::Ace => "-ace",
        FeedGroup::Bdfm => "-bdfm",
        FeedGroup::G => "-g",
        FeedGroup::Jz => "-jz",
        FeedGroup::Nqrw => "-nqrw",
        FeedGroup::L => "-l",
        FeedGroup::Sir => "-si",
        FeedGroup::Numbered => "",
    };
    proof {
        reveal_strlit("-ace");
        reveal_strlit("-bdfm");
        reveal_strlit("-g");
        reveal_strlit("-jz");
        reveal_strlit("-nqrw");
        reveal_strlit("-l");
        reveal_strlit("-si");
        reveal_strlit("");
    }
    let r = base.concat(suffix);
    assert(suffix@ =~= (if g == FeedGroup::Numbered {
        Seq::<char>::empty()
    } else {
        seq!['-'] + suffix_of(g)
    }));
    r
}

} // verus!
