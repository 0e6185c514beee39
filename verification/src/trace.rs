//! Where files really stand, once the links among their directories and the
//! links that they are themselves have been followed.
//!
//! The trace decides; whoever holds the file system answers its questions.
use crate::path::{
    components, dot, is_plain_name, join, joined, law_joining, law_parents_hold_their_names,
    lemma_join_names, lemma_rendered_names, parent, parent_of,
};
use crate::text::spliced;
use vstd::prelude::*;

verus! {

/// How many links a trace follows at most: as many as the system does.
pub const MAX_LINKS: u32 = 40;

/// Where something stands: its path, none of whose directories is a link, and
/// its target, where it is itself a link.
#[derive(Debug)]
pub struct Place {
    pub path: String,
    pub target: Option<String>,
}

/// A place as a mathematical value.
pub struct PlaceView {
    pub path: Seq<char>,
    pub target: Option<Seq<char>>,
}

impl View for Place {
    type V = PlaceView;

    open spec fn view(&self) -> PlaceView {
        PlaceView {
            path: self.path@,
            target: match self.target {
                Some(target) => Some(target@),
                None => None,
            },
        }
    }
}

/// A place that may be there.
pub open spec fn place_view(place: Option<Place>) -> Option<PlaceView> {
    match place {
        Some(place) => Some(place@),
        None => None,
    }
}

/// The path that a link at this place leads to, when it has this target. The
/// links among the directories of that path are still to be followed.
pub open spec fn target_path(place: Seq<char>, target: Seq<char>) -> Seq<char> {
    let dir = match parent_of(place) {
        Some(dir) => dir,
        None => Seq::empty(),
    };
    joined(dir, target)
}

/// A trace: the path to look at next, and how many links may be followed.
#[derive(Debug)]
pub struct Trace {
    current: String,
    hops: u32,
}

/// A trace as a mathematical value.
pub struct TraceView {
    pub current: Seq<char>,
    pub hops: nat,
}

impl View for Trace {
    type V = TraceView;

    closed spec fn view(&self) -> TraceView {
        TraceView { current: self.current@, hops: self.hops as nat }
    }
}

/// A trace at its beginning.
pub open spec fn trace_start(path: Seq<char>) -> TraceView {
    TraceView { current: path, hops: MAX_LINKS as nat }
}

/// How a trace goes on after it learnt what stands at its path: it ends where
/// that is no link.
pub open spec fn trace_next(trace: TraceView, place: Option<PlaceView>) -> Option<TraceView> {
    match place {
        Some(place) => match place.target {
            Some(target) => if trace.hops > 1 {
                Some(
                    TraceView {
                        current: target_path(place.path, target),
                        hops: (trace.hops - 1) as nat,
                    },
                )
            } else {
                None
            },
            None => None,
        },
        None => None,
    }
}

impl Trace {
    /// Begins a trace at `path`.
    pub fn new(path: &str) -> (trace: Trace)
        ensures
            trace@ == trace_start(path@),
    {
        Trace { current: path.to_owned(), hops: MAX_LINKS }
    }

    /// The path to look at next.
    pub fn current(&self) -> (path: String)
        ensures
            path@ == self@.current,
    {
        self.current.clone()
    }

    /// Goes on from what stands at the path.
    pub fn advance(self, place: &Option<Place>) -> (next: Option<Trace>)
        ensures
            (match next {
                Some(trace) => Some(trace@),
                None => None,
            }) == trace_next(self@, place_view(*place)),
    {
        if let Some(place) = place {
            if let Some(target) = &place.target {
                if self.hops > 1 {
                    let dir = match parent(place.path.as_str()) {
                        Some(dir) => dir,
                        None => String::new(),
                    };
                    let current = join(dir.as_str(), target.as_str());
                    return Some(Trace { current, hops: self.hops - 1 });
                }
            }
        }
        None
    }
}

/// The places that a trace comes to, from `path` on.
pub open spec fn trail(
    places: spec_fn(Seq<char>) -> Option<PlaceView>,
    path: Seq<char>,
    hops: nat,
) -> Seq<Seq<char>>
    decreases hops,
{
    if hops == 0 {
        Seq::empty()
    } else {
        match places(path) {
            Some(place) => match place.target {
                Some(target) => seq![place.path] + trail(
                    places,
                    target_path(place.path, target),
                    (hops - 1) as nat,
                ),
                None => seq![place.path],
            },
            None => Seq::empty(),
        }
    }
}

/// Where the file at `path` really stands: the end of all its links.
pub open spec fn real_path(
    places: spec_fn(Seq<char>) -> Option<PlaceView>,
    path: Seq<char>,
    hops: nat,
) -> Option<Seq<char>>
    decreases hops,
{
    if hops == 0 {
        None
    } else {
        match places(path) {
            Some(place) => match place.target {
                Some(target) => real_path(
                    places,
                    target_path(place.path, target),
                    (hops - 1) as nat,
                ),
                None => Some(place.path),
            },
            None => None,
        }
    }
}

/// A trace ends where the file really stands.
pub proof fn law_trail_ends_at_real_path(
    places: spec_fn(Seq<char>) -> Option<PlaceView>,
    path: Seq<char>,
    hops: nat,
)
    requires
        real_path(places, path, hops) is Some,
    ensures
        trail(places, path, hops).len() > 0,
        trail(places, path, hops).last() == real_path(places, path, hops)->Some_0,
    decreases hops,
{
    if let Some(place) = places(path) {
        if let Some(target) = place.target {
            law_trail_ends_at_real_path(
                places,
                target_path(place.path, target),
                (hops - 1) as nat,
            );
        }
    }
}

/// The target of a link is seen from the directory that the link really
/// stands in, unless it is absolute.
pub proof fn law_targets_are_seen_from_their_directory(
    dir: Seq<char>,
    name: Seq<char>,
    target: Seq<char>,
    parts: Seq<Seq<char>>,
)
    requires
        dir.len() > 0,
        is_plain_name(name),
        parts.len() > 0,
        forall|i: int| 0 <= i < parts.len() ==> is_plain_name(#[trigger] parts[i]) || parts[i]
            == seq!['.', '.'],
    ensures
        components(target_path(dir + seq!['/'] + name, spliced(parts, '/'))) == components(dir)
            + parts,
        target.len() > 0 && target[0] == '/' ==> target_path(dir + seq!['/'] + name, target)
            == target,
{
    law_parents_hold_their_names(dir, name);
    let parent = parent_of(dir + seq!['/'] + name)->Some_0;
    law_joining(parent, target);
    assert forall|i: int| 0 <= i < parts.len() implies {
        &&& (#[trigger] parts[i]).len() > 0
        &&& !parts[i].contains('/')
        &&& parts[i] != dot()
    } by {
        assert(is_plain_name(parts[i]) || parts[i] == seq!['.', '.']);
        assert(dot().len() == 1);
    }
    lemma_join_names(parent, parts);
    lemma_rendered_names(parts);
}

/// A trace comes to one place after the other, up to forty of them: to where
/// its path stands, and from each link to where its target stands. It ends at
/// the first place that is no link.
pub proof fn law_traces_follow_every_link(
    places: spec_fn(Seq<char>) -> Option<PlaceView>,
    way: Seq<Seq<char>>,
    stops: Seq<PlaceView>,
)
    requires
        0 < way.len() <= 40,
        stops.len() == way.len(),
        forall|i: int| 0 <= i < way.len() ==> places(#[trigger] way[i]) == Some(stops[i]),
        forall|i: int|
            0 <= i < way.len() - 1 ==> ((#[trigger] stops[i]).target matches Some(target) && way[i
                + 1] == target_path(stops[i].path, target)),
    ensures
        way.len() <= trail(places, way[0], MAX_LINKS as nat).len() <= 40,
        forall|i: int|
            0 <= i < way.len() ==> #[trigger] trail(places, way[0], MAX_LINKS as nat)[i]
                == stops[i].path,
        stops[stops.len() - 1].target is None ==> {
            &&& trail(places, way[0], MAX_LINKS as nat).len() == way.len()
            &&& real_path(places, way[0], MAX_LINKS as nat) == Some(stops[stops.len() - 1].path)
        },
{
    lemma_traces_follow(places, way, stops, 40);
    lemma_trail_is_short(places, way[0], 40);
}

proof fn lemma_trail_is_short(
    places: spec_fn(Seq<char>) -> Option<PlaceView>,
    path: Seq<char>,
    hops: nat,
)
    ensures
        trail(places, path, hops).len() <= hops,
    decreases hops,
{
    if hops > 0 {
        if let Some(place) = places(path) {
            if let Some(target) = place.target {
                lemma_trail_is_short(places, target_path(place.path, target), (hops - 1) as nat);
            }
        }
    }
}

proof fn lemma_traces_follow(
    places: spec_fn(Seq<char>) -> Option<PlaceView>,
    way: Seq<Seq<char>>,
    stops: Seq<PlaceView>,
    hops: nat,
)
    requires
        0 < way.len() <= hops,
        stops.len() == way.len(),
        forall|i: int| 0 <= i < way.len() ==> places(#[trigger] way[i]) == Some(stops[i]),
        forall|i: int|
            0 <= i < way.len() - 1 ==> ((#[trigger] stops[i]).target matches Some(target) && way[i
                + 1] == target_path(stops[i].path, target)),
    ensures
        way.len() <= trail(places, way[0], hops).len(),
        forall|i: int|
            0 <= i < way.len() ==> #[trigger] trail(places, way[0], hops)[i] == stops[i].path,
        stops[stops.len() - 1].target is None ==> {
            &&& trail(places, way[0], hops).len() == way.len()
            &&& real_path(places, way[0], hops) == Some(stops[stops.len() - 1].path)
        },
    decreases way.len(),
{
    let whole = trail(places, way[0], hops);
    assert(places(way[0]) == Some(stops[0]));
    assert(whole[0] == stops[0].path);
    if way.len() > 1 {
        let (rest, later) = (way.drop_first(), stops.drop_first());
        assert(stops[0].target is Some);
        assert(way[1] == target_path(stops[0].path, stops[0].target->Some_0));
        assert forall|i: int| 0 <= i < rest.len() implies places(#[trigger] rest[i]) == Some(
            later[i],
        ) by {
            assert(places(way[i + 1]) == Some(stops[i + 1]));
        }
        assert forall|i: int| 0 <= i < rest.len() - 1 implies ((
        #[trigger] later[i]).target matches Some(target) && rest[i + 1] == target_path(
            later[i].path,
            target,
        )) by {
            assert(stops[i + 1] == later[i]);
            assert(way[i + 2] == rest[i + 1]);
        }
        lemma_traces_follow(places, rest, later, (hops - 1) as nat);
        let tail = trail(places, rest[0], (hops - 1) as nat);
        assert(whole == seq![stops[0].path] + tail);
        assert forall|i: int| 0 <= i < way.len() implies #[trigger] whole[i] == stops[i].path by {
            if i > 0 {
                assert(whole[i] == tail[i - 1]);
                assert(later[i - 1] == stops[i]);
            }
        }
    }
}

} // verus!
