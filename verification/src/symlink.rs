//! Following symbolic links inside a directory, hop by hop.
//!
//! The walk decides; whoever holds the file system answers its requests.
use crate::path::{
    below, clean, cleaned, cleaned_parts, components, dot, dot_dot, is_below, is_plain_name, join,
    joined, law_cleaned_paths_hold_what_remains, law_cleaned_stays_below,
    law_components_stand_between_slashes, law_joining, law_parents_hold_their_names,
    lemma_join_names, lemma_rendered_names, parent, parent_of,
};
use crate::text::{spliced, texts};
use vstd::prelude::*;

verus! {

/// How many links of one chain are followed at most.
pub const MAX_HOPS: u32 = 10;

/// Where a link at `path` with this target leads. A relative target is seen
/// from the directory that holds the link.
pub open spec fn link_destination(path: Seq<char>, target: Seq<char>) -> Seq<char> {
    let dir = match parent_of(path) {
        Some(dir) => dir,
        None => Seq::empty(),
    };
    cleaned(joined(dir, target))
}

/// Where a link at `path` with this target leads.
pub fn follow_link(path: &str, target: &str) -> (res: String)
    ensures
        res@ == link_destination(path@, target@),
{
    let dir = match parent(path) {
        Some(dir) => dir,
        None => String::new(),
    };
    let whole = join(dir.as_str(), target);
    clean(whole.as_str())
}

/// What a walk has to know next.
#[derive(Debug)]
pub enum LinkRequest {
    /// Whether a link is at this path, and its target.
    Inspect(String),
    /// Whether something exists at this path, at the end of all its links.
    CheckExists(String),
    /// Nothing: the walk is over.
    Finished,
}

/// The stage of a walk.
#[derive(Debug)]
pub enum LinkStage {
    Inspecting,
    Checking,
    Done,
}

/// A walk along a chain of links below a directory.
#[derive(Debug)]
pub struct SymlinkWalk {
    kept: Vec<String>,
    current: String,
    base: String,
    hops: u32,
    stage: LinkStage,
}

/// A walk as a mathematical value: the paths to keep so far, the path that it
/// is at, the directory that it stays in, and how many links it may follow.
pub struct WalkView {
    pub kept: Seq<Seq<char>>,
    pub current: Seq<char>,
    pub base: Seq<char>,
    pub hops: nat,
    pub stage: LinkStage,
}

impl View for SymlinkWalk {
    type V = WalkView;

    closed spec fn view(&self) -> WalkView {
        WalkView {
            kept: texts(self.kept@),
            current: self.current@,
            base: self.base@,
            hops: self.hops as nat,
            stage: self.stage,
        }
    }
}

/// A walk at its beginning.
pub open spec fn walk_start(path: Seq<char>, base: Seq<char>) -> WalkView {
    WalkView {
        kept: seq![path],
        current: path,
        base,
        hops: MAX_HOPS as nat,
        stage: LinkStage::Inspecting,
    }
}

/// A walk after it learnt whether a link is where it stands: it ends where
/// there is none, and where the link leads out of the directory.
pub open spec fn after_inspection(walk: WalkView, target: Option<Seq<char>>) -> WalkView {
    match target {
        Some(target) => {
            let next = link_destination(walk.current, target);
            WalkView {
                current: next,
                stage: if is_below(next, walk.base) {
                    LinkStage::Checking
                } else {
                    LinkStage::Done
                },
                ..walk
            }
        },
        None => WalkView { stage: LinkStage::Done, ..walk },
    }
}

/// A walk after it learnt whether something is where the link leads: it ends
/// where nothing is, and where it has followed as many links as it may.
pub open spec fn after_check(walk: WalkView, exists: bool) -> WalkView {
    if exists {
        WalkView {
            kept: walk.kept.push(walk.current),
            hops: (walk.hops - 1) as nat,
            stage: if walk.hops > 1 {
                LinkStage::Inspecting
            } else {
                LinkStage::Done
            },
            ..walk
        }
    } else {
        WalkView { stage: LinkStage::Done, ..walk }
    }
}

impl SymlinkWalk {
    /// A walk that is not over may still follow a link.
    pub open spec fn wf(&self) -> bool {
        !(self@.stage is Done) ==> self@.hops > 0
    }

    /// Begins a walk at `path` that stays in the directory `base`.
    pub fn new(path: &str, base: &str) -> (walk: SymlinkWalk)
        ensures
            walk.wf(),
            walk@ == walk_start(path@, base@),
    {
        let first = path.to_owned();
        let mut kept: Vec<String> = Vec::new();
        kept.push(first);
        let walk = SymlinkWalk {
            kept,
            current: path.to_owned(),
            base: base.to_owned(),
            hops: MAX_HOPS,
            stage: LinkStage::Inspecting,
        };
        proof {
            assert(walk@.kept =~= seq![path@]);
        }
        walk
    }

    /// What the walk has to know next.
    pub fn request(&self) -> (req: LinkRequest)
        ensures
            match req {
                LinkRequest::Inspect(path) => self@.stage is Inspecting && path@ == self@.current,
                LinkRequest::CheckExists(path) => self@.stage is Checking && path@ == self@.current,
                LinkRequest::Finished => self@.stage is Done,
            },
    {
        match self.stage {
            LinkStage::Inspecting => LinkRequest::Inspect(self.current.clone()),
            LinkStage::Checking => LinkRequest::CheckExists(self.current.clone()),
            LinkStage::Done => LinkRequest::Finished,
        }
    }

    /// Takes the target of the link where the walk stands, or that there is
    /// no link.
    pub fn inspected(&mut self, target: Option<String>)
        requires
            old(self).wf(),
            old(self)@.stage is Inspecting,
        ensures
            final(self).wf(),
            final(self)@ == after_inspection(
                old(self)@,
                match target {
                    Some(text) => Some(text@),
                    None => None,
                },
            ),
    {
        match target {
            Some(target) => {
                self.current = follow_link(self.current.as_str(), target.as_str());
                self.stage = if below(self.current.as_str(), self.base.as_str()) {
                    LinkStage::Checking
                } else {
                    LinkStage::Done
                };
            },
            None => {
                self.stage = LinkStage::Done;
            },
        }
    }

    /// Takes whether something is where the link leads.
    pub fn checked(&mut self, exists: bool)
        requires
            old(self).wf(),
            old(self)@.stage is Checking,
        ensures
            final(self).wf(),
            final(self)@ == after_check(old(self)@, exists),
    {
        if exists {
            let path = self.current.clone();
            proof {
                assert(texts(self.kept@.push(path)) =~= texts(self.kept@).push(path@));
            }
            self.kept.push(path);
            self.hops -= 1;
            self.stage = if self.hops > 0 {
                LinkStage::Inspecting
            } else {
                LinkStage::Done
            };
        } else {
            self.stage = LinkStage::Done;
        }
    }

    /// The paths to keep: the one that the walk began at, and those that the
    /// links led to.
    pub fn kept(&self) -> (list: &Vec<String>)
        ensures
            texts(list@) == self@.kept,
    {
        &self.kept
    }
}

/// A file system: the target of the link at a path, where there is one, and
/// whether something exists at the end of all links at a path.
pub struct LinkWorld {
    pub target: spec_fn(Seq<char>) -> Option<Seq<char>>,
    pub exists: spec_fn(Seq<char>) -> bool,
}

/// The paths that the links lead to from `path`, as long as they stay in the
/// directory, lead to something, and are no more than `hops`.
pub open spec fn link_chain(
    world: LinkWorld,
    path: Seq<char>,
    base: Seq<char>,
    hops: nat,
) -> Seq<Seq<char>>
    decreases hops,
{
    if hops == 0 {
        Seq::empty()
    } else {
        match (world.target)(path) {
            Some(target) => {
                let next = link_destination(path, target);
                if is_below(next, base) && (world.exists)(next) {
                    seq![next] + link_chain(world, next, base, (hops - 1) as nat)
                } else {
                    Seq::empty()
                }
            },
            None => Seq::empty(),
        }
    }
}

/// The paths to keep for a file: its own, and those that its links lead to.
pub open spec fn resolve_symlinks(
    world: LinkWorld,
    path: Seq<char>,
    base: Seq<char>,
) -> Seq<Seq<char>> {
    seq![path] + link_chain(world, path, base, MAX_HOPS as nat)
}

/// What a walk will have kept when it is over.
pub open spec fn walk_outcome(world: LinkWorld, walk: WalkView) -> Seq<Seq<char>> {
    match walk.stage {
        LinkStage::Inspecting => walk.kept + link_chain(world, walk.current, walk.base, walk.hops),
        LinkStage::Checking => if (world.exists)(walk.current) {
            walk.kept + (seq![walk.current] + link_chain(
                world,
                walk.current,
                walk.base,
                (walk.hops - 1) as nat,
            ))
        } else {
            walk.kept
        },
        LinkStage::Done => walk.kept,
    }
}

/// A walk keeps what the links of the file system lead to: it sets out to do
/// so, true answers do not change the outcome, and a walk that is over has
/// reached it.
pub proof fn law_walk_resolves_symlinks(world: LinkWorld, path: Seq<char>, base: Seq<char>, walk: WalkView)
    requires
        !(walk.stage is Done) ==> walk.hops > 0,
    ensures
        walk_outcome(world, walk_start(path, base)) == resolve_symlinks(world, path, base),
        walk.stage is Inspecting ==> walk_outcome(
            world,
            after_inspection(walk, (world.target)(walk.current)),
        ) == walk_outcome(world, walk),
        walk.stage is Checking ==> walk_outcome(
            world,
            after_check(walk, (world.exists)(walk.current)),
        ) == walk_outcome(world, walk),
        walk.stage is Done ==> walk_outcome(world, walk) == walk.kept,
{
    if walk.stage is Inspecting {
        let after = after_inspection(walk, (world.target)(walk.current));
        match (world.target)(walk.current) {
            Some(target) => {
                let next = link_destination(walk.current, target);
                if !(is_below(next, walk.base) && (world.exists)(next)) {
                    assert(walk.kept + Seq::<Seq<char>>::empty() =~= walk.kept);
                }
            },
            None => {
                assert(walk.kept + Seq::<Seq<char>>::empty() =~= walk.kept);
            },
        }
    }
    if walk.stage is Checking && (world.exists)(walk.current) {
        let rest = link_chain(world, walk.current, walk.base, (walk.hops - 1) as nat);
        assert(walk.kept + (seq![walk.current] + rest) =~= walk.kept.push(walk.current) + rest);
        if walk.hops == 1 {
            assert(rest =~= Seq::<Seq<char>>::empty());
            assert(walk.kept.push(walk.current) + rest =~= walk.kept.push(walk.current));
        }
    }
}

/// How many questions a walk asks at most before it is over.
pub open spec fn questions_left(walk: WalkView) -> int {
    match walk.stage {
        LinkStage::Inspecting => 2 * walk.hops as int,
        LinkStage::Checking => 2 * walk.hops as int - 1,
        LinkStage::Done => 0,
    }
}

/// A walk ends, even where links lead round in a circle: every answer leaves
/// fewer questions, whatever it is, and a walk without questions is over.
pub proof fn law_walk_ends(walk: WalkView, target: Option<Seq<char>>, exists: bool)
    requires
        !(walk.stage is Done) ==> walk.hops > 0,
    ensures
        walk.stage is Inspecting ==> 0 <= questions_left(after_inspection(walk, target))
            < questions_left(walk),
        walk.stage is Checking ==> 0 <= questions_left(after_check(walk, exists))
            < questions_left(walk),
        questions_left(walk) == 0 <==> walk.stage is Done,
{
}

/// A chain of links ends: no more links are followed than allowed, whatever
/// they lead to. Every path that they lead to exists and lies in the
/// directory.
pub proof fn law_links_stay_inside(world: LinkWorld, path: Seq<char>, base: Seq<char>, hops: nat)
    ensures
        link_chain(world, path, base, hops).len() <= hops,
        forall|i: int|
            0 <= i < link_chain(world, path, base, hops).len() ==> {
                &&& is_below(#[trigger] link_chain(world, path, base, hops)[i], base)
                &&& (world.exists)(link_chain(world, path, base, hops)[i])
            },
    decreases hops,
{
    if hops > 0 {
        if let Some(target) = (world.target)(path) {
            let next = link_destination(path, target);
            if is_below(next, base) && (world.exists)(next) {
                let rest = link_chain(world, next, base, (hops - 1) as nat);
                law_links_stay_inside(world, next, base, (hops - 1) as nat);
                let whole = link_chain(world, path, base, hops);
                assert(whole == seq![next] + rest);
                assert forall|i: int| 0 <= i < whole.len() implies is_below(
                    #[trigger] whole[i],
                    base,
                ) && (world.exists)(whole[i]) by {
                    if i > 0 {
                        assert(whole[i] == rest[i - 1]);
                    }
                }
            }
        }
    }
}

/// No link leads out of the directory: after the components of the directory
/// no path of a chain holds a `..`. The directory has a component that is not
/// `..`.
pub proof fn law_links_never_climb_out(world: LinkWorld, path: Seq<char>, base: Seq<char>, hops: nat)
    requires
        exists|i: int| 0 <= i < components(base).len() && #[trigger] components(base)[i] != dot_dot(),
    ensures
        forall|i: int, j: int|
            0 <= i < link_chain(world, path, base, hops).len() && components(base).len() <= j
                < components(link_chain(world, path, base, hops)[i]).len() ==> #[trigger] components(
                link_chain(world, path, base, hops)[i],
            )[j] != dot_dot(),
    decreases hops,
{
    if hops > 0 {
        if let Some(target) = (world.target)(path) {
            let next = link_destination(path, target);
            if is_below(next, base) && (world.exists)(next) {
                let rest = link_chain(world, next, base, (hops - 1) as nat);
                law_links_never_climb_out(world, next, base, (hops - 1) as nat);
                let dir = match parent_of(path) {
                    Some(dir) => dir,
                    None => Seq::empty(),
                };
                law_cleaned_stays_below(joined(dir, target), base);
                let whole = link_chain(world, path, base, hops);
                assert(whole == seq![next] + rest);
                assert forall|i: int, j: int|
                    0 <= i < whole.len() && components(base).len() <= j < components(
                        whole[i],
                    ).len() implies #[trigger] components(whole[i])[j] != dot_dot() by {
                    if i > 0 {
                        assert(whole[i] == rest[i - 1]);
                    }
                }
            }
        }
    }
}

/// A link leads to its target, seen from the directory that holds the link
/// unless the target is absolute, once the dots on the way are resolved.
pub proof fn law_links_lead_to_their_targets(
    path: &str,
    target: &str,
    res: String,
    dir: Seq<char>,
    name: Seq<char>,
    parts: Seq<Seq<char>>,
)
    requires
        call_ensures(follow_link, (path, target), res),
        is_plain_name(name),
        parts.len() > 0,
        forall|i: int| 0 <= i < parts.len() ==> is_plain_name(#[trigger] parts[i]) || parts[i]
            == seq!['.', '.'],
        target@ == spliced(parts, '/') || (target@.len() > 0 && target@[0] == '/'),
        path@ == name || (dir.len() > 0 && path@ == dir + seq!['/'] + name),
    ensures
        ({
            let remaining = cleaned_parts(
                if target@.len() > 0 && target@[0] == '/' {
                    components(target@)
                } else if path@ == name {
                    parts
                } else {
                    components(dir) + parts
                },
            );
            if remaining.len() > 0 {
                components(res@) == remaining
            } else {
                res@ == seq!['.']
            }
        }),
{
    law_parents_hold_their_names(dir, name);
    let parent = match parent_of(path@) {
        Some(parent) => parent,
        None => Seq::empty(),
    };
    if path@ == name {
        law_components_stand_between_slashes(dir, parent);
    }
    if target@.len() > 0 && target@[0] == '/' {
        law_joining(parent, target@);
    } else {
        assert forall|i: int| 0 <= i < parts.len() implies {
            &&& (#[trigger] parts[i]).len() > 0
            &&& !parts[i].contains('/')
            &&& parts[i] != dot()
        } by {
            assert(is_plain_name(parts[i]) || parts[i] == seq!['.', '.']);
            assert(dot().len() == 1);
        }
        lemma_join_names(parent, parts);
        lemma_rendered_names(parts);
        assert(components(joined(parent, target@)) == components(parent) + parts);
        if path@ == name {
            assert(components(parent) + parts =~= parts);
        }
    }
    law_cleaned_paths_hold_what_remains(joined(parent, target@));
}

/// Links are followed one after the other, up to ten of them, as long as each
/// leads to something in the directory; all that they lead to is kept, in
/// order, and nothing after the first that leads elsewhere or is no link.
pub proof fn law_links_are_followed(world: LinkWorld, base: Seq<char>, way: Seq<Seq<char>>)
    requires
        0 < way.len() <= 11,
        forall|i: int| 0 <= i < way.len() - 1 ==> leads_on(world, base, #[trigger] way[i]),
        forall|i: int|
            0 <= i < way.len() - 1 ==> way[i + 1] == link_destination(
                #[trigger] way[i],
                (world.target)(way[i])->Some_0,
            ),
    ensures
        resolve_symlinks(world, way[0], base).len() <= 11,
        resolve_symlinks(world, way[0], base).len() >= way.len(),
        resolve_symlinks(world, way[0], base).take(way.len() as int) == way,
        way.len() == 11 || !leads_on(world, base, way[way.len() - 1]) ==> resolve_symlinks(
            world,
            way[0],
            base,
        ) == way,
{
    law_links_stay_inside(world, way[0], base, 10);
    lemma_links_are_followed(world, base, way, 10);
    assert(seq![way[0]] + way.drop_first() =~= way);
    let rest = link_chain(world, way[0], base, 10);
    assert(resolve_symlinks(world, way[0], base) == seq![way[0]] + rest);
    assert((seq![way[0]] + rest).take(way.len() as int) =~= seq![way[0]] + rest.take(
        way.len() - 1,
    ));
    if way.len() == 11 {
        assert(rest.take(10) =~= rest);
    }
}

/// Whether a link is at a path and leads to something in the directory.
pub open spec fn leads_on(world: LinkWorld, base: Seq<char>, path: Seq<char>) -> bool {
    (world.target)(path) matches Some(target) && is_below(link_destination(path, target), base)
        && (world.exists)(link_destination(path, target))
}

proof fn lemma_links_are_followed(
    world: LinkWorld,
    base: Seq<char>,
    way: Seq<Seq<char>>,
    hops: nat,
)
    requires
        0 < way.len() <= hops + 1,
        forall|i: int| 0 <= i < way.len() - 1 ==> leads_on(world, base, #[trigger] way[i]),
        forall|i: int|
            0 <= i < way.len() - 1 ==> way[i + 1] == link_destination(
                #[trigger] way[i],
                (world.target)(way[i])->Some_0,
            ),
    ensures
        link_chain(world, way[0], base, hops).len() >= way.len() - 1,
        link_chain(world, way[0], base, hops).take(way.len() - 1) == way.drop_first(),
        !leads_on(world, base, way[way.len() - 1]) ==> link_chain(world, way[0], base, hops)
            == way.drop_first(),
    decreases way.len(),
{
    let chain = link_chain(world, way[0], base, hops);
    if way.len() == 1 {
        assert(chain.take(0) =~= way.drop_first());
        if !leads_on(world, base, way[0]) {
            assert(chain =~= way.drop_first());
        }
    } else {
        assert(leads_on(world, base, way[0]));
        let rest = way.drop_first();
        assert forall|i: int| 0 <= i < rest.len() - 1 implies leads_on(
            world,
            base,
            #[trigger] rest[i],
        ) by {
            assert(leads_on(world, base, way[i + 1]));
        }
        assert forall|i: int| 0 <= i < rest.len() - 1 implies rest[i + 1] == link_destination(
            #[trigger] rest[i],
            (world.target)(rest[i])->Some_0,
        ) by {
            assert(way[i + 1] == rest[i] && way[i + 2] == rest[i + 1]);
        }
        lemma_links_are_followed(world, base, rest, (hops - 1) as nat);
        let after = link_chain(world, rest[0], base, (hops - 1) as nat);
        assert(way[1] == rest[0]);
        assert(chain == seq![rest[0]] + after);
        assert(chain.take(way.len() - 1) =~= seq![rest[0]] + after.take(rest.len() - 1));
        assert(seq![rest[0]] + rest.drop_first() =~= rest);
    }
}

/// A walk that begins will keep what the links of its file lead to, and one
/// that is told the truth about the link where it stands will keep the same as
/// before, with fewer questions left.
pub proof fn law_inspected_walks_keep_their_outcome(
    world: LinkWorld,
    path: &str,
    base: &str,
    begun: SymlinkWalk,
    before: SymlinkWalk,
    after: SymlinkWalk,
    target: Option<String>,
)
    requires
        call_ensures(SymlinkWalk::new, (path, base), begun),
        before.wf(),
        before@.stage is Inspecting,
        exists|walk: &mut SymlinkWalk|
            *walk == before && *final(walk) == after && #[trigger] call_ensures(
                SymlinkWalk::inspected,
                (walk, target),
                (),
            ),
        target is Some ==> (world.target)(before@.current) == Some(target->Some_0@),
        target is None ==> (world.target)(before@.current) is None,
    ensures
        begun.wf(),
        walk_outcome(world, begun@) == resolve_symlinks(world, path@, base@),
        after.wf(),
        walk_outcome(world, after@) == walk_outcome(world, before@),
        questions_left(after@) < questions_left(before@),
        after@.base == before@.base,
{
    law_walk_resolves_symlinks(world, path@, base@, before@);
    law_walk_ends(before@, (world.target)(before@.current), true);
}

/// A walk that is told the truth about where a link leads will keep the same as
/// before, with fewer questions left.
pub proof fn law_checked_walks_keep_their_outcome(
    world: LinkWorld,
    before: SymlinkWalk,
    after: SymlinkWalk,
    present: bool,
)
    requires
        before.wf(),
        before@.stage is Checking,
        exists|walk: &mut SymlinkWalk|
            *walk == before && *final(walk) == after && #[trigger] call_ensures(
                SymlinkWalk::checked,
                (walk, present),
                (),
            ),
        present == (world.exists)(before@.current),
    ensures
        after.wf(),
        walk_outcome(world, after@) == walk_outcome(world, before@),
        questions_left(after@) < questions_left(before@),
        after@.base == before@.base,
{
    law_walk_resolves_symlinks(world, before@.current, before@.base, before@);
    law_walk_ends(before@, None, present);
}

} // verus!
