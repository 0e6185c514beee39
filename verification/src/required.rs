//! The firmware that an image needs: what its kernel modules may ask for.
//!
//! The scan decides; whoever holds the file system and runs the commands
//! answers its requests.
use crate::error::JanitorError;
use crate::firmware::{
    all_matches, find_firmware_files, firmware_search, found_files, is_search_for, lemma_variants,
    list_texts, picked, variants, FirmwareSearch, SearchReply,
};
use crate::passes::{lemma_all_matches, lemma_distinct, lemma_picked};
use crate::path::{below, components, is_below, join, joined, relative_to, spelled_in};
use crate::path_set::{all_components, distinct_paths, PathSet};
use crate::symlink::{
    after_check, after_inspection, law_walk_resolves_symlinks, link_destination, resolve_symlinks,
    walk_outcome, walk_start, LinkRequest, LinkStage, LinkWorld, SymlinkWalk, WalkView, MAX_HOPS,
};
use crate::text::texts;
use crate::trace::{
    law_trail_ends_at_real_path, place_view, real_path, target_path, trace_next, trace_start, trail,
    Place, PlaceView, Trace, TraceView, MAX_LINKS,
};
use crate::work::{chunked, law_chunks_hold_all_items, unchunked};
use vstd::prelude::*;

verus! {

/// A thing that is still to be looked into.
#[derive(Debug)]
enum Task {
    /// A kernel module: which firmware may it ask for?
    Module(String),
    /// The name of firmware: which files have it?
    Name(String),
    /// A file: where do its links lead?
    Walk(SymlinkWalk),
    /// A file: where does it really stand?
    Trace(Trace),
}

/// A task as a mathematical value.
pub enum TaskView {
    Module(Seq<char>),
    Name(Seq<char>),
    Walk(WalkView),
    Trace(TraceView),
}

impl View for Task {
    type V = TaskView;

    closed spec fn view(&self) -> TaskView {
        match self {
            Task::Module(path) => TaskView::Module(path@),
            Task::Name(name) => TaskView::Name(name@),
            Task::Walk(walk) => TaskView::Walk(walk@),
            Task::Trace(trace) => TaskView::Trace(trace@),
        }
    }
}

/// What a scan has to know next.
#[derive(Debug)]
pub enum ScanRequest {
    /// The names of the firmware that the module at this path may ask for.
    Names(String),
    /// The answer to this search.
    Search(FirmwareSearch),
    /// The target of the link at this path, where there is one.
    Inspect(String),
    /// Whether something exists at this path, at the end of all its links.
    CheckExists(String),
    /// Where what this path names stands, once the links among its
    /// directories are followed.
    Locate(String),
    /// Nothing: the scan is over.
    Finished,
}

/// The answer to a request.
#[derive(Debug)]
pub enum ScanReply {
    Names(Result<Vec<String>, JanitorError>),
    Search(SearchReply),
    Inspect(Result<Option<String>, std::io::Error>),
    CheckExists(bool),
    Locate(Option<Place>),
}

/// A scan of kernel modules for the firmware that they may ask for.
pub struct RequiredScan {
    fw_dir: String,
    real_dir: String,
    tasks: Vec<Task>,
    required: PathSet,
}

/// A scan as a mathematical value: the firmware directory as it is spelled,
/// where it really stands, the tasks left, the next one last, and the paths
/// found so far.
pub struct ScanView {
    pub fw_dir: Seq<char>,
    pub real_dir: Seq<char>,
    pub tasks: Seq<TaskView>,
    pub required: Set<Seq<Seq<char>>>,
}

impl View for RequiredScan {
    type V = ScanView;

    closed spec fn view(&self) -> ScanView {
        ScanView {
            fw_dir: self.fw_dir@,
            real_dir: self.real_dir@,
            tasks: self.tasks@.map_values(|task: Task| task@),
            required: self.required@,
        }
    }
}

/// The tasks of looking into modules, the first of them next.
pub open spec fn module_tasks(modules: Seq<Seq<char>>) -> Seq<TaskView> {
    modules.reverse().map_values(|path: Seq<char>| TaskView::Module(path))
}

/// The tasks of looking for names, the first of them next.
pub open spec fn name_tasks(names: Seq<Seq<char>>) -> Seq<TaskView> {
    names.reverse().map_values(|name: Seq<char>| TaskView::Name(name))
}

/// The tasks of following the links of files, the first of them next.
pub open spec fn walk_tasks(files: Seq<Seq<char>>, fw_dir: Seq<char>) -> Seq<TaskView> {
    files.reverse().map_values(|file: Seq<char>| TaskView::Walk(walk_start(file, fw_dir)))
}

/// The tasks of tracing files, the first of them next.
pub open spec fn trace_tasks(files: Seq<Seq<char>>) -> Seq<TaskView> {
    files.reverse().map_values(|file: Seq<char>| TaskView::Trace(trace_start(file)))
}

/// The tasks for files that were found: their links are followed first, then
/// they are traced.
pub open spec fn file_tasks(files: Seq<Seq<char>>, fw_dir: Seq<char>) -> Seq<TaskView> {
    trace_tasks(files) + walk_tasks(files, fw_dir)
}

/// A scan at its beginning.
pub open spec fn scan_start(
    modules: Seq<Seq<char>>,
    fw_dir: Seq<char>,
    real_dir: Seq<char>,
) -> ScanView {
    ScanView { fw_dir, real_dir, tasks: module_tasks(modules), required: Set::empty() }
}

/// A scan after a walk went on: one that is over leaves what it kept.
pub open spec fn after_walk(scan: ScanView, walk: WalkView) -> ScanView {
    if walk.stage is Done {
        ScanView {
            tasks: scan.tasks.drop_last(),
            required: scan.required.union(all_components(walk.kept).to_set()),
            ..scan
        }
    } else {
        ScanView { tasks: scan.tasks.drop_last().push(TaskView::Walk(walk)), ..scan }
    }
}

/// A scan after a trace learnt what stands at its path: what stands in the
/// firmware directory is required, under the path that it has there.
pub open spec fn after_location(
    scan: ScanView,
    trace: TraceView,
    place: Option<PlaceView>,
) -> ScanView {
    let rest = scan.tasks.drop_last();
    ScanView {
        tasks: match trace_next(trace, place) {
            Some(next) => rest.push(TaskView::Trace(next)),
            None => rest,
        },
        required: match place {
            Some(place) => if is_below(place.path, scan.real_dir) {
                scan.required.insert(
                    components(spelled_in(scan.fw_dir, scan.real_dir, place.path)),
                )
            } else {
                scan.required
            },
            None => scan.required,
        },
        ..scan
    }
}

/// The text of a target, where there is one.
pub open spec fn target_text(target: Option<String>) -> Option<Seq<char>> {
    match target {
        Some(text) => Some(text@),
        None => None,
    }
}

/// Whether a reply answers the next task.
pub open spec fn answers(reply: ScanReply, scan: ScanView) -> bool {
    &&& scan.tasks.len() > 0
    &&& match (scan.tasks.last(), reply) {
        (TaskView::Module(_), ScanReply::Names(_)) => true,
        (TaskView::Name(name), ScanReply::Search(found)) => match found {
            SearchReply::Exists(flags) => !name.contains('*') && flags@.len() == 3,
            SearchReply::Matches(lists) => name.contains('*') && lists@.len() == 3,
        },
        (TaskView::Walk(walk), ScanReply::Inspect(_)) => walk.stage is Inspecting,
        (TaskView::Walk(walk), ScanReply::CheckExists(_)) => walk.stage is Checking,
        (TaskView::Trace(_), ScanReply::Locate(_)) => true,
        _ => false,
    }
}

/// The scan after a reply that is no failure.
pub open spec fn after_reply(scan: ScanView, reply: ScanReply) -> ScanView {
    let rest = scan.tasks.drop_last();
    match (scan.tasks.last(), reply) {
        (TaskView::Module(_), ScanReply::Names(Ok(names))) => ScanView {
            tasks: rest + name_tasks(texts(names@)),
            ..scan
        },
        (TaskView::Name(name), ScanReply::Search(found)) => {
            let files = found_files(variants(joined(scan.fw_dir, name)), found);
            ScanView { tasks: rest + file_tasks(files, scan.fw_dir), ..scan }
        },
        (TaskView::Walk(walk), ScanReply::Inspect(Ok(target))) => after_walk(
            scan,
            after_inspection(walk, target_text(target)),
        ),
        (TaskView::Walk(walk), ScanReply::CheckExists(exists)) => after_walk(
            scan,
            after_check(walk, exists),
        ),
        (TaskView::Trace(trace), ScanReply::Locate(place)) => after_location(
            scan,
            trace,
            place_view(place),
        ),
        _ => scan,
    }
}

impl RequiredScan {
    /// Every walk among the tasks can go on.
    pub closed spec fn wf(&self) -> bool {
        &&& self.required.wf()
        &&& forall|i: int|
            0 <= i < self.tasks@.len() ==> match #[trigger] self.tasks@[i] {
                Task::Walk(walk) => walk.wf() && !(walk@.stage is Done),
                Task::Trace(trace) => trace@.hops > 0,
                _ => true,
            }
    }

    /// Begins the scan of `modules` for firmware in the directory `fw_dir`,
    /// which really stands at `real_dir`.
    pub fn new(modules: &Vec<String>, fw_dir: &str, real_dir: &str) -> (scan: RequiredScan)
        ensures
            scan.wf(),
            scan@ == scan_start(texts(modules@), fw_dir@, real_dir@),
    {
        let ghost all = texts(modules@);
        let mut tasks: Vec<Task> = Vec::new();
        let mut left: usize = modules.len();
        while left > 0
            invariant
                left <= modules@.len(),
                all == texts(modules@),
                tasks@.map_values(|task: Task| task@) == module_tasks(all).take(
                    modules@.len() - left,
                ),
                forall|i: int| 0 <= i < tasks@.len() ==> (#[trigger] tasks@[i]) is Module,
            decreases left,
        {
            left -= 1;
            let task = Task::Module(modules[left].clone());
            proof {
                let done = modules@.len() - left;
                assert(module_tasks(all)[done - 1] == task@);
                assert(module_tasks(all).take(done) =~= module_tasks(all).take(done - 1).push(task@));
                assert(tasks@.push(task).map_values(|task: Task| task@) =~= tasks@.map_values(
                    |task: Task| task@,
                ).push(task@));
            }
            tasks.push(task);
        }
        let scan = RequiredScan {
            fw_dir: fw_dir.to_owned(),
            real_dir: real_dir.to_owned(),
            tasks,
            required: PathSet::new(),
        };
        proof {
            assert(module_tasks(all).take(modules@.len() as int) =~= module_tasks(all));
        }
        scan
    }

    /// What the scan has to know next.
    pub fn request(&self) -> (req: ScanRequest)
        requires
            self.wf(),
        ensures
            match req {
                ScanRequest::Names(path) => self@.tasks.len() > 0 && self@.tasks.last()
                    == TaskView::Module(path@),
                ScanRequest::Search(search) => self@.tasks.len() > 0 && (
                self@.tasks.last() matches TaskView::Name(name) && is_search_for(
                    search,
                    name,
                    self@.fw_dir,
                )),
                ScanRequest::Inspect(path) => self@.tasks.len() > 0 && (
                self@.tasks.last() matches TaskView::Walk(walk) && walk.stage is Inspecting && path@
                    == walk.current),
                ScanRequest::CheckExists(path) => self@.tasks.len() > 0 && (
                self@.tasks.last() matches TaskView::Walk(walk) && walk.stage is Checking && path@
                    == walk.current),
                ScanRequest::Locate(path) => self@.tasks.len() > 0 && (
                self@.tasks.last() matches TaskView::Trace(trace) && path@ == trace.current),
                ScanRequest::Finished => self@.tasks.len() == 0,
            },
    {
        let count: usize = self.tasks.len();
        if count == 0 {
            return ScanRequest::Finished;
        }
        proof {
            assert(self@.tasks.last() == self.tasks@[count - 1]@);
        }
        match &self.tasks[count - 1] {
            Task::Module(path) => ScanRequest::Names(path.clone()),
            Task::Name(name) => ScanRequest::Search(
                firmware_search(name.as_str(), self.fw_dir.as_str()),
            ),
            Task::Walk(walk) => match walk.request() {
                LinkRequest::Inspect(path) => ScanRequest::Inspect(path),
                LinkRequest::CheckExists(path) => ScanRequest::CheckExists(path),
                LinkRequest::Finished => ScanRequest::Finished,
            },
            Task::Trace(trace) => ScanRequest::Locate(trace.current()),
        }
    }

    /// Takes the answer to the request. A failure ends the scan.
    pub fn handle(&mut self, reply: ScanReply) -> (res: Result<(), JanitorError>)
        requires
            old(self).wf(),
            answers(reply, old(self)@),
        ensures
            final(self).wf(),
            match reply {
                ScanReply::Names(Err(e)) => res == Err::<(), JanitorError>(e) && final(self)@ == (
                ScanView { tasks: old(self)@.tasks.drop_last(), ..old(self)@ }),
                ScanReply::Inspect(Err(e)) => res == Err::<(), JanitorError>(JanitorError::Io(e))
                    && final(self)@ == (ScanView {
                    tasks: old(self)@.tasks.drop_last(),
                    ..old(self)@
                }),
                _ => res is Ok && final(self)@ == after_reply(old(self)@, reply),
            },
    {
        let ghost before = self@;
        let ghost given = self.tasks@;
        let task = match self.tasks.pop() {
            Some(task) => task,
            None => {
                return Ok(());
            },
        };
        proof {
            assert(before.tasks.last() == given[given.len() - 1]@);
            assert(self@.tasks =~= before.tasks.drop_last());
        }
        match (task, reply) {
            (Task::Module(_), ScanReply::Names(names)) => match names {
                Ok(names) => {
                    self.push_names(&names);
                    Ok(())
                },
                Err(e) => Err(e),
            },
            (Task::Name(name), ScanReply::Search(found)) => {
                let search = firmware_search(name.as_str(), self.fw_dir.as_str());
                proof {
                    assert(texts(search.paths@).len() == 3);
                }
                let files = find_firmware_files(&search, found);
                self.push_traces(&files);
                self.push_walks(&files);
                proof {
                    let found = texts(files@);
                    let rest = before.tasks.drop_last();
                    assert((rest + trace_tasks(found)) + walk_tasks(found, before.fw_dir) =~= rest
                        + file_tasks(found, before.fw_dir));
                }
                Ok(())
            },
            (Task::Walk(walk), ScanReply::Inspect(target)) => match target {
                Ok(target) => {
                    let mut walk = walk;
                    walk.inspected(target);
                    self.put_back(walk);
                    Ok(())
                },
                Err(e) => Err(JanitorError::Io(e)),
            },
            (Task::Walk(walk), ScanReply::CheckExists(exists)) => {
                let mut walk = walk;
                walk.checked(exists);
                self.put_back(walk);
                Ok(())
            },
            (Task::Trace(trace), ScanReply::Locate(place)) => {
                self.locate(trace, place);
                Ok(())
            },
            _ => Ok(()),
        }
    }

    /// Goes on with a walk, or takes over what it kept.
    fn put_back(&mut self, walk: SymlinkWalk)
        requires
            old(self).wf(),
            walk.wf(),
        ensures
            final(self).wf(),
            final(self)@.fw_dir == old(self)@.fw_dir,
            final(self)@.real_dir == old(self)@.real_dir,
            walk@.stage is Done ==> final(self)@.tasks == old(self)@.tasks && final(self)@.required
                == old(self)@.required.union(all_components(walk@.kept).to_set()),
            !(walk@.stage is Done) ==> final(self)@.tasks == old(self)@.tasks.push(
                TaskView::Walk(walk@),
            ) && final(self)@.required == old(self)@.required,
    {
        match walk.request() {
            LinkRequest::Finished => {
                self.required.extend(walk.kept());
            },
            _ => {
                let ghost tasks = self@.tasks;
                self.tasks.push(Task::Walk(walk));
                proof {
                    assert(self@.tasks =~= tasks.push(TaskView::Walk(walk@)));
                }
            },
        }
    }

    /// Goes on with a trace, and takes over the place that it came to.
    fn locate(&mut self, trace: Trace, place: Option<Place>)
        requires
            old(self).wf(),
        ensures
            final(self).wf(),
            final(self)@.fw_dir == old(self)@.fw_dir,
            final(self)@.real_dir == old(self)@.real_dir,
            final(self)@.tasks == match trace_next(trace@, place_view(place)) {
                Some(next) => old(self)@.tasks.push(TaskView::Trace(next)),
                None => old(self)@.tasks,
            },
            final(self)@.required == match place {
                Some(place) => if is_below(place.path@, old(self)@.real_dir) {
                    old(self)@.required.insert(
                        components(
                            spelled_in(old(self)@.fw_dir, old(self)@.real_dir, place.path@),
                        ),
                    )
                } else {
                    old(self)@.required
                },
                None => old(self)@.required,
            },
    {
        let ghost tasks = self@.tasks;
        if let Some(place) = &place {
            if below(place.path.as_str(), self.real_dir.as_str()) {
                let inside = relative_to(place.path.as_str(), self.real_dir.as_str());
                let path = join(self.fw_dir.as_str(), inside.as_str());
                self.required.insert(path.as_str());
            }
        }
        if let Some(next) = trace.advance(&place) {
            self.tasks.push(Task::Trace(next));
            proof {
                assert(self@.tasks =~= tasks.push(TaskView::Trace(next@)));
            }
        }
    }

    /// Puts the search for each name on the tasks, the first of them next.
    fn push_names(&mut self, names: &Vec<String>)
        requires
            old(self).wf(),
        ensures
            final(self).wf(),
            final(self)@ == (ScanView {
                tasks: old(self)@.tasks + name_tasks(texts(names@)),
                ..old(self)@
            }),
    {
        let ghost all = name_tasks(texts(names@));
        let ghost before = self@;
        proof {
            assert(before.tasks + all.take(0) =~= before.tasks);
        }
        let mut left: usize = names.len();
        while left > 0
            invariant
                left <= names@.len(),
                all == name_tasks(texts(names@)),
                self.wf(),
                self@ == (ScanView {
                    tasks: before.tasks + all.take(names@.len() - left),
                    ..before
                }),
            decreases left,
        {
            left -= 1;
            let task = Task::Name(names[left].clone());
            let ghost tasks = self@.tasks;
            proof {
                let done = names@.len() - left;
                assert(all[done - 1] == task@);
                assert(all.take(done) =~= all.take(done - 1).push(task@));
            }
            self.tasks.push(task);
            proof {
                assert(self@.tasks =~= tasks.push(task@));
                assert(self@.tasks =~= before.tasks + all.take(names@.len() - left));
            }
        }
        proof {
            assert(all.take(names@.len() as int) =~= all);
        }
    }

    /// Puts the walk from each file on the tasks, the first of them next.
    fn push_walks(&mut self, files: &Vec<String>)
        requires
            old(self).wf(),
        ensures
            final(self).wf(),
            final(self)@ == (ScanView {
                tasks: old(self)@.tasks + walk_tasks(texts(files@), old(self)@.fw_dir),
                ..old(self)@
            }),
    {
        let ghost all = walk_tasks(texts(files@), self@.fw_dir);
        let ghost before = self@;
        proof {
            assert(before.tasks + all.take(0) =~= before.tasks);
        }
        let mut left: usize = files.len();
        while left > 0
            invariant
                left <= files@.len(),
                all == walk_tasks(texts(files@), before.fw_dir),
                self.wf(),
                self@ == (ScanView {
                    tasks: before.tasks + all.take(files@.len() - left),
                    ..before
                }),
            decreases left,
        {
            left -= 1;
            let task = Task::Walk(SymlinkWalk::new(files[left].as_str(), self.fw_dir.as_str()));
            let ghost tasks = self@.tasks;
            proof {
                let done = files@.len() - left;
                assert(all[done - 1] == task@);
                assert(all.take(done) =~= all.take(done - 1).push(task@));
            }
            self.tasks.push(task);
            proof {
                assert(self@.tasks =~= tasks.push(task@));
                assert(self@.tasks =~= before.tasks + all.take(files@.len() - left));
            }
        }
        proof {
            assert(all.take(files@.len() as int) =~= all);
        }
    }

    /// Puts the trace of each file on the tasks, the first of them next.
    fn push_traces(&mut self, files: &Vec<String>)
        requires
            old(self).wf(),
        ensures
            final(self).wf(),
            final(self)@ == (ScanView {
                tasks: old(self)@.tasks + trace_tasks(texts(files@)),
                ..old(self)@
            }),
    {
        let ghost all = trace_tasks(texts(files@));
        let ghost before = self@;
        proof {
            assert(before.tasks + all.take(0) =~= before.tasks);
        }
        let mut left: usize = files.len();
        while left > 0
            invariant
                left <= files@.len(),
                all == trace_tasks(texts(files@)),
                self.wf(),
                self@ == (ScanView {
                    tasks: before.tasks + all.take(files@.len() - left),
                    ..before
                }),
            decreases left,
        {
            left -= 1;
            let task = Task::Trace(Trace::new(files[left].as_str()));
            let ghost tasks = self@.tasks;
            proof {
                let done = files@.len() - left;
                assert(all[done - 1] == task@);
                assert(all.take(done) =~= all.take(done - 1).push(task@));
            }
            self.tasks.push(task);
            proof {
                assert(self@.tasks =~= tasks.push(task@));
                assert(self@.tasks =~= before.tasks + all.take(files@.len() - left));
            }
        }
        proof {
            assert(all.take(files@.len() as int) =~= all);
        }
    }

    /// Every walk among the tasks can go on.
    pub proof fn lemma_walks_go_on(&self)
        requires
            self.wf(),
        ensures
            walks_go_on(self@),
    {
        assert forall|i: int| 0 <= i < self@.tasks.len() implies #[trigger] self@.tasks[i]
            == self.tasks@[i]@ by {}
    }

    /// The paths found.
    pub fn into_required(self) -> (set: PathSet)
        requires
            self.wf(),
        ensures
            set.wf(),
            set@ == self@.required,
    {
        self.required
    }
}

/// A system: the names of the firmware that each module may ask for, its
/// files and links, what each pattern matches, where the firmware directory
/// and what a path names really stand, and for which modules and which paths
/// no answer can be had.
pub struct ScanWorld {
    pub names: spec_fn(Seq<char>) -> Seq<Seq<char>>,
    pub matched: spec_fn(Seq<char>) -> Seq<Seq<char>>,
    pub links: LinkWorld,
    pub real_dir: Seq<char>,
    pub places: spec_fn(Seq<char>) -> Option<PlaceView>,
    pub mute: spec_fn(Seq<char>) -> bool,
    pub unseen: spec_fn(Seq<char>) -> bool,
}

/// The files of a firmware name: those that exist among the variants of its
/// path, or, where it has a wildcard, what the variants match.
pub open spec fn files_named(world: ScanWorld, name: Seq<char>, fw_dir: Seq<char>) -> Seq<Seq<char>> {
    let paths = variants(joined(fw_dir, name));
    if name.contains('*') {
        distinct_paths(all_matches(paths.map_values(world.matched)), Set::empty())
    } else {
        picked(paths, paths.map_values(world.links.exists))
    }
}

/// Whether the path with these components is that of a place in the firmware
/// directory on the trail of a file. The directory stands at `real_dir` and is
/// spelled `fw_dir`.
pub open spec fn is_on_trail(
    trail: Seq<Seq<char>>,
    fw_dir: Seq<char>,
    real_dir: Seq<char>,
    parts: Seq<Seq<char>>,
) -> bool {
    exists|k: int|
        0 <= k < trail.len() && is_below(#[trigger] trail[k], real_dir) && components(
            spelled_in(fw_dir, real_dir, trail[k]),
        ) == parts
}

/// Whether the path with these components is needed for a file: it is the
/// file, a link leads to it, or the file, or a link on its way, really stands
/// there.
pub open spec fn needed_by_file(
    world: ScanWorld,
    file: Seq<char>,
    fw_dir: Seq<char>,
    parts: Seq<Seq<char>>,
) -> bool {
    ||| all_components(resolve_symlinks(world.links, file, fw_dir)).contains(parts)
    ||| is_on_trail(
        trail(world.places, file, MAX_LINKS as nat),
        fw_dir,
        world.real_dir,
        parts,
    )
}

/// Whether the path with these components is needed for one of `files`.
pub open spec fn needed_by_files(
    world: ScanWorld,
    files: Seq<Seq<char>>,
    fw_dir: Seq<char>,
    parts: Seq<Seq<char>>,
) -> bool {
    exists|i: int|
        0 <= i < files.len() && needed_by_file(world, #[trigger] files[i], fw_dir, parts)
}

/// Whether the path with these components is needed for one of `names`.
pub open spec fn needed_by_names(
    world: ScanWorld,
    names: Seq<Seq<char>>,
    fw_dir: Seq<char>,
    parts: Seq<Seq<char>>,
) -> bool {
    exists|i: int|
        0 <= i < names.len() && needed_by_files(
            world,
            files_named(world, #[trigger] names[i], fw_dir),
            fw_dir,
            parts,
        )
}

/// Whether the path with these components is needed for one of `modules`.
pub open spec fn needed_by_modules(
    world: ScanWorld,
    modules: Seq<Seq<char>>,
    fw_dir: Seq<char>,
    parts: Seq<Seq<char>>,
) -> bool {
    exists|i: int|
        0 <= i < modules.len() && needed_by_names(
            world,
            (world.names)(#[trigger] modules[i]),
            fw_dir,
            parts,
        )
}

/// The firmware that `modules` may ask for, with all that its links lead to.
pub open spec fn required_firmware(
    world: ScanWorld,
    modules: Seq<Seq<char>>,
    fw_dir: Seq<char>,
) -> Set<Seq<Seq<char>>> {
    Set::new(|parts: Seq<Seq<char>>| needed_by_modules(world, modules, fw_dir, parts))
}

/// Whether the path with these components comes out of a task.
pub open spec fn task_yields(
    world: ScanWorld,
    task: TaskView,
    fw_dir: Seq<char>,
    parts: Seq<Seq<char>>,
) -> bool {
    match task {
        TaskView::Module(path) => needed_by_names(world, (world.names)(path), fw_dir, parts),
        TaskView::Name(name) => needed_by_files(
            world,
            files_named(world, name, fw_dir),
            fw_dir,
            parts,
        ),
        TaskView::Walk(walk) => all_components(walk_outcome(world.links, walk)).contains(parts),
        TaskView::Trace(trace) => is_on_trail(
            trail(world.places, trace.current, trace.hops),
            fw_dir,
            world.real_dir,
            parts,
        ),
    }
}

/// Whether the path with these components comes out of one of the tasks.
pub open spec fn tasks_yield(
    world: ScanWorld,
    tasks: Seq<TaskView>,
    fw_dir: Seq<char>,
    parts: Seq<Seq<char>>,
) -> bool {
    exists|i: int| 0 <= i < tasks.len() && task_yields(world, #[trigger] tasks[i], fw_dir, parts)
}

/// What a scan will have found when it is over.
pub open spec fn scan_outcome(world: ScanWorld, scan: ScanView) -> Set<Seq<Seq<char>>> {
    Set::new(
        |parts: Seq<Seq<char>>|
            scan.required.contains(parts) || tasks_yield(world, scan.tasks, scan.fw_dir, parts),
    )
}

/// Whether a reply says that no answer can be had.
pub open spec fn is_failure(reply: ScanReply) -> bool {
    reply matches ScanReply::Names(Err(_)) || reply matches ScanReply::Inspect(Err(_))
}

/// Whether a reply tells the truth about the system.
pub open spec fn is_true_reply(world: ScanWorld, scan: ScanView, reply: ScanReply) -> bool {
    match (scan.tasks.last(), reply) {
        (TaskView::Module(path), ScanReply::Names(names)) => match names {
            Ok(names) => !(world.mute)(path) && texts(names@) == (world.names)(path),
            Err(_) => (world.mute)(path),
        },
        (TaskView::Name(name), ScanReply::Search(found)) => {
            let paths = variants(joined(scan.fw_dir, name));
            match found {
                SearchReply::Exists(flags) => flags@ == paths.map_values(world.links.exists),
                SearchReply::Matches(lists) => list_texts(lists@) == paths.map_values(
                    world.matched,
                ),
            }
        },
        (TaskView::Walk(walk), ScanReply::Inspect(target)) => match target {
            Ok(target) => !(world.unseen)(walk.current) && target_text(target) == (
            world.links.target)(walk.current),
            Err(_) => (world.unseen)(walk.current),
        },
        (TaskView::Walk(walk), ScanReply::CheckExists(exists)) => exists == (world.links.exists)(
            walk.current,
        ),
        (TaskView::Trace(trace), ScanReply::Locate(place)) => place_view(place) == (
        world.places)(trace.current),
        _ => false,
    }
}

proof fn lemma_tasks_concat(
    world: ScanWorld,
    a: Seq<TaskView>,
    b: Seq<TaskView>,
    fw_dir: Seq<char>,
    parts: Seq<Seq<char>>,
)
    ensures
        tasks_yield(world, a + b, fw_dir, parts) <==> tasks_yield(world, a, fw_dir, parts)
            || tasks_yield(world, b, fw_dir, parts),
{
    if tasks_yield(world, a, fw_dir, parts) {
        let i = choose|i: int|
            0 <= i < a.len() && task_yields(world, #[trigger] a[i], fw_dir, parts);
        assert((a + b)[i] == a[i]);
    }
    if tasks_yield(world, b, fw_dir, parts) {
        let i = choose|i: int|
            0 <= i < b.len() && task_yields(world, #[trigger] b[i], fw_dir, parts);
        assert((a + b)[a.len() + i] == b[i]);
    }
    if tasks_yield(world, a + b, fw_dir, parts) {
        let i = choose|i: int|
            0 <= i < (a + b).len() && task_yields(world, #[trigger] (a + b)[i], fw_dir, parts);
        if i < a.len() {
            assert((a + b)[i] == a[i]);
        } else {
            assert((a + b)[i] == b[i - a.len()]);
        }
    }
}

proof fn lemma_one_task(
    world: ScanWorld,
    task: TaskView,
    fw_dir: Seq<char>,
    parts: Seq<Seq<char>>,
)
    ensures
        tasks_yield(world, seq![task], fw_dir, parts) <==> task_yields(world, task, fw_dir, parts),
{
    assert(seq![task][0] == task);
}

proof fn lemma_module_tasks(
    world: ScanWorld,
    modules: Seq<Seq<char>>,
    fw_dir: Seq<char>,
    parts: Seq<Seq<char>>,
)
    ensures
        tasks_yield(world, module_tasks(modules), fw_dir, parts) <==> needed_by_modules(
            world,
            modules,
            fw_dir,
            parts,
        ),
{
    let tasks = module_tasks(modules);
    if tasks_yield(world, tasks, fw_dir, parts) {
        let i = choose|i: int|
            0 <= i < tasks.len() && task_yields(world, #[trigger] tasks[i], fw_dir, parts);
        assert(tasks[i] == TaskView::Module(modules[modules.len() - 1 - i]));
    }
    if needed_by_modules(world, modules, fw_dir, parts) {
        let i = choose|i: int|
            0 <= i < modules.len() && needed_by_names(
                world,
                (world.names)(#[trigger] modules[i]),
                fw_dir,
                parts,
            );
        assert(tasks[modules.len() - 1 - i] == TaskView::Module(modules[i]));
    }
}

proof fn lemma_name_tasks(
    world: ScanWorld,
    names: Seq<Seq<char>>,
    fw_dir: Seq<char>,
    parts: Seq<Seq<char>>,
)
    ensures
        tasks_yield(world, name_tasks(names), fw_dir, parts) <==> needed_by_names(
            world,
            names,
            fw_dir,
            parts,
        ),
{
    let tasks = name_tasks(names);
    if tasks_yield(world, tasks, fw_dir, parts) {
        let i = choose|i: int|
            0 <= i < tasks.len() && task_yields(world, #[trigger] tasks[i], fw_dir, parts);
        assert(tasks[i] == TaskView::Name(names[names.len() - 1 - i]));
    }
    if needed_by_names(world, names, fw_dir, parts) {
        let i = choose|i: int|
            0 <= i < names.len() && needed_by_files(
                world,
                files_named(world, #[trigger] names[i], fw_dir),
                fw_dir,
                parts,
            );
        assert(tasks[names.len() - 1 - i] == TaskView::Name(names[i]));
    }
}

proof fn lemma_file_tasks(
    world: ScanWorld,
    files: Seq<Seq<char>>,
    fw_dir: Seq<char>,
    parts: Seq<Seq<char>>,
)
    ensures
        tasks_yield(world, file_tasks(files, fw_dir), fw_dir, parts) <==> needed_by_files(
            world,
            files,
            fw_dir,
            parts,
        ),
{
    let (traces, walks) = (trace_tasks(files), walk_tasks(files, fw_dir));
    lemma_tasks_concat(world, traces, walks, fw_dir, parts);
    if tasks_yield(world, walks, fw_dir, parts) {
        let i = choose|i: int|
            0 <= i < walks.len() && task_yields(world, #[trigger] walks[i], fw_dir, parts);
        let file = files[files.len() - 1 - i];
        assert(walks[i] == TaskView::Walk(walk_start(file, fw_dir)));
        assert(needed_by_file(world, file, fw_dir, parts));
    }
    if tasks_yield(world, traces, fw_dir, parts) {
        let i = choose|i: int|
            0 <= i < traces.len() && task_yields(world, #[trigger] traces[i], fw_dir, parts);
        let file = files[files.len() - 1 - i];
        assert(traces[i] == TaskView::Trace(trace_start(file)));
        assert(needed_by_file(world, file, fw_dir, parts));
    }
    if needed_by_files(world, files, fw_dir, parts) {
        let i = choose|i: int|
            0 <= i < files.len() && needed_by_file(world, #[trigger] files[i], fw_dir, parts);
        assert(walks[files.len() - 1 - i] == TaskView::Walk(walk_start(files[i], fw_dir)));
        assert(traces[files.len() - 1 - i] == TaskView::Trace(trace_start(files[i])));
        if is_on_trail(
            trail(world.places, files[i], MAX_LINKS as nat),
            fw_dir,
            world.real_dir,
            parts,
        ) {
            assert(task_yields(world, traces[files.len() - 1 - i], fw_dir, parts));
        } else {
            assert(task_yields(world, walks[files.len() - 1 - i], fw_dir, parts));
        }
    }
}

/// What a trace yields is the place that it learns of, with what it yields
/// when it goes on.
proof fn lemma_trace_step(
    world: ScanWorld,
    trace: TraceView,
    fw_dir: Seq<char>,
    parts: Seq<Seq<char>>,
)
    requires
        trace.hops > 0,
    ensures
        is_on_trail(
            trail(world.places, trace.current, trace.hops),
            fw_dir,
            world.real_dir,
            parts,
        ) <==> {
            ||| (world.places)(trace.current) matches Some(place) && is_below(
                place.path,
                world.real_dir,
            ) && components(spelled_in(fw_dir, world.real_dir, place.path)) == parts
            ||| trace_next(trace, (world.places)(trace.current)) matches Some(next) && is_on_trail(
                trail(world.places, next.current, next.hops),
                fw_dir,
                world.real_dir,
                parts,
            )
        },
{
    let whole = trail(world.places, trace.current, trace.hops);
    if let Some(place) = (world.places)(trace.current) {
        let rest = match place.target {
            Some(target) => trail(
                world.places,
                target_path(place.path, target),
                (trace.hops - 1) as nat,
            ),
            None => Seq::empty(),
        };
        assert(whole =~= seq![place.path] + rest);
        assert(whole[0] == place.path);
        if is_on_trail(whole, fw_dir, world.real_dir, parts) {
            let k = choose|k: int|
                0 <= k < whole.len() && is_below(#[trigger] whole[k], world.real_dir)
                    && components(spelled_in(fw_dir, world.real_dir, whole[k])) == parts;
            if k > 0 {
                assert(rest[k - 1] == whole[k]);
                assert(is_on_trail(rest, fw_dir, world.real_dir, parts));
            }
        }
        if is_on_trail(rest, fw_dir, world.real_dir, parts) {
            let k = choose|k: int|
                0 <= k < rest.len() && is_below(#[trigger] rest[k], world.real_dir) && components(
                    spelled_in(fw_dir, world.real_dir, rest[k]),
                ) == parts;
            assert(whole[k + 1] == rest[k]);
        }
    }
}

/// A scan finds the firmware that the modules may ask for: it sets out to do
/// so, true replies do not change the outcome, and a scan that is over has
/// reached it.
#[verifier::rlimit(30)]
pub proof fn law_scan_finds_required_firmware(
    world: ScanWorld,
    modules: Seq<Seq<char>>,
    fw_dir: Seq<char>,
    scan: ScanView,
    reply: ScanReply,
)
    ensures
        scan_outcome(world, scan_start(modules, fw_dir, world.real_dir)) == required_firmware(
            world,
            modules,
            fw_dir,
        ),
        answers(reply, scan) && is_true_reply(world, scan, reply) && !is_failure(reply)
            && walks_go_on(scan) && scan.real_dir == world.real_dir ==> {
            let after = after_reply(scan, reply);
            scan_outcome(world, after) == scan_outcome(world, scan) && after.real_dir
                == world.real_dir
        },
        scan.tasks.len() == 0 ==> scan_outcome(world, scan) == scan.required,
{
    let start = scan_start(modules, fw_dir, world.real_dir);
    assert forall|parts: Seq<Seq<char>>| scan_outcome(world, start).contains(parts)
        <==> required_firmware(world, modules, fw_dir).contains(parts) by {
        lemma_module_tasks(world, modules, fw_dir, parts);
    }
    assert(scan_outcome(world, start) =~= required_firmware(world, modules, fw_dir));
    if scan.tasks.len() == 0 {
        assert(scan_outcome(world, scan) =~= scan.required);
    }
    if answers(reply, scan) && is_true_reply(world, scan, reply) && !is_failure(reply)
        && walks_go_on(scan) && scan.real_dir == world.real_dir {
        let after = after_reply(scan, reply);
        let rest = scan.tasks.drop_last();
        let task = scan.tasks.last();
        assert(scan.tasks =~= rest + seq![task]);
        assert forall|parts: Seq<Seq<char>>| scan_outcome(world, after).contains(parts)
            <==> scan_outcome(world, scan).contains(parts) by {
            lemma_tasks_concat(world, rest, seq![task], scan.fw_dir, parts);
            lemma_one_task(world, task, scan.fw_dir, parts);
            match task {
                TaskView::Module(path) => {
                    let names = (world.names)(path);
                    lemma_name_tasks(world, names, scan.fw_dir, parts);
                    lemma_tasks_concat(world, rest, name_tasks(names), scan.fw_dir, parts);
                },
                TaskView::Name(name) => {
                    let files = files_named(world, name, scan.fw_dir);
                    lemma_file_tasks(world, files, scan.fw_dir, parts);
                    lemma_tasks_concat(
                        world,
                        rest,
                        file_tasks(files, scan.fw_dir),
                        scan.fw_dir,
                        parts,
                    );
                },
                TaskView::Walk(walk) => {
                    assert(scan.tasks[scan.tasks.len() - 1] == task);
                    law_walk_resolves_symlinks(world.links, walk.current, walk.base, walk);
                    let next = match reply {
                        ScanReply::Inspect(Ok(target)) => after_inspection(
                            walk,
                            target_text(target),
                        ),
                        ScanReply::CheckExists(exists) => after_check(walk, exists),
                        _ => walk,
                    };
                    let parted = seq![TaskView::Walk(next)];
                    assert(rest.push(TaskView::Walk(next)) =~= rest + parted);
                    lemma_tasks_concat(world, rest, parted, scan.fw_dir, parts);
                    lemma_one_task(world, TaskView::Walk(next), scan.fw_dir, parts);
                },
                TaskView::Trace(trace) => {
                    assert(scan.tasks[scan.tasks.len() - 1] == task);
                    lemma_trace_step(world, trace, scan.fw_dir, parts);
                    if let Some(next) = trace_next(trace, (world.places)(trace.current)) {
                        let parted = seq![TaskView::Trace(next)];
                        assert(rest.push(TaskView::Trace(next)) =~= rest + parted);
                        lemma_tasks_concat(world, rest, parted, scan.fw_dir, parts);
                        lemma_one_task(world, TaskView::Trace(next), scan.fw_dir, parts);
                    }
                },
            }
        }
        assert(scan_outcome(world, after) =~= scan_outcome(world, scan));
    }
}

/// Whether every walk among the tasks can go on.
pub open spec fn walks_go_on(scan: ScanView) -> bool {
    forall|i: int|
        0 <= i < scan.tasks.len() ==> match #[trigger] scan.tasks[i] {
            TaskView::Walk(walk) => walk.hops > 0 && !(walk.stage is Done),
            TaskView::Trace(trace) => trace.hops > 0,
            _ => true,
        }
}

/// Scanning the modules in two parts finds what scanning them together does.
pub proof fn law_scans_add_up(
    world: ScanWorld,
    a: Seq<Seq<char>>,
    b: Seq<Seq<char>>,
    fw_dir: Seq<char>,
)
    ensures
        required_firmware(world, a + b, fw_dir) == required_firmware(world, a, fw_dir).union(
            required_firmware(world, b, fw_dir),
        ),
{
    assert forall|parts: Seq<Seq<char>>|
        needed_by_modules(world, a + b, fw_dir, parts) <==> needed_by_modules(
            world,
            a,
            fw_dir,
            parts,
        ) || needed_by_modules(world, b, fw_dir, parts) by {
        if needed_by_modules(world, a, fw_dir, parts) {
            let i = choose|i: int|
                0 <= i < a.len() && needed_by_names(
                    world,
                    (world.names)(#[trigger] a[i]),
                    fw_dir,
                    parts,
                );
            assert((a + b)[i] == a[i]);
        }
        if needed_by_modules(world, b, fw_dir, parts) {
            let i = choose|i: int|
                0 <= i < b.len() && needed_by_names(
                    world,
                    (world.names)(#[trigger] b[i]),
                    fw_dir,
                    parts,
                );
            assert((a + b)[a.len() + i] == b[i]);
        }
        if needed_by_modules(world, a + b, fw_dir, parts) {
            let i = choose|i: int|
                0 <= i < (a + b).len() && needed_by_names(
                    world,
                    (world.names)(#[trigger] (a + b)[i]),
                    fw_dir,
                    parts,
                );
            if i < a.len() {
                assert((a + b)[i] == a[i]);
            } else {
                assert((a + b)[i] == b[i - a.len()]);
            }
        }
    }
    assert(required_firmware(world, a + b, fw_dir) =~= required_firmware(world, a, fw_dir).union(
        required_firmware(world, b, fw_dir),
    ));
}

/// What is found when each chunk of modules is scanned on its own.
pub open spec fn merged_requirements(
    world: ScanWorld,
    chunks: Seq<Seq<Seq<char>>>,
    fw_dir: Seq<char>,
) -> Set<Seq<Seq<char>>>
    decreases chunks.len(),
{
    if chunks.len() == 0 {
        Set::empty()
    } else {
        merged_requirements(world, chunks.drop_last(), fw_dir).union(
            required_firmware(world, chunks.last(), fw_dir),
        )
    }
}

proof fn lemma_merged_requirements(
    world: ScanWorld,
    chunks: Seq<Seq<Seq<char>>>,
    fw_dir: Seq<char>,
)
    ensures
        merged_requirements(world, chunks, fw_dir) == required_firmware(
            world,
            unchunked(chunks),
            fw_dir,
        ),
    decreases chunks.len(),
{
    if chunks.len() == 0 {
        assert(merged_requirements(world, chunks, fw_dir) =~= required_firmware(
            world,
            unchunked(chunks),
            fw_dir,
        ));
    } else {
        lemma_merged_requirements(world, chunks.drop_last(), fw_dir);
        law_scans_add_up(world, unchunked(chunks.drop_last()), chunks.last(), fw_dir);
    }
}

/// Whether `file` is one of the files that the module may ask for.
pub open spec fn is_asked_for(
    world: ScanWorld,
    module: Seq<char>,
    fw_dir: Seq<char>,
    file: Seq<char>,
) -> bool {
    exists|n: int|
        0 <= n < (world.names)(module).len() && files_named(
            world,
            #[trigger] (world.names)(module)[n],
            fw_dir,
        ).contains(file)
}

/// Every file that a module may ask for is required where it really stands,
/// and so is every link on the way, as far as they stand in the firmware
/// directory. It does not matter through which links the file is reached, nor
/// how the directory is spelled.
pub proof fn law_files_are_required_where_they_stand(
    world: ScanWorld,
    modules: Seq<Seq<char>>,
    fw_dir: Seq<char>,
    module: Seq<char>,
    file: Seq<char>,
)
    requires
        modules.contains(module),
        is_asked_for(world, module, fw_dir, file),
    ensures
        required_firmware(world, modules, fw_dir).contains(components(file)),
        forall|k: int|
            0 <= k < trail(world.places, file, MAX_LINKS as nat).len() && is_below(
                #[trigger] trail(world.places, file, MAX_LINKS as nat)[k],
                world.real_dir,
            ) ==> required_firmware(world, modules, fw_dir).contains(
                components(
                    spelled_in(
                        fw_dir,
                        world.real_dir,
                        trail(world.places, file, MAX_LINKS as nat)[k],
                    ),
                ),
            ),
        real_path(world.places, file, MAX_LINKS as nat) matches Some(end) ==> is_below(
            end,
            world.real_dir,
        ) ==> required_firmware(world, modules, fw_dir).contains(
            components(spelled_in(fw_dir, world.real_dir, end)),
        ),
{
    let steps = trail(world.places, file, MAX_LINKS as nat);
    assert forall|parts: Seq<Seq<char>>| needed_by_file(
        world,
        file,
        fw_dir,
        parts,
    ) implies required_firmware(world, modules, fw_dir).contains(parts) by {
        lemma_asked_for_is_required(world, modules, fw_dir, module, file, parts);
    }
    let chain = resolve_symlinks(world.links, file, fw_dir);
    assert(chain[0] == file);
    assert(all_components(chain)[0] == components(file));
    assert(needed_by_file(world, file, fw_dir, components(file)));
    assert forall|k: int| 0 <= k < steps.len() && is_below(
        #[trigger] steps[k],
        world.real_dir,
    ) implies required_firmware(world, modules, fw_dir).contains(
        components(spelled_in(fw_dir, world.real_dir, steps[k])),
    ) by {
        let parts = components(spelled_in(fw_dir, world.real_dir, steps[k]));
        assert(is_on_trail(steps, fw_dir, world.real_dir, parts));
        assert(needed_by_file(world, file, fw_dir, parts));
    }
    if real_path(world.places, file, MAX_LINKS as nat) is Some {
        law_trail_ends_at_real_path(world.places, file, MAX_LINKS as nat);
        assert(steps[steps.len() - 1] == steps.last());
    }
}

proof fn lemma_asked_for_is_required(
    world: ScanWorld,
    modules: Seq<Seq<char>>,
    fw_dir: Seq<char>,
    module: Seq<char>,
    file: Seq<char>,
    parts: Seq<Seq<char>>,
)
    requires
        modules.contains(module),
        is_asked_for(world, module, fw_dir, file),
        needed_by_file(world, file, fw_dir, parts),
    ensures
        required_firmware(world, modules, fw_dir).contains(parts),
{
    let names = (world.names)(module);
    let n = choose|n: int|
        0 <= n < names.len() && files_named(world, #[trigger] names[n], fw_dir).contains(file);
    let files = files_named(world, names[n], fw_dir);
    let f = choose|f: int| 0 <= f < files.len() && files[f] == file;
    assert(needed_by_file(world, files[f], fw_dir, parts));
    assert(needed_by_files(world, files, fw_dir, parts));
    assert(needed_by_names(world, names, fw_dir, parts));
    let m = choose|m: int| 0 <= m < modules.len() && modules[m] == module;
    assert(needed_by_names(world, (world.names)(modules[m]), fw_dir, parts));
}

/// Whether a walk from `path` comes to a path that cannot be looked at.
pub open spec fn chain_fails(
    world: ScanWorld,
    path: Seq<char>,
    base: Seq<char>,
    hops: nat,
) -> bool
    decreases hops,
{
    if hops == 0 {
        false
    } else if (world.unseen)(path) {
        true
    } else {
        match (world.links.target)(path) {
            Some(target) => {
                let next = link_destination(path, target);
                is_below(next, base) && (world.links.exists)(next) && chain_fails(
                    world,
                    next,
                    base,
                    (hops - 1) as nat,
                )
            },
            None => false,
        }
    }
}

/// Whether one of the files cannot be followed.
pub open spec fn files_fail(world: ScanWorld, files: Seq<Seq<char>>, fw_dir: Seq<char>) -> bool {
    exists|i: int|
        0 <= i < files.len() && chain_fails(world, #[trigger] files[i], fw_dir, MAX_HOPS as nat)
}

/// Whether a file with one of the names cannot be followed.
pub open spec fn names_fail(world: ScanWorld, names: Seq<Seq<char>>, fw_dir: Seq<char>) -> bool {
    exists|i: int|
        0 <= i < names.len() && files_fail(
            world,
            files_named(world, #[trigger] names[i], fw_dir),
            fw_dir,
        )
}

/// Whether the scan of a module fails: it does not tell the names of its
/// firmware, or a file of that firmware cannot be followed.
pub open spec fn module_fails(world: ScanWorld, module: Seq<char>, fw_dir: Seq<char>) -> bool {
    (world.mute)(module) || names_fail(world, (world.names)(module), fw_dir)
}

/// Whether the scan of the modules fails: that of one of them does.
pub open spec fn scan_fails(
    world: ScanWorld,
    modules: Seq<Seq<char>>,
    fw_dir: Seq<char>,
) -> bool {
    exists|i: int| 0 <= i < modules.len() && module_fails(world, #[trigger] modules[i], fw_dir)
}

/// Whether a task fails.
pub open spec fn task_fails(world: ScanWorld, task: TaskView, fw_dir: Seq<char>) -> bool {
    match task {
        TaskView::Module(path) => module_fails(world, path, fw_dir),
        TaskView::Name(name) => files_fail(world, files_named(world, name, fw_dir), fw_dir),
        TaskView::Walk(walk) => match walk.stage {
            LinkStage::Inspecting => chain_fails(world, walk.current, walk.base, walk.hops),
            LinkStage::Checking => (world.links.exists)(walk.current) && chain_fails(
                world,
                walk.current,
                walk.base,
                (walk.hops - 1) as nat,
            ),
            LinkStage::Done => false,
        },
        TaskView::Trace(_) => false,
    }
}

/// Whether one of the tasks fails.
pub open spec fn tasks_fail(world: ScanWorld, tasks: Seq<TaskView>, fw_dir: Seq<char>) -> bool {
    exists|i: int| 0 <= i < tasks.len() && task_fails(world, #[trigger] tasks[i], fw_dir)
}

proof fn lemma_fail_concat(
    world: ScanWorld,
    a: Seq<TaskView>,
    b: Seq<TaskView>,
    fw_dir: Seq<char>,
)
    ensures
        tasks_fail(world, a + b, fw_dir) <==> tasks_fail(world, a, fw_dir) || tasks_fail(
            world,
            b,
            fw_dir,
        ),
{
    if tasks_fail(world, a, fw_dir) {
        let i = choose|i: int| 0 <= i < a.len() && task_fails(world, #[trigger] a[i], fw_dir);
        assert((a + b)[i] == a[i]);
    }
    if tasks_fail(world, b, fw_dir) {
        let i = choose|i: int| 0 <= i < b.len() && task_fails(world, #[trigger] b[i], fw_dir);
        assert((a + b)[a.len() + i] == b[i]);
    }
    if tasks_fail(world, a + b, fw_dir) {
        let i = choose|i: int|
            0 <= i < (a + b).len() && task_fails(world, #[trigger] (a + b)[i], fw_dir);
        if i < a.len() {
            assert((a + b)[i] == a[i]);
        } else {
            assert((a + b)[i] == b[i - a.len()]);
        }
    }
}

proof fn lemma_fail_modules(world: ScanWorld, modules: Seq<Seq<char>>, fw_dir: Seq<char>)
    ensures
        tasks_fail(world, module_tasks(modules), fw_dir) <==> scan_fails(world, modules, fw_dir),
{
    let tasks = module_tasks(modules);
    if tasks_fail(world, tasks, fw_dir) {
        let i = choose|i: int| 0 <= i < tasks.len() && task_fails(world, #[trigger] tasks[i], fw_dir);
        assert(tasks[i] == TaskView::Module(modules[modules.len() - 1 - i]));
    }
    if scan_fails(world, modules, fw_dir) {
        let i = choose|i: int|
            0 <= i < modules.len() && module_fails(world, #[trigger] modules[i], fw_dir);
        assert(tasks[modules.len() - 1 - i] == TaskView::Module(modules[i]));
    }
}

proof fn lemma_fail_names(world: ScanWorld, names: Seq<Seq<char>>, fw_dir: Seq<char>)
    ensures
        tasks_fail(world, name_tasks(names), fw_dir) <==> names_fail(world, names, fw_dir),
{
    let tasks = name_tasks(names);
    if tasks_fail(world, tasks, fw_dir) {
        let i = choose|i: int| 0 <= i < tasks.len() && task_fails(world, #[trigger] tasks[i], fw_dir);
        assert(tasks[i] == TaskView::Name(names[names.len() - 1 - i]));
    }
    if names_fail(world, names, fw_dir) {
        let i = choose|i: int|
            0 <= i < names.len() && files_fail(
                world,
                files_named(world, #[trigger] names[i], fw_dir),
                fw_dir,
            );
        assert(tasks[names.len() - 1 - i] == TaskView::Name(names[i]));
    }
}

proof fn lemma_fail_files(world: ScanWorld, files: Seq<Seq<char>>, fw_dir: Seq<char>)
    ensures
        tasks_fail(world, file_tasks(files, fw_dir), fw_dir) <==> files_fail(world, files, fw_dir),
{
    let (traces, walks) = (trace_tasks(files), walk_tasks(files, fw_dir));
    lemma_fail_concat(world, traces, walks, fw_dir);
    if tasks_fail(world, traces, fw_dir) {
        let i = choose|i: int|
            0 <= i < traces.len() && task_fails(world, #[trigger] traces[i], fw_dir);
        assert(traces[i] == TaskView::Trace(trace_start(files[files.len() - 1 - i])));
    }
    if tasks_fail(world, walks, fw_dir) {
        let i = choose|i: int| 0 <= i < walks.len() && task_fails(world, #[trigger] walks[i], fw_dir);
        assert(walks[i] == TaskView::Walk(walk_start(files[files.len() - 1 - i], fw_dir)));
    }
    if files_fail(world, files, fw_dir) {
        let i = choose|i: int|
            0 <= i < files.len() && chain_fails(
                world,
                #[trigger] files[i],
                fw_dir,
                MAX_HOPS as nat,
            );
        assert(walks[files.len() - 1 - i] == TaskView::Walk(walk_start(files[i], fw_dir)));
    }
}

/// A scan fails exactly where the scan of one of its modules does: it sets out
/// so, true replies do not change what is to come, a failure comes only where
/// one was to come, and a scan that is over has not failed.
#[verifier::rlimit(30)]
pub proof fn law_scan_fails_where_a_module_does(
    world: ScanWorld,
    modules: Seq<Seq<char>>,
    fw_dir: Seq<char>,
    scan: ScanView,
    reply: ScanReply,
)
    ensures
        tasks_fail(world, scan_start(modules, fw_dir, world.real_dir).tasks, fw_dir) <==> scan_fails(
            world,
            modules,
            fw_dir,
        ),
        answers(reply, scan) && is_true_reply(world, scan, reply) && walks_go_on(scan) ==> {
            let after = after_reply(scan, reply);
            if is_failure(reply) {
                tasks_fail(world, scan.tasks, scan.fw_dir)
            } else {
                tasks_fail(world, after.tasks, scan.fw_dir) <==> tasks_fail(
                    world,
                    scan.tasks,
                    scan.fw_dir,
                )
            }
        },
        scan.tasks.len() == 0 ==> !tasks_fail(world, scan.tasks, scan.fw_dir),
{
    lemma_fail_modules(world, modules, fw_dir);
    if answers(reply, scan) && is_true_reply(world, scan, reply) && walks_go_on(scan) {
        let dir = scan.fw_dir;
        let rest = scan.tasks.drop_last();
        let task = scan.tasks.last();
        let one = seq![task];
        assert(scan.tasks =~= rest + one);
        assert(one[0] == task);
        assert(scan.tasks[scan.tasks.len() - 1] == task);
        lemma_fail_concat(world, rest, one, dir);
        assert(tasks_fail(world, one, dir) <==> task_fails(world, task, dir));
        match (task, reply) {
            (TaskView::Module(path), ScanReply::Names(Ok(names))) => {
                lemma_fail_names(world, (world.names)(path), dir);
                lemma_fail_concat(world, rest, name_tasks((world.names)(path)), dir);
            },
            (TaskView::Name(name), ScanReply::Search(_)) => {
                let files = files_named(world, name, dir);
                lemma_fail_files(world, files, dir);
                lemma_fail_concat(world, rest, file_tasks(files, dir), dir);
            },
            (TaskView::Walk(walk), ScanReply::Inspect(Ok(target))) => {
                let next = seq![TaskView::Walk(after_inspection(walk, target_text(target)))];
                assert(next[0] == TaskView::Walk(after_inspection(walk, target_text(target))));
                assert(rest.push(next[0]) =~= rest + next);
                lemma_fail_concat(world, rest, next, dir);
                assert(tasks_fail(world, next, dir) <==> task_fails(world, next[0], dir));
            },
            (TaskView::Walk(walk), ScanReply::CheckExists(exists)) => {
                let next = seq![TaskView::Walk(after_check(walk, exists))];
                assert(next[0] == TaskView::Walk(after_check(walk, exists)));
                assert(rest.push(next[0]) =~= rest + next);
                lemma_fail_concat(world, rest, next, dir);
                assert(tasks_fail(world, next, dir) <==> task_fails(world, next[0], dir));
            },
            (TaskView::Trace(trace), ScanReply::Locate(place)) => {
                if let Some(further) = trace_next(trace, place_view(place)) {
                    let next = seq![TaskView::Trace(further)];
                    assert(next[0] == TaskView::Trace(further));
                    assert(rest.push(next[0]) =~= rest + next);
                    lemma_fail_concat(world, rest, next, dir);
                    assert(!tasks_fail(world, next, dir));
                }
            },
            _ => {},
        }
    }
}

/// Whether the scan of one of the chunks fails.
pub open spec fn chunks_fail(
    world: ScanWorld,
    chunks: Seq<Seq<Seq<char>>>,
    fw_dir: Seq<char>,
) -> bool {
    exists|k: int| 0 <= k < chunks.len() && scan_fails(world, #[trigger] chunks[k], fw_dir)
}

proof fn lemma_unchunked_fails(
    world: ScanWorld,
    chunks: Seq<Seq<Seq<char>>>,
    fw_dir: Seq<char>,
)
    ensures
        chunks_fail(world, chunks, fw_dir) <==> scan_fails(world, unchunked(chunks), fw_dir),
    decreases chunks.len(),
{
    if chunks.len() > 0 {
        let (front, last) = (chunks.drop_last(), chunks.last());
        lemma_unchunked_fails(world, front, fw_dir);
        let (a, whole) = (unchunked(front), unchunked(chunks));
        if chunks_fail(world, chunks, fw_dir) {
            let k = choose|k: int|
                0 <= k < chunks.len() && scan_fails(world, #[trigger] chunks[k], fw_dir);
            if k < front.len() {
                assert(front[k] == chunks[k]);
                assert(chunks_fail(world, front, fw_dir));
                let i = choose|i: int|
                    0 <= i < a.len() && module_fails(world, #[trigger] a[i], fw_dir);
                assert(whole[i] == a[i]);
            } else {
                let i = choose|i: int|
                    0 <= i < last.len() && module_fails(world, #[trigger] last[i], fw_dir);
                assert(whole[a.len() + i] == last[i]);
            }
        }
        if scan_fails(world, whole, fw_dir) {
            let i = choose|i: int|
                0 <= i < whole.len() && module_fails(world, #[trigger] whole[i], fw_dir);
            if i < a.len() {
                assert(a[i] == whole[i]);
                assert(scan_fails(world, a, fw_dir));
                let k = choose|k: int|
                    0 <= k < front.len() && scan_fails(world, #[trigger] front[k], fw_dir);
                assert(chunks[k] == front[k]);
            } else {
                assert(last[i - a.len()] == whole[i]);
                assert(scan_fails(world, chunks[chunks.len() - 1], fw_dir));
            }
        }
    }
}

/// A scan in chunks fails exactly where the scan of all modules together
/// does, and finds the same where neither does.
pub proof fn law_chunked_scan_is_whole_scan(
    world: ScanWorld,
    modules: Seq<Seq<char>>,
    size: nat,
    fw_dir: Seq<char>,
)
    ensures
        chunks_fail(world, chunked(modules, size), fw_dir) <==> scan_fails(
            world,
            modules,
            fw_dir,
        ),
        merged_requirements(world, chunked(modules, size), fw_dir) == required_firmware(
            world,
            modules,
            fw_dir,
        ),
{
    lemma_unchunked_fails(world, chunked(modules, size), fw_dir);
    lemma_merged_requirements(world, chunked(modules, size), fw_dir);
    law_chunks_hold_all_items(modules, size);
}

/// Whether a path is where the firmware of a name is looked for: in the
/// firmware directory under the name, or under the name followed by `.xz` or
/// by `.zst`.
pub open spec fn is_looked_for(path: Seq<char>, name: Seq<char>, fw_dir: Seq<char>) -> bool {
    ||| path == joined(fw_dir, name)
    ||| path == joined(fw_dir, name) + seq!['.', 'x', 'z']
    ||| path == joined(fw_dir, name) + seq!['.', 'z', 's', 't']
}

/// Whether a system holds `file` for the firmware of a name: it exists where
/// the name is looked for, or, where the name has an asterisk, it matches.
pub open spec fn is_held_for(
    world: ScanWorld,
    file: Seq<char>,
    name: Seq<char>,
    fw_dir: Seq<char>,
) -> bool {
    if name.contains('*') {
        exists|pattern: Seq<char>|
            is_looked_for(pattern, name, fw_dir) && (#[trigger] (world.matched)(pattern)).contains(
                file,
            )
    } else {
        is_looked_for(file, name, fw_dir) && (world.links.exists)(file)
    }
}

proof fn lemma_files_named(
    world: ScanWorld,
    file: Seq<char>,
    name: Seq<char>,
    fw_dir: Seq<char>,
)
    ensures
        files_named(world, name, fw_dir).contains(file) ==> is_held_for(world, file, name, fw_dir),
        is_held_for(world, file, name, fw_dir) ==> exists|same: Seq<char>| #[trigger]
            files_named(world, name, fw_dir).contains(same) && components(same) == components(file),
        is_held_for(world, file, name, fw_dir) && !name.contains('*') ==> files_named(
            world,
            name,
            fw_dir,
        ).contains(file),
{
    let paths = variants(joined(fw_dir, name));
    lemma_variants(joined(fw_dir, name));
    if name.contains('*') {
        let lists = paths.map_values(world.matched);
        lemma_all_matches(lists, file);
        lemma_distinct(all_matches(lists), file);
        if files_named(world, name, fw_dir).contains(file) {
            let v = choose|v: int| 0 <= v < lists.len() && (#[trigger] lists[v]).contains(file);
            assert((world.matched)(paths[v]).contains(file));
        }
        if is_held_for(world, file, name, fw_dir) {
            let pattern = choose|pattern: Seq<char>|
                is_looked_for(pattern, name, fw_dir) && (
                #[trigger] (world.matched)(pattern)).contains(file);
            let v = if pattern == paths[0] {
                0int
            } else if pattern == paths[1] {
                1int
            } else {
                2int
            };
            assert(lists[v].contains(file));
        }
    } else {
        let flags = paths.map_values(world.links.exists);
        lemma_picked(paths, flags, file);
        if files_named(world, name, fw_dir).contains(file) {
            let v = choose|v: int| 0 <= v < paths.len() && #[trigger] flags[v] && paths[v] == file;
            assert(v == 0 || v == 1 || v == 2);
        }
        if is_held_for(world, file, name, fw_dir) {
            let v = if file == paths[0] {
                0int
            } else if file == paths[1] {
                1int
            } else {
                2int
            };
            assert(flags[v] && paths[v] == file);
        }
    }
}

/// Firmware that a module names is required: every file that the system holds
/// for the name, compressed or not, and, where the name has no asterisk, all
/// that its links lead to in the firmware directory.
pub proof fn law_named_firmware_is_required(
    world: ScanWorld,
    modules: Seq<Seq<char>>,
    fw_dir: Seq<char>,
    module: Seq<char>,
    name: Seq<char>,
    file: Seq<char>,
)
    requires
        modules.contains(module),
        (world.names)(module).contains(name),
        is_held_for(world, file, name, fw_dir),
    ensures
        required_firmware(world, modules, fw_dir).contains(components(file)),
        !name.contains('*') ==> forall|k: int|
            0 <= k < resolve_symlinks(world.links, file, fw_dir).len() ==> required_firmware(
                world,
                modules,
                fw_dir,
            ).contains(components(#[trigger] resolve_symlinks(world.links, file, fw_dir)[k])),
{
    lemma_files_named(world, file, name, fw_dir);
    let names = (world.names)(module);
    let n = choose|n: int| 0 <= n < names.len() && names[n] == name;
    let same = choose|same: Seq<char>| #[trigger]
        files_named(world, name, fw_dir).contains(same) && components(same) == components(file);
    assert(files_named(world, names[n], fw_dir).contains(same));
    assert(is_asked_for(world, module, fw_dir, same));
    law_files_are_required_where_they_stand(world, modules, fw_dir, module, same);
    if !name.contains('*') {
        let chain = resolve_symlinks(world.links, file, fw_dir);
        assert(files_named(world, names[n], fw_dir).contains(file));
        assert(is_asked_for(world, module, fw_dir, file));
        assert forall|k: int| 0 <= k < chain.len() implies required_firmware(
            world,
            modules,
            fw_dir,
        ).contains(components(#[trigger] chain[k])) by {
            assert(all_components(chain)[k] == components(chain[k]));
            assert(needed_by_file(world, file, fw_dir, components(chain[k])));
            lemma_asked_for_is_required(
                world,
                modules,
                fw_dir,
                module,
                file,
                components(chain[k]),
            );
        }
    }
}

/// Whether the path with these components is reached from a file: a link leads
/// to it, or a trace comes to where it stands in the firmware directory.
pub open spec fn is_reached_from(
    world: ScanWorld,
    file: Seq<char>,
    fw_dir: Seq<char>,
    parts: Seq<Seq<char>>,
) -> bool {
    let chain = resolve_symlinks(world.links, file, fw_dir);
    let stops = trail(world.places, file, MAX_LINKS as nat);
    ||| exists|k: int| 0 <= k < chain.len() && components(#[trigger] chain[k]) == parts
    ||| exists|k: int|
        0 <= k < stops.len() && is_below(#[trigger] stops[k], world.real_dir) && components(
            spelled_in(fw_dir, world.real_dir, stops[k]),
        ) == parts
}

/// Nothing but firmware that a module names is required: what is required is a
/// file that the system holds for such a name, or its links lead to it, or a
/// trace of it comes to where it stands in the firmware directory.
pub proof fn law_only_named_firmware_is_required(
    world: ScanWorld,
    modules: Seq<Seq<char>>,
    fw_dir: Seq<char>,
    parts: Seq<Seq<char>>,
) -> (res: (Seq<char>, Seq<char>, Seq<char>))
    requires
        required_firmware(world, modules, fw_dir).contains(parts),
    ensures
        modules.contains(res.0),
        (world.names)(res.0).contains(res.1),
        is_held_for(world, res.2, res.1, fw_dir),
        is_reached_from(world, res.2, fw_dir, parts),
{
    let m = choose|m: int|
        0 <= m < modules.len() && needed_by_names(
            world,
            (world.names)(#[trigger] modules[m]),
            fw_dir,
            parts,
        );
    let names = (world.names)(modules[m]);
    let n = choose|n: int|
        0 <= n < names.len() && needed_by_files(
            world,
            files_named(world, #[trigger] names[n], fw_dir),
            fw_dir,
            parts,
        );
    let files = files_named(world, names[n], fw_dir);
    let f = choose|f: int|
        0 <= f < files.len() && needed_by_file(world, #[trigger] files[f], fw_dir, parts);
    assert(files.contains(files[f]));
    lemma_files_named(world, files[f], names[n], fw_dir);
    let chain = resolve_symlinks(world.links, files[f], fw_dir);
    if all_components(chain).contains(parts) {
        let k = choose|k: int|
            0 <= k < all_components(chain).len() && all_components(chain)[k] == parts;
        assert(components(chain[k]) == parts);
    } else {
        let stops = trail(world.places, files[f], MAX_LINKS as nat);
        assert(is_on_trail(stops, fw_dir, world.real_dir, parts));
        let k = choose|k: int|
            0 <= k < stops.len() && is_below(#[trigger] stops[k], world.real_dir) && components(
                spelled_in(fw_dir, world.real_dir, stops[k]),
            ) == parts;
        assert(is_below(stops[k], world.real_dir));
    }
    assert(is_reached_from(world, files[f], fw_dir, parts));
    (modules[m], names[n], files[f])
}

/// Whatever a scan is truly told, unless that is a failure, it will have found
/// the same in the end, and where it begins that is the firmware that its
/// modules may ask for.
pub proof fn law_told_scans_keep_their_outcome(
    world: ScanWorld,
    modules: &Vec<String>,
    fw_dir: &str,
    real_dir: &str,
    begun: RequiredScan,
    before: RequiredScan,
    after: RequiredScan,
    reply: ScanReply,
    res: Result<(), JanitorError>,
)
    requires
        world.real_dir == real_dir@,
        call_ensures(RequiredScan::new, (modules, fw_dir, real_dir), begun),
        before.wf(),
        before@.real_dir == real_dir@,
        answers(reply, before@),
        is_true_reply(world, before@, reply),
        exists|scan: &mut RequiredScan|
            *scan == before && *final(scan) == after && #[trigger] call_ensures(
                RequiredScan::handle,
                (scan, reply),
                res,
            ),
    ensures
        begun@.real_dir == real_dir@,
        scan_outcome(world, begun@) == required_firmware(world, texts(modules@), fw_dir@),
        after.wf(),
        after@.real_dir == before@.real_dir,
        after@.fw_dir == before@.fw_dir,
        res is Ok <==> !is_failure(reply),
        res is Ok ==> scan_outcome(world, after@) == scan_outcome(world, before@),
        before@.tasks.len() == 0 ==> before@.required == scan_outcome(world, before@),
{
    before.lemma_walks_go_on();
    law_scan_finds_required_firmware(world, texts(modules@), fw_dir@, before@, reply);
}

} // verus!
