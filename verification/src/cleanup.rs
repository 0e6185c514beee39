//! Firmware cleanup: which files, links and directories go, and in which
//! order.
use crate::error::JanitorError;
use crate::firmware::WalkEntry;
use crate::path::{
    components, components_below, depth, is_below, is_plain_name, law_below_is_same_beginning,
    law_paths_inside_are_their_names, law_spelling_keeps_the_place, lemma_components_form,
    lemma_rendered_components, relative_to, same_path, spelled_in,
};
use crate::path_set::{is_seen_from, lemma_tail_form, PathSet};
use crate::required::{
    is_asked_for, law_files_are_required_where_they_stand, required_firmware, ScanWorld,
};
use crate::text::spliced;
use crate::trace::{real_path, trail, MAX_LINKS};
use vstd::prelude::*;

verus! {

/// A pass of the firmware cleanup.
#[derive(Debug, PartialEq, Eq, Structural)]
pub enum CleanupPass {
    /// Look for files that are not required.
    UnusedFiles,
    /// Remove the links that lead nowhere.
    DanglingSymlinks,
    /// Remove the directories that hold nothing.
    EmptyDirectories,
}

/// The passes of a firmware cleanup, in order. Where nothing is deleted,
/// unused files are only looked for. Removing empty directories can leave
/// links that lead nowhere, so these are removed before and after.
pub open spec fn cleanup_passes(delete: bool) -> Seq<CleanupPass> {
    if delete {
        seq![
            CleanupPass::UnusedFiles,
            CleanupPass::DanglingSymlinks,
            CleanupPass::EmptyDirectories,
            CleanupPass::DanglingSymlinks,
        ]
    } else {
        seq![CleanupPass::UnusedFiles]
    }
}

/// A firmware cleanup: the scan for unused files, and the passes to make.
pub struct FirmwarePlan {
    pub scan: UnusedScan,
    pub passes: Vec<CleanupPass>,
}

/// Plans the cleanup of a firmware directory in which the files at the paths
/// `required` are needed.
pub fn cleanup_firmware(required: &PathSet, fw_dir: &str, delete: bool) -> (plan: FirmwarePlan)
    requires
        required.wf(),
        required.all_below(fw_dir@),
    ensures
        plan.scan.wf(),
        plan.scan@.fw_dir == fw_dir@,
        plan.scan@.delete == delete,
        plan.scan@.size == 0,
        is_seen_from(required@, plan.scan@.required, fw_dir@),
        plan.passes@ == cleanup_passes(delete),
{
    let mut passes: Vec<CleanupPass> = Vec::new();
    passes.push(CleanupPass::UnusedFiles);
    if delete {
        passes.push(CleanupPass::DanglingSymlinks);
        passes.push(CleanupPass::EmptyDirectories);
        passes.push(CleanupPass::DanglingSymlinks);
    }
    let scan = UnusedScan::new(fw_dir, required.relative(fw_dir), delete);
    FirmwarePlan { scan, passes }
}

/// What becomes of a file in the firmware directory.
#[derive(Debug, PartialEq, Eq, Structural)]
pub enum FileVerdict {
    /// It stays.
    Leave,
    /// It is unused, and counted.
    Count,
    /// It is unused, counted and removed.
    Remove,
}

/// Whether what is at `path` in the firmware directory is an unused file: no
/// file is required at the path as seen from the directory.
pub open spec fn is_unused(
    path: Seq<char>,
    is_file: bool,
    fw_dir: Seq<char>,
    required: Set<Seq<Seq<char>>>,
) -> bool {
    is_file && !required.contains(components_below(path, fw_dir))
}

/// What becomes of a file, by whether it is unused.
pub open spec fn verdict_on(unused: bool, delete: bool) -> FileVerdict {
    if !unused {
        FileVerdict::Leave
    } else if delete {
        FileVerdict::Remove
    } else {
        FileVerdict::Count
    }
}

/// Says what becomes of what is at `path` in the firmware directory, when the
/// files at the paths `required`, as seen from the directory, are needed.
pub fn judge_file(
    path: &str,
    is_file: bool,
    fw_dir: &str,
    required: &PathSet,
    delete: bool,
) -> (verdict: FileVerdict)
    requires
        required.wf(),
        is_file ==> is_below(path@, fw_dir@),
    ensures
        verdict == verdict_on(is_unused(path@, is_file, fw_dir@, required@), delete),
{
    if !is_file {
        return FileVerdict::Leave;
    }
    let relative = relative_to(path, fw_dir);
    proof {
        lemma_components_form(path@);
        lemma_tail_form(components(path@), components(fw_dir@).len() as int);
        lemma_rendered_components(components_below(path@, fw_dir@));
    }
    if required.contains(relative.as_str()) {
        FileVerdict::Leave
    } else if delete {
        FileVerdict::Remove
    } else {
        FileVerdict::Count
    }
}

/// Where nothing is to be deleted, no file is removed; where files are, only
/// unused ones.
pub proof fn law_only_unused_files_are_removed(unused: bool, delete: bool)
    ensures
        verdict_on(unused, delete) is Remove <==> unused && delete,
        verdict_on(unused, delete) is Leave <==> !unused,
{
}

/// A file in the firmware directory is unused exactly where it is not among
/// the firmware that the modules may ask for, nor on the way of its links.
pub proof fn law_required_firmware_stays(
    world: ScanWorld,
    modules: Seq<Seq<char>>,
    fw_dir: Seq<char>,
    required: Set<Seq<Seq<char>>>,
    path: Seq<char>,
)
    requires
        is_seen_from(required_firmware(world, modules, fw_dir), required, fw_dir),
        is_below(path, fw_dir),
    ensures
        is_unused(path, true, fw_dir, required) <==> !required_firmware(
            world,
            modules,
            fw_dir,
        ).contains(components(path)),
{
}

/// Firmware that a module may ask for stays, whatever links lead to it and
/// however the firmware directory is spelled: where the file really stands,
/// and wherever a link on the way stands, nothing is unused.
pub proof fn law_used_firmware_stays(
    world: ScanWorld,
    modules: Seq<Seq<char>>,
    fw_dir: Seq<char>,
    required: Set<Seq<Seq<char>>>,
    module: Seq<char>,
    file: Seq<char>,
)
    requires
        is_seen_from(required_firmware(world, modules, fw_dir), required, fw_dir),
        modules.contains(module),
        is_asked_for(world, module, fw_dir, file),
        components(world.real_dir).len() > 0,
    ensures
        real_path(world.places, file, MAX_LINKS as nat) matches Some(end) ==> is_below(
            end,
            world.real_dir,
        ) ==> !is_unused(spelled_in(fw_dir, world.real_dir, end), true, fw_dir, required),
        forall|k: int|
            0 <= k < trail(world.places, file, MAX_LINKS as nat).len() && is_below(
                #[trigger] trail(world.places, file, MAX_LINKS as nat)[k],
                world.real_dir,
            ) ==> !is_unused(
                spelled_in(
                    fw_dir,
                    world.real_dir,
                    trail(world.places, file, MAX_LINKS as nat)[k],
                ),
                true,
                fw_dir,
                required,
            ),
{
    let steps = trail(world.places, file, MAX_LINKS as nat);
    law_files_are_required_where_they_stand(world, modules, fw_dir, module, file);
    assert forall|k: int| 0 <= k < steps.len() && is_below(
        #[trigger] steps[k],
        world.real_dir,
    ) implies !is_unused(
        spelled_in(fw_dir, world.real_dir, steps[k]),
        true,
        fw_dir,
        required,
    ) by {
        law_spelling_keeps_the_place(fw_dir, world.real_dir, steps[k]);
    }
    if let Some(end) = real_path(world.places, file, MAX_LINKS as nat) {
        if is_below(end, world.real_dir) {
            law_spelling_keeps_the_place(fw_dir, world.real_dir, end);
        }
    }
}

/// How much space files take.
#[derive(Debug)]
pub struct SizeTally {
    bytes: u64,
}

impl View for SizeTally {
    type V = nat;

    closed spec fn view(&self) -> nat {
        self.bytes as nat
    }
}

impl SizeTally {
    /// No space.
    pub fn new() -> (tally: SizeTally)
        ensures
            tally@ == 0,
    {
        SizeTally { bytes: 0 }
    }

    /// Counts a file of this size.
    pub fn count(&mut self, size: u64)
        requires
            old(self)@ + size <= u64::MAX,
        ensures
            final(self)@ == old(self)@ + size,
    {
        self.bytes = self.bytes + size;
    }

    /// The space in bytes.
    pub fn bytes(&self) -> (n: u64)
        ensures
            n == self@,
    {
        self.bytes
    }

    /// The space in whole mebibytes.
    pub fn mebibytes(&self) -> (n: u64)
        ensures
            n == self@ / 1048576,
    {
        let bytes = self.bytes;
        assert(bytes >> 20 == bytes / 1048576) by (bit_vector);
        bytes >> 20
    }
}

/// A visit to what is at a path in the firmware directory: what it is, and
/// how much space it takes.
pub struct Visit {
    pub path: Seq<char>,
    pub is_file: bool,
    pub size: nat,
}

/// The space that the unused files among those visited take.
pub open spec fn unused_size(
    visits: Seq<Visit>,
    fw_dir: Seq<char>,
    required: Set<Seq<Seq<char>>>,
) -> nat
    decreases visits.len(),
{
    if visits.len() == 0 {
        0
    } else {
        let last = visits.last();
        unused_size(visits.drop_last(), fw_dir, required) + if is_unused(
            last.path,
            last.is_file,
            fw_dir,
            required,
        ) {
            last.size
        } else {
            0
        }
    }
}

/// The pass that looks for unused files. The caller walks through the
/// firmware directory, visits what it finds, and removes what is to go before
/// it walks on.
pub struct UnusedScan {
    fw_dir: String,
    required: PathSet,
    delete: bool,
    tally: SizeTally,
}

/// The firmware directory, the paths that are required as seen from it,
/// whether unused files are removed, and the space that they take so far.
pub struct UnusedScanView {
    pub fw_dir: Seq<char>,
    pub required: Set<Seq<Seq<char>>>,
    pub delete: bool,
    pub size: nat,
}

impl View for UnusedScan {
    type V = UnusedScanView;

    closed spec fn view(&self) -> UnusedScanView {
        UnusedScanView {
            fw_dir: self.fw_dir@,
            required: self.required@,
            delete: self.delete,
            size: self.tally@,
        }
    }
}

impl UnusedScan {
    /// The set of required paths is in order.
    pub closed spec fn wf(&self) -> bool {
        self.required.wf()
    }

    /// A scan that has visited nothing.
    pub fn new(fw_dir: &str, required: PathSet, delete: bool) -> (scan: UnusedScan)
        requires
            required.wf(),
        ensures
            scan.wf(),
            scan@ == (UnusedScanView { fw_dir: fw_dir@, required: required@, delete, size: 0 }),
    {
        UnusedScan { fw_dir: fw_dir.to_owned(), required, delete, tally: SizeTally::new() }
    }

    /// Visits what is at `path`, and says what becomes of it. The size of an
    /// unused file is counted; where it could not be had, that is an error.
    pub fn visit(
        &mut self,
        path: &str,
        is_file: bool,
        size: Result<u64, std::io::Error>,
    ) -> (res: Result<FileVerdict, JanitorError>)
        requires
            old(self).wf(),
            is_file ==> is_below(path@, old(self)@.fw_dir),
            is_unused(path@, is_file, old(self)@.fw_dir, old(self)@.required) ==> (
            size matches Ok(bytes) ==> old(self)@.size + bytes <= u64::MAX),
        ensures
            final(self).wf(),
            ({
                let before = old(self)@;
                let unused = is_unused(path@, is_file, before.fw_dir, before.required);
                match res {
                    Ok(verdict) => {
                        &&& unused ==> size is Ok
                        &&& verdict == verdict_on(unused, before.delete)
                        &&& final(self)@ == (UnusedScanView {
                            size: before.size + if unused {
                                size->Ok_0 as nat
                            } else {
                                0
                            },
                            ..before
                        })
                    },
                    Err(e) => {
                        &&& unused
                        &&& size is Err
                        &&& e == JanitorError::Io(size->Err_0)
                        &&& final(self)@ == before
                    },
                }
            }),
    {
        let verdict = judge_file(
            path,
            is_file,
            self.fw_dir.as_str(),
            &self.required,
            self.delete,
        );
        if verdict != FileVerdict::Leave {
            match size {
                Ok(bytes) => {
                    self.tally.count(bytes);
                },
                Err(e) => {
                    return Err(JanitorError::Io(e));
                },
            }
        }
        Ok(verdict)
    }

    /// The space that the unused files take.
    pub fn savings(&self) -> (tally: &SizeTally)
        ensures
            tally@ == self@.size,
    {
        &self.tally
    }
}

/// The states of a scan that makes these visits, one after the other.
pub open spec fn is_scan_of(states: Seq<UnusedScanView>, visits: Seq<Visit>) -> bool {
    &&& states.len() == visits.len() + 1
    &&& states[0].size == 0
    &&& forall|i: int|
        0 <= i < visits.len() ==> {
            let before = #[trigger] states[i];
            let visit = visits[i];
            let unused = is_unused(visit.path, visit.is_file, before.fw_dir, before.required);
            states[i + 1] == (UnusedScanView {
                size: before.size + if unused {
                    visit.size
                } else {
                    0
                },
                ..before
            })
        }
}

/// A scan reports the space that all unused files together take, whether or
/// not they are removed.
pub proof fn law_savings_are_the_sum(states: Seq<UnusedScanView>, visits: Seq<Visit>)
    requires
        is_scan_of(states, visits),
    ensures
        states.last().size == unused_size(visits, states[0].fw_dir, states[0].required),
        states.last().fw_dir == states[0].fw_dir,
        states.last().required == states[0].required,
    decreases visits.len(),
{
    if visits.len() > 0 {
        let (shorter, fewer) = (states.drop_last(), visits.drop_last());
        assert forall|i: int| 0 <= i < fewer.len() implies {
            let before = #[trigger] shorter[i];
            let visit = fewer[i];
            let unused = is_unused(visit.path, visit.is_file, before.fw_dir, before.required);
            shorter[i + 1] == (UnusedScanView {
                size: before.size + if unused {
                    visit.size
                } else {
                    0
                },
                ..before
            })
        } by {
            assert(states[i] == shorter[i]);
        }
        law_savings_are_the_sum(shorter, fewer);
        assert(states[visits.len() - 1] == shorter.last());
    }
}

/// Whether a link leads nowhere.
pub fn is_dangling(is_symlink: bool, leads_somewhere: bool) -> (yes: bool)
    ensures
        yes == (is_symlink && !leads_somewhere),
{
    is_symlink && !leads_somewhere
}

/// Whether an entry is a directory itself, not a link to one.
pub open spec fn is_plain_dir(entry: WalkEntry) -> bool {
    entry.is_dir && !entry.is_symlink
}

/// The number of components of the path of an entry.
pub open spec fn entry_depth(entry: WalkEntry) -> nat {
    components(entry.path@).len()
}

/// Whether the entry at position `a` is checked before the one at position
/// `b`: the deeper one first, and of equally deep ones the one found first.
pub open spec fn checked_before(entries: Seq<WalkEntry>, a: int, b: int) -> bool {
    ||| entry_depth(entries[a]) > entry_depth(entries[b])
    ||| entry_depth(entries[a]) == entry_depth(entries[b]) && a < b
}

/// Whether `order` holds the positions of the directories among the entries,
/// each once, in the order in which they are checked.
pub open spec fn is_check_order(entries: Seq<WalkEntry>, order: Seq<usize>) -> bool {
    &&& forall|k: int|
        0 <= k < order.len() ==> #[trigger] order[k] < entries.len() && is_plain_dir(
            entries[order[k] as int],
        )
    &&& forall|i: usize|
        i < entries.len() && is_plain_dir(#[trigger] entries[i as int]) ==> order.contains(i)
    &&& forall|j: int, k: int|
        0 <= j < k < order.len() ==> checked_before(
            entries,
            #[trigger] order[j] as int,
            #[trigger] order[k] as int,
        )
}

/// The directories to check for emptiness, by their positions among the
/// entries, the deepest first.
pub fn directories_to_check(entries: &Vec<WalkEntry>) -> (order: Vec<usize>)
    ensures
        is_check_order(entries@, order@),
{
    let mut deepest: usize = 0;
    let mut depths: Vec<usize> = Vec::new();
    let mut n: usize = 0;
    while n < entries.len()
        invariant
            n <= entries@.len(),
            depths@.len() == n,
            forall|i: int| 0 <= i < n ==> #[trigger] depths@[i] == entry_depth(entries@[i]),
            forall|i: int| 0 <= i < n ==> #[trigger] depths@[i] <= deepest,
        decreases entries@.len() - n,
    {
        let d: usize = depth(entries[n].path.as_str());
        if d > deepest {
            deepest = d;
        }
        depths.push(d);
        n += 1;
    }
    let mut order: Vec<usize> = Vec::new();
    let mut level: usize = deepest;
    let mut more = true;
    proof {
        assert forall|i: usize| i < entries@.len() implies entry_depth(
            #[trigger] entries@[i as int],
        ) <= deepest by {
            assert(depths@[i as int] <= deepest);
        }
    }
    while more
        invariant
            level <= deepest,
            depths@.len() == entries@.len(),
            forall|i: int|
                0 <= i < depths@.len() ==> #[trigger] depths@[i] == entry_depth(entries@[i]),
            forall|i: int| 0 <= i < depths@.len() ==> #[trigger] depths@[i] <= deepest,
            is_partial_order(
                entries@,
                order@,
                level as int,
                if more {
                    0
                } else {
                    entries@.len() as int
                },
            ),
            !more ==> level == 0,
        decreases
            level,
            if more {
                1int
            } else {
                0int
            },
    {
        let mut i: usize = 0;
        while i < entries.len()
            invariant
                i <= entries@.len(),
                depths@.len() == entries@.len(),
                forall|j: int|
                    0 <= j < depths@.len() ==> #[trigger] depths@[j] == entry_depth(entries@[j]),
                is_partial_order(entries@, order@, level as int, i as int),
            decreases entries@.len() - i,
        {
            if depths[i] == level && entries[i].is_dir && !entries[i].is_symlink {
                proof {
                    lemma_next_in_order(entries@, order@, level as int, i);
                }
                order.push(i);
            }
            i += 1;
        }
        if level == 0 {
            more = false;
        } else {
            level -= 1;
        }
    }
    order
}

/// Whether `order` is right for the directories deeper than `level`, and for
/// those of depth `level` before position `n`.
spec fn is_partial_order(entries: Seq<WalkEntry>, order: Seq<usize>, level: int, n: int) -> bool {
    &&& forall|k: int|
        0 <= k < order.len() ==> #[trigger] order[k] < entries.len() && is_plain_dir(
            entries[order[k] as int],
        ) && (entry_depth(entries[order[k] as int]) > level || entry_depth(
            entries[order[k] as int],
        ) == level && order[k] < n)
    &&& forall|i: usize|
        i < entries.len() && is_plain_dir(#[trigger] entries[i as int]) && (entry_depth(
            entries[i as int],
        ) > level || entry_depth(entries[i as int]) == level && i < n) ==> order.contains(i)
    &&& forall|j: int, k: int|
        0 <= j < k < order.len() ==> checked_before(
            entries,
            #[trigger] order[j] as int,
            #[trigger] order[k] as int,
        )
}

proof fn lemma_next_in_order(entries: Seq<WalkEntry>, order: Seq<usize>, level: int, i: usize)
    requires
        is_partial_order(entries, order, level, i as int),
        i < entries.len(),
        is_plain_dir(entries[i as int]),
        entry_depth(entries[i as int]) == level,
    ensures
        is_partial_order(entries, order.push(i), level, i + 1),
{
    let longer = order.push(i);
    assert forall|j: usize|
        j < entries.len() && is_plain_dir(#[trigger] entries[j as int]) && (entry_depth(
            entries[j as int],
        ) > level || entry_depth(entries[j as int]) == level && j < i
            + 1) implies longer.contains(j) by {
        if j == i {
            assert(longer[order.len() as int] == j);
        } else {
            assert(order.contains(j));
            let k = choose|k: int| 0 <= k < order.len() && order[k] == j;
            assert(longer[k] == j);
        }
    }
}

/// Whether a directory is removed: it holds nothing, and it is not the
/// firmware directory itself.
pub fn is_removable(path: &str, fw_dir: &str, holds_nothing: bool) -> (yes: bool)
    ensures
        yes == (holds_nothing && components(path@) != components(fw_dir@)),
{
    holds_nothing && !same_path(path, fw_dir)
}

/// A directory is checked after those that lie in it, so that it can have
/// become empty by then.
pub proof fn law_inner_directories_first(
    entries: Seq<WalkEntry>,
    order: Seq<usize>,
    inner: int,
    outer: int,
)
    requires
        is_check_order(entries, order),
        0 <= inner < order.len(),
        0 <= outer < order.len(),
        is_below(entries[order[inner] as int].path@, entries[order[outer] as int].path@),
        components(entries[order[inner] as int].path@) != components(
            entries[order[outer] as int].path@,
        ),
    ensures
        inner < outer,
{
    let i = components(entries[order[inner] as int].path@);
    let o = components(entries[order[outer] as int].path@);
    assert(i.take(o.len() as int) == o);
    if i.len() == o.len() {
        assert(i.take(o.len() as int) =~= i);
    }
    if outer < inner {
        assert(checked_before(entries, order[outer] as int, order[inner] as int));
    }
}

/// Whether `inner` lies directly in `outer`.
pub open spec fn lies_in(inner: WalkEntry, outer: WalkEntry) -> bool {
    is_below(inner.path@, outer.path@) && entry_depth(inner) == entry_depth(outer) + 1
}

/// Whether `inner` lies in `outer`, at any depth.
pub open spec fn lies_within(inner: WalkEntry, outer: WalkEntry) -> bool {
    is_below(inner.path@, outer.path@) && entry_depth(inner) > entry_depth(outer)
}

/// Whether the entries are all that the directory at `top` holds, with that
/// directory itself: no path occurs twice, and each path but the topmost one
/// lies in a directory among the entries.
pub open spec fn is_whole_tree(entries: Seq<WalkEntry>, top: Seq<char>) -> bool {
    &&& forall|i: int|
        0 <= i < entries.len() ==> is_below((#[trigger] entries[i]).path@, top)
    &&& forall|i: int, j: int|
        0 <= i < entries.len() && 0 <= j < entries.len() && components(
            (#[trigger] entries[i]).path@,
        ) == components((#[trigger] entries[j]).path@) ==> i == j
    &&& forall|i: int|
        0 <= i < entries.len() && components((#[trigger] entries[i]).path@) != components(top)
            ==> exists|d: int|
            0 <= d < entries.len() && is_plain_dir(#[trigger] entries[d]) && lies_in(
                entries[i],
                entries[d],
            )
}

/// Whether the entry at position `d` holds nothing once the entries at the
/// positions `removed` are gone.
pub open spec fn holds_nothing(entries: Seq<WalkEntry>, removed: Set<int>, d: int) -> bool {
    forall|i: int|
        0 <= i < entries.len() && lies_in(#[trigger] entries[i], entries[d]) ==> removed.contains(
            i,
        )
}

/// The positions of the entries that are gone when the first `n` directories
/// of `order` have been checked, one after the other, and each was removed
/// where it held nothing and is not the topmost one. The entries in `gone` are
/// gone before.
pub open spec fn removed_after(
    entries: Seq<WalkEntry>,
    order: Seq<usize>,
    top: Seq<char>,
    gone: Set<int>,
    n: int,
) -> Set<int>
    decreases n,
{
    if n <= 0 {
        gone
    } else {
        let before = removed_after(entries, order, top, gone, n - 1);
        let d = order[n - 1] as int;
        if holds_nothing(entries, before, d) && components(entries[d].path@) != components(top) {
            before.insert(d)
        } else {
            before
        }
    }
}

/// Whether nothing but directories lies within the entry at position `i`,
/// apart from what is gone.
pub open spec fn holds_only_directories(
    entries: Seq<WalkEntry>,
    gone: Set<int>,
    i: int,
) -> bool {
    forall|j: int|
        0 <= j < entries.len() && lies_within(#[trigger] entries[j], entries[i]) ==> gone.contains(
            j,
        ) || is_plain_dir(entries[j])
}

/// Whether the entry at position `i` is to go with the empty directories.
pub open spec fn is_hollow(
    entries: Seq<WalkEntry>,
    top: Seq<char>,
    gone: Set<int>,
    i: int,
) -> bool {
    &&& is_plain_dir(entries[i])
    &&& components(entries[i].path@) != components(top)
    &&& holds_only_directories(entries, gone, i)
}

/// Whether nothing is left of what lies within an entry that is gone.
pub open spec fn gone_with_all(entries: Seq<WalkEntry>, gone: Set<int>) -> bool {
    forall|i: int, j: int|
        0 <= i < entries.len() && 0 <= j < entries.len() && gone.contains(i) && #[trigger]
            lies_within(entries[j], entries[i]) ==> gone.contains(j)
}

pub proof fn lemma_below_chains(a: Seq<char>, b: Seq<char>, c: Seq<char>)
    requires
        is_below(a, b),
        is_below(b, c),
    ensures
        is_below(a, c),
{
    let (x, y, z) = (components(a), components(b), components(c));
    assert(x.take(z.len() as int) =~= x.take(y.len() as int).take(z.len() as int));
}

/// Two paths below which a third lies are below each other, the longer one
/// below the shorter.
proof fn lemma_between(a: Seq<char>, b: Seq<char>, c: Seq<char>)
    requires
        is_below(a, b),
        is_below(a, c),
        components(c).len() <= components(b).len(),
    ensures
        is_below(b, c),
{
    let (x, y, z) = (components(a), components(b), components(c));
    assert(y.take(z.len() as int) =~= x.take(y.len() as int).take(z.len() as int));
    assert(x.take(y.len() as int).take(z.len() as int) =~= x.take(z.len() as int));
}

/// What lies within a directory is, or lies within, an entry directly in it.
pub proof fn lemma_child_towards(entries: Seq<WalkEntry>, top: Seq<char>, j: int, d: int) -> (c: int)
    requires
        is_whole_tree(entries, top),
        0 <= j < entries.len(),
        0 <= d < entries.len(),
        lies_within(entries[j], entries[d]),
    ensures
        0 <= c < entries.len(),
        lies_in(entries[c], entries[d]),
        c == j || lies_within(entries[j], entries[c]),
    decreases entry_depth(entries[j]),
{
    if entry_depth(entries[j]) == entry_depth(entries[d]) + 1 {
        j
    } else {
        assert(is_below(entries[d].path@, top));
        let p = choose|p: int|
            0 <= p < entries.len() && is_plain_dir(#[trigger] entries[p]) && lies_in(
                entries[j],
                entries[p],
            );
        lemma_between(entries[j].path@, entries[p].path@, entries[d].path@);
        let c = lemma_child_towards(entries, top, p, d);
        if c != p {
            lemma_below_chains(entries[j].path@, entries[p].path@, entries[c].path@);
        }
        c
    }
}

/// A directory of the order is removed only when it is its turn.
proof fn lemma_removed_in_turn(
    entries: Seq<WalkEntry>,
    order: Seq<usize>,
    top: Seq<char>,
    gone: Set<int>,
    n: int,
    k: int,
)
    requires
        is_check_order(entries, order),
        0 <= k < n <= order.len(),
    ensures
        removed_after(entries, order, top, gone, n).contains(order[k] as int) == removed_after(
            entries,
            order,
            top,
            gone,
            k + 1,
        ).contains(order[k] as int),
    decreases n,
{
    if n > k + 1 {
        lemma_removed_in_turn(entries, order, top, gone, n - 1, k);
        assert(checked_before(entries, order[k] as int, order[n - 1] as int));
    }
}

/// Apart from what was gone before, only directories of the order are removed.
pub proof fn lemma_removed_are_directories(
    entries: Seq<WalkEntry>,
    order: Seq<usize>,
    top: Seq<char>,
    gone: Set<int>,
    n: int,
    i: int,
)
    requires
        n <= order.len(),
        removed_after(entries, order, top, gone, n).contains(i),
        !gone.contains(i),
    ensures
        exists|k: int| 0 <= k < n && #[trigger] order[k] == i,
    decreases n,
{
    if n > 0 && i != order[n - 1] {
        lemma_removed_are_directories(entries, order, top, gone, n - 1, i);
    }
}

/// What is gone stays gone.
pub proof fn lemma_gone_stays_gone(
    entries: Seq<WalkEntry>,
    order: Seq<usize>,
    top: Seq<char>,
    gone: Set<int>,
    n: int,
)
    ensures
        gone.subset_of(removed_after(entries, order, top, gone, n)),
    decreases n,
{
    if n > 0 {
        lemma_gone_stays_gone(entries, order, top, gone, n - 1);
    }
}

/// The place of a directory in the order.
proof fn lemma_place_in_order(entries: Seq<WalkEntry>, order: Seq<usize>, i: int) -> (k: int)
    requires
        is_check_order(entries, order),
        entries.len() <= usize::MAX,
        0 <= i < entries.len(),
        is_plain_dir(entries[i]),
    ensures
        0 <= k < order.len(),
        order[k] == i,
{
    let at = i as usize;
    assert(is_plain_dir(entries[at as int]));
    assert(order.contains(at));
    choose|k: int| 0 <= k < order.len() && order[k] == at
}

/// Where the entries directly in a directory are gone just if they were gone
/// before or are to go, and the directory holds nothing, it holds only
/// directories.
proof fn lemma_nothing_is_only_directories(
    entries: Seq<WalkEntry>,
    top: Seq<char>,
    gone: Set<int>,
    removed: Set<int>,
    d: int,
)
    requires
        is_whole_tree(entries, top),
        gone_with_all(entries, gone),
        0 <= d < entries.len(),
        forall|i: int|
            0 <= i < entries.len() && lies_in(#[trigger] entries[i], entries[d])
                && removed.contains(i) ==> gone.contains(i) || is_hollow(entries, top, gone, i),
        holds_nothing(entries, removed, d),
    ensures
        holds_only_directories(entries, gone, d),
{
    assert forall|j: int|
        0 <= j < entries.len() && lies_within(#[trigger] entries[j], entries[d]) implies gone.contains(
        j,
    ) || is_plain_dir(entries[j]) by {
        let c = lemma_child_towards(entries, top, j, d);
        assert(removed.contains(c));
        if c != j {
            assert(lies_within(entries[j], entries[c]));
        }
    }
}

/// Where a directory holds only directories, so does each that lies directly
/// in it.
proof fn lemma_only_directories_inside(
    entries: Seq<WalkEntry>,
    gone: Set<int>,
    d: int,
    i: int,
)
    requires
        holds_only_directories(entries, gone, d),
        0 <= i < entries.len(),
        lies_in(entries[i], entries[d]),
    ensures
        gone.contains(i) || is_plain_dir(entries[i]),
        holds_only_directories(entries, gone, i),
{
    assert(lies_within(entries[i], entries[d]));
    assert forall|j: int|
        0 <= j < entries.len() && lies_within(#[trigger] entries[j], entries[i]) implies gone.contains(
        j,
    ) || is_plain_dir(entries[j]) by {
        lemma_below_chains(entries[j].path@, entries[i].path@, entries[d].path@);
        assert(lies_within(entries[j], entries[d]));
    }
}

/// What lies in a directory is not the topmost one.
proof fn lemma_inner_is_not_top(entries: Seq<WalkEntry>, top: Seq<char>, i: int, d: int)
    requires
        is_whole_tree(entries, top),
        0 <= d < entries.len(),
        lies_in(entries[i], entries[d]),
    ensures
        components(entries[i].path@) != components(top),
{
    assert(is_below(entries[d].path@, top));
}

/// Whether what lies directly in the directory at place `k` is gone before its
/// turn, just where it was gone or is to go.
#[verifier::rlimit(30)]
proof fn lemma_inner_turn(
    entries: Seq<WalkEntry>,
    order: Seq<usize>,
    top: Seq<char>,
    gone: Set<int>,
    k: int,
    i: int,
)
    requires
        is_check_order(entries, order),
        is_whole_tree(entries, top),
        gone_with_all(entries, gone),
        entries.len() <= usize::MAX,
        0 <= k < order.len(),
        0 <= i < entries.len(),
        lies_in(entries[i], entries[order[k] as int]),
    ensures
        removed_after(entries, order, top, gone, k).contains(i) <==> gone.contains(i) || is_hollow(
            entries,
            top,
            gone,
            i,
        ),
    decreases k, 0int,
{
    let before = removed_after(entries, order, top, gone, k);
    lemma_gone_stays_gone(entries, order, top, gone, k);
    if is_plain_dir(entries[i]) {
        let m = lemma_place_in_order(entries, order, i);
        law_inner_directories_first(entries, order, m, k);
        lemma_turn(entries, order, top, gone, m);
        lemma_removed_in_turn(entries, order, top, gone, k, m);
    } else if before.contains(i) && !gone.contains(i) {
        lemma_removed_are_directories(entries, order, top, gone, k, i);
    }
}

/// Whether the directory at place `k` of the order is gone after its turn,
/// just where it was gone or is to go.
#[verifier::spinoff_prover]
proof fn lemma_turn(
    entries: Seq<WalkEntry>,
    order: Seq<usize>,
    top: Seq<char>,
    gone: Set<int>,
    k: int,
)
    requires
        is_check_order(entries, order),
        is_whole_tree(entries, top),
        gone_with_all(entries, gone),
        entries.len() <= usize::MAX,
        0 <= k < order.len(),
    ensures
        removed_after(entries, order, top, gone, k + 1).contains(order[k] as int) <==> (
        gone.contains(order[k] as int) || is_hollow(entries, top, gone, order[k] as int)),
    decreases k, 2int,
{
    lemma_gone_stays_gone(entries, order, top, gone, k);
    lemma_not_before_its_turn(entries, order, top, gone, k);
    lemma_holds_nothing_in_turn(entries, order, top, gone, k);
    lemma_taking_its_turn(entries, order, top, gone, k);
}

/// What the turn of a directory does: it is removed where it holds nothing and
/// is not the topmost one.
proof fn lemma_taking_its_turn(
    entries: Seq<WalkEntry>,
    order: Seq<usize>,
    top: Seq<char>,
    gone: Set<int>,
    k: int,
)
    requires
        0 <= k < order.len(),
        is_plain_dir(entries[order[k] as int]),
        gone.subset_of(removed_after(entries, order, top, gone, k)),
        removed_after(entries, order, top, gone, k).contains(order[k] as int) ==> gone.contains(
            order[k] as int,
        ),
        holds_nothing(
            entries,
            removed_after(entries, order, top, gone, k),
            order[k] as int,
        ) == holds_only_directories(entries, gone, order[k] as int),
    ensures
        removed_after(entries, order, top, gone, k + 1).contains(order[k] as int) <==> (
        gone.contains(order[k] as int) || is_hollow(entries, top, gone, order[k] as int)),
{
}

/// A directory that was there is there until its turn.
proof fn lemma_not_before_its_turn(
    entries: Seq<WalkEntry>,
    order: Seq<usize>,
    top: Seq<char>,
    gone: Set<int>,
    k: int,
)
    requires
        is_check_order(entries, order),
        0 <= k < order.len(),
    ensures
        removed_after(entries, order, top, gone, k).contains(order[k] as int) ==> gone.contains(
            order[k] as int,
        ),
{
    let d = order[k] as int;
    if removed_after(entries, order, top, gone, k).contains(d) && !gone.contains(d) {
        lemma_removed_are_directories(entries, order, top, gone, k, d);
        let m = choose|m: int| 0 <= m < k && #[trigger] order[m] == d;
        assert(checked_before(entries, order[m] as int, order[k] as int));
    }
}

/// When it is its turn, a directory holds nothing just where it held only
/// directories.
#[verifier::rlimit(30)]
proof fn lemma_holds_nothing_in_turn(
    entries: Seq<WalkEntry>,
    order: Seq<usize>,
    top: Seq<char>,
    gone: Set<int>,
    k: int,
)
    requires
        is_check_order(entries, order),
        is_whole_tree(entries, top),
        gone_with_all(entries, gone),
        entries.len() <= usize::MAX,
        0 <= k < order.len(),
    ensures
        holds_nothing(
            entries,
            removed_after(entries, order, top, gone, k),
            order[k] as int,
        ) <==> holds_only_directories(entries, gone, order[k] as int),
    decreases k, 1int,
{
    let d = order[k] as int;
    let before = removed_after(entries, order, top, gone, k);
    assert forall|i: int|
        0 <= i < entries.len() && lies_in(#[trigger] entries[i], entries[d]) implies (
    before.contains(i) <==> gone.contains(i) || is_hollow(entries, top, gone, i)) by {
        lemma_inner_turn(entries, order, top, gone, k, i);
    }
    if holds_nothing(entries, before, d) {
        lemma_nothing_is_only_directories(entries, top, gone, before, d);
    }
    if holds_only_directories(entries, gone, d) {
        assert forall|i: int|
            0 <= i < entries.len() && lies_in(
                #[trigger] entries[i],
                entries[d],
            ) implies before.contains(i) by {
            lemma_only_directories_inside(entries, gone, d, i);
            lemma_inner_is_not_top(entries, top, i, d);
        }
    }
}

/// Checking the deepest directories first removes, in one pass, every
/// directory below the topmost one that holds nothing but directories, at any
/// depth, and nothing else. What was gone before, with all that lay in it, is
/// passed over.
pub proof fn law_all_empty_directories_go(
    entries: Seq<WalkEntry>,
    order: Seq<usize>,
    top: Seq<char>,
    gone: Set<int>,
    i: int,
)
    requires
        is_check_order(entries, order),
        is_whole_tree(entries, top),
        gone_with_all(entries, gone),
        entries.len() <= usize::MAX,
        0 <= i < entries.len(),
    ensures
        removed_after(entries, order, top, gone, order.len() as int).contains(i) <==> (
        gone.contains(i) || is_hollow(entries, top, gone, i)),
{
    let n = order.len() as int;
    lemma_gone_stays_gone(entries, order, top, gone, n);
    if is_plain_dir(entries[i]) {
        let k = lemma_place_in_order(entries, order, i);
        lemma_turn(entries, order, top, gone, k);
        lemma_removed_in_turn(entries, order, top, gone, n, k);
    } else if removed_after(entries, order, top, gone, n).contains(i) && !gone.contains(i) {
        lemma_removed_are_directories(entries, order, top, gone, n, i);
    }
}

/// Without deletion a cleanup only looks for unused files. With it, dangling
/// links go after unused files, then empty directories, then the links that
/// are dangling now. What is required in the directory is what is required of
/// the paths in it.
pub proof fn law_cleanups_make_their_passes(
    required: &PathSet,
    fw_dir: &str,
    delete: bool,
    plan: FirmwarePlan,
    names: Seq<Seq<char>>,
)
    requires
        required.wf(),
        required.all_below(fw_dir@),
        call_ensures(cleanup_firmware, (required, fw_dir, delete), plan),
        fw_dir@.len() > 0,
        names.len() > 0,
        forall|i: int| 0 <= i < names.len() ==> is_plain_name(#[trigger] names[i]),
    ensures
        !delete ==> plan.passes@.len() == 1 && plan.passes@[0] is UnusedFiles,
        delete ==> {
            &&& plan.passes@.len() == 4
            &&& plan.passes@[0] is UnusedFiles
            &&& plan.passes@[1] is DanglingSymlinks
            &&& plan.passes@[2] is EmptyDirectories
            &&& plan.passes@[3] is DanglingSymlinks
        },
        plan.scan@.fw_dir == fw_dir@,
        plan.scan@.delete == delete,
        plan.scan@.size == 0,
        plan.scan@.required.contains(names) <==> required@.contains(components(fw_dir@) + names),
{
    law_paths_inside_are_their_names(fw_dir@, names);
}

/// A file in the firmware directory stays just where the names on the way to
/// it are required. One that is not required is counted, and removed where
/// files are to be deleted. What is no file stays.
pub proof fn law_files_stay_where_they_are_required(
    path: &str,
    is_file: bool,
    fw_dir: &str,
    required: &PathSet,
    delete: bool,
    verdict: FileVerdict,
    names: Seq<Seq<char>>,
)
    requires
        required.wf(),
        call_ensures(judge_file, (path, is_file, fw_dir, required, delete), verdict),
        fw_dir@.len() > 0,
        names.len() > 0,
        forall|i: int| 0 <= i < names.len() ==> is_plain_name(#[trigger] names[i]),
        path@ == fw_dir@ + seq!['/'] + spliced(names, '/'),
    ensures
        verdict is Leave <==> !is_file || required@.contains(names),
        verdict is Remove <==> is_file && !required@.contains(names) && delete,
        verdict is Count <==> is_file && !required@.contains(names) && !delete,
        is_unused(path@, is_file, fw_dir@, required@) <==> is_file && !required@.contains(names),
{
    law_paths_inside_are_their_names(fw_dir@, names);
    law_below_is_same_beginning(path@, fw_dir@);
}

/// A directory is removed where it holds nothing, unless it is the firmware
/// directory, and a link where it leads nowhere. Savings in mebibytes are the
/// bytes shared by 1024 times 1024, rounded down.
pub proof fn law_what_is_empty_goes(
    path: &str,
    fw_dir: &str,
    holds_nothing: bool,
    removed: bool,
    is_symlink: bool,
    leads_somewhere: bool,
    dangling: bool,
    tally: &SizeTally,
    mebibytes: u64,
)
    requires
        call_ensures(is_removable, (path, fw_dir, holds_nothing), removed),
        call_ensures(is_dangling, (is_symlink, leads_somewhere), dangling),
        call_ensures(SizeTally::mebibytes, (tally,), mebibytes),
    ensures
        removed <==> holds_nothing && components(path@) != components(fw_dir@),
        dangling <==> is_symlink && !leads_somewhere,
        mebibytes * 1024 * 1024 <= tally@ < (mebibytes + 1) * 1024 * 1024,
{
}

/// The directories to check are all that are no links, each once, those with
/// more names on the way first, and of those with equally many the one found
/// first.
pub proof fn law_deepest_directories_are_checked_first(
    entries: &Vec<WalkEntry>,
    order: Vec<usize>,
    i: usize,
)
    requires
        call_ensures(directories_to_check, (entries,), order),
        i < entries@.len(),
    ensures
        order@.contains(i) <==> entries@[i as int].is_dir && !entries@[i as int].is_symlink,
        forall|j: int, k: int|
            0 <= j < k < order@.len() ==> {
                let (a, b) = (#[trigger] order@[j], #[trigger] order@[k]);
                let (x, y) = (
                    components(entries@[a as int].path@).len(),
                    components(entries@[b as int].path@).len(),
                );
                a != b && x >= y && (x == y ==> a < b)
            },
{
    if order@.contains(i) {
        let k = choose|k: int| 0 <= k < order@.len() && order@[k] == i;
        assert(is_plain_dir(entries@[order@[k] as int]));
    }
    assert forall|j: int, k: int| 0 <= j < k < order@.len() implies {
        let (a, b) = (#[trigger] order@[j], #[trigger] order@[k]);
        let (x, y) = (
            components(entries@[a as int].path@).len(),
            components(entries@[b as int].path@).len(),
        );
        a != b && x >= y && (x == y ==> a < b)
    } by {
        assert(checked_before(entries@, order@[j] as int, order@[k] as int));
    }
}

/// A visit to a file that is not required adds its size to what is saved, and
/// the file is removed where files are to be deleted; every other visit
/// changes nothing. A size that could not be had is an error just where it
/// would have been added.
pub proof fn law_unused_files_are_counted(
    before: UnusedScan,
    after: UnusedScan,
    path: &str,
    is_file: bool,
    size: Result<u64, std::io::Error>,
    res: Result<FileVerdict, JanitorError>,
    names: Seq<Seq<char>>,
)
    requires
        before.wf(),
        exists|scan: &mut UnusedScan|
            *scan == before && *final(scan) == after && #[trigger] call_ensures(
                UnusedScan::visit,
                (scan, path, is_file, size),
                res,
            ),
        before@.fw_dir.len() > 0,
        names.len() > 0,
        forall|i: int| 0 <= i < names.len() ==> is_plain_name(#[trigger] names[i]),
        path@ == before@.fw_dir + seq!['/'] + spliced(names, '/'),
    ensures
        after@.fw_dir == before@.fw_dir,
        after@.required == before@.required,
        after@.delete == before@.delete,
        if is_file && !before@.required.contains(names) {
            match size {
                Ok(bytes) => {
                    &&& after@.size == before@.size + bytes
                    &&& res matches Ok(verdict)
                    &&& before@.delete ==> verdict is Remove
                    &&& !before@.delete ==> verdict is Count
                },
                Err(e) => after@.size == before@.size && res == Err::<FileVerdict, JanitorError>(
                    JanitorError::Io(e),
                ),
            }
        } else {
            after@.size == before@.size && res is Ok && res->Ok_0 is Leave
        },
{
    law_paths_inside_are_their_names(before@.fw_dir, names);
}

} // verus!
