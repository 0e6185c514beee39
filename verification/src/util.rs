//! Directories: the one of the kernel, and all files of one.
use crate::error::JanitorError;
use crate::firmware::WalkEntry;
use crate::order::{
    is_smaller, law_entries_are_ordered_by_name, law_paths_are_ordered, lemma_not_after_chains,
    path_before, path_precedes,
};
use crate::path::{components, is_plain_name};
use crate::text::texts;
use vstd::prelude::*;

verus! {

/// A step of the listing of a directory: an entry, or what went wrong.
pub type ListStep = Result<WalkEntry, std::io::Error>;

/// What a directory was found to hold.
#[derive(Debug)]
pub enum DirListing {
    /// Nothing is at its path.
    Missing,
    /// It cannot be read, for this reason.
    Unreadable(std::io::Error),
    /// These entries; some may have failed.
    Entries(Vec<ListStep>),
}

/// Whether an entry is a directory.
pub open spec fn is_directory(step: ListStep) -> bool {
    step matches Ok(entry) && entry.is_dir
}

/// The components of the path of an entry.
pub open spec fn entry_parts(step: ListStep) -> Seq<Seq<char>> {
    components(step->Ok_0.path@)
}

/// Whether position `i` holds the last directory in the order of paths.
pub open spec fn is_last_directory(
    steps: Seq<ListStep>,
    i: int,
) -> bool {
    &&& 0 <= i < steps.len()
    &&& is_directory(steps[i])
    &&& forall|j: int|
        0 <= j < steps.len() && is_directory(#[trigger] steps[j]) ==> if j <= i {
            !path_before(entry_parts(steps[i]), entry_parts(steps[j]))
        } else {
            path_before(entry_parts(steps[j]), entry_parts(steps[i]))
        }
}

/// No two directories of a listing are both the last one, so what is found
/// does not depend on how the search goes about it.
pub proof fn law_one_directory_is_last(steps: Seq<ListStep>, i: int, j: int)
    requires
        is_last_directory(steps, i),
        is_last_directory(steps, j),
    ensures
        i == j,
{
    assert(is_directory(steps[i]) && is_directory(steps[j]));
}

/// Whether `last` is the position of the last directory among the first `n`
/// entries, where there is one.
spec fn is_last_so_far(steps: Seq<ListStep>, n: int, last: Option<usize>) -> bool {
    match last {
        Some(i) => i < n && is_last_directory(steps.take(n), i as int),
        None => forall|i: int| 0 <= i < n ==> !is_directory(#[trigger] steps[i]),
    }
}

/// With one more entry, the last directory remains unless the entry is a
/// directory that does not come before it.
proof fn lemma_last_so_far(steps: Seq<ListStep>, n: usize, last: Option<usize>)
    requires
        n < steps.len(),
        is_last_so_far(steps, n as int, last),
    ensures
        is_last_so_far(
            steps,
            n + 1,
            if is_directory(steps[n as int]) && (last matches Some(i) ==> !path_before(
                entry_parts(steps[n as int]),
                entry_parts(steps[i as int]),
            )) {
                Some(n)
            } else {
                last
            },
        ),
{
    let (before, after) = (steps.take(n as int), steps.take(n + 1));
    let new = entry_parts(steps[n as int]);
    assert forall|j: int| 0 <= j < n implies before[j] == #[trigger] after[j] by {}
    law_paths_are_ordered(new, new);
    if let Some(i) = last {
        let old_last = entry_parts(steps[i as int]);
        if is_directory(steps[n as int]) && !path_before(new, old_last) {
            assert forall|j: int| 0 <= j < n + 1 && is_directory(
                #[trigger] after[j],
            ) implies !path_before(new, entry_parts(after[j])) by {
                if j < n {
                    assert(before[j] == after[j]);
                    let other = entry_parts(after[j]);
                    law_paths_are_ordered(other, old_last);
                    lemma_not_after_chains(other, old_last, new);
                }
            }
            assert(is_last_directory(after, n as int));
        } else {
            assert forall|j: int| 0 <= j < n + 1 && is_directory(#[trigger] after[j]) implies if j
                <= i {
                !path_before(old_last, entry_parts(after[j]))
            } else {
                path_before(entry_parts(after[j]), old_last)
            } by {
                if j < n {
                    assert(before[j] == after[j]);
                }
            }
            assert(is_last_directory(after, i as int));
        }
    } else if is_directory(steps[n as int]) {
        assert forall|j: int| 0 <= j < n + 1 && is_directory(#[trigger] after[j]) implies j
            == n by {
            if j < n {
                assert(!is_directory(steps[j]));
            }
        }
        assert(is_last_directory(after, n as int));
    }
}

/// Finds the directory of the kernel among those in the directory of modules.
/// Where there are several, it is the last in the order of paths, likely the
/// one of the newest kernel.
pub fn find_kernel_dir(module_dir: &str, listing: DirListing) -> (res: Result<
    String,
    JanitorError,
>)
    ensures
        match listing {
            DirListing::Missing => res matches Err(JanitorError::NoKernelDir(dir)) && dir@
                == module_dir@,
            DirListing::Unreadable(e) => res == Err::<String, JanitorError>(JanitorError::Io(e)),
            DirListing::Entries(steps) => match res {
                Ok(path) => exists|i: int| #[trigger]
                    is_last_directory(steps@, i) && path@ == steps@[i]->Ok_0.path@,
                Err(e) => {
                    &&& forall|i: int|
                        0 <= i < steps@.len() ==> !is_directory(#[trigger] steps@[i])
                    &&& e matches JanitorError::NoKernelDir(dir)
                    &&& dir@ == module_dir@
                },
            },
        },
{
    let steps = match listing {
        DirListing::Missing => {
            return Err(JanitorError::NoKernelDir(module_dir.to_owned()));
        },
        DirListing::Unreadable(e) => {
            return Err(JanitorError::Io(e));
        },
        DirListing::Entries(steps) => steps,
    };
    let mut last: Option<usize> = None;
    let mut n: usize = 0;
    while n < steps.len()
        invariant
            n <= steps@.len(),
            is_last_so_far(steps@, n as int, last),
        decreases steps@.len() - n,
    {
        let ghost before = last;
        if let Ok(entry) = &steps[n] {
            if entry.is_dir {
                let later = match last {
                    Some(i) => match &steps[i] {
                        Ok(best) => !path_precedes(entry.path.as_str(), best.path.as_str()),
                        Err(_) => true,
                    },
                    None => true,
                };
                if later {
                    last = Some(n);
                }
            }
        }
        proof {
            lemma_last_so_far(steps@, n, before);
        }
        n += 1;
    }
    proof {
        assert(steps@.take(n as int) =~= steps@);
    }
    match last {
        Some(i) => match &steps[i] {
            Ok(entry) => Ok(entry.path.clone()),
            Err(_) => Err(JanitorError::NoKernelDir(module_dir.to_owned())),
        },
        None => Err(JanitorError::NoKernelDir(module_dir.to_owned())),
    }
}

/// Whether a step is an entry that is no directory.
pub open spec fn is_plain_entry(step: ListStep) -> bool {
    step matches Ok(entry) && !entry.is_dir
}

/// The paths of the entries before the first directory or failure.
pub open spec fn leading_files(pending: Seq<ListStep>) -> Seq<Seq<char>>
    decreases pending.len(),
{
    if pending.len() > 0 && is_plain_entry(pending[0]) {
        seq![pending[0]->Ok_0.path@] + leading_files(pending.drop_first())
    } else {
        Seq::empty()
    }
}

/// The steps from the first directory or failure on.
pub open spec fn after_files(pending: Seq<ListStep>) -> Seq<ListStep>
    decreases pending.len(),
{
    if pending.len() > 0 && is_plain_entry(pending[0]) {
        after_files(pending.drop_first())
    } else {
        pending
    }
}

/// A walk through a directory and all directories in it, which lists every
/// file. The walk names the directories to read; the caller reads each and
/// hands back what it holds.
#[derive(Debug)]
pub struct DirWalk {
    files: Vec<String>,
    stack: Vec<ListStep>,
}

/// What a walk has found, and what it still has to go through, in order.
pub struct DirWalkView {
    pub files: Seq<Seq<char>>,
    pub pending: Seq<ListStep>,
}

impl View for DirWalk {
    type V = DirWalkView;

    closed spec fn view(&self) -> DirWalkView {
        DirWalkView { files: texts(self.files@), pending: self.stack@.reverse() }
    }
}

/// Begins a walk through `dir`; it lists nothing where `dir` is no directory.
pub fn walk_dir(dir: &str, is_dir: bool) -> (walk: DirWalk)
    ensures
        walk@.files == Seq::<Seq<char>>::empty(),
        !is_dir ==> walk@.pending == Seq::<ListStep>::empty(),
        is_dir ==> {
            &&& walk@.pending.len() == 1
            &&& is_directory(walk@.pending[0])
            &&& walk@.pending[0]->Ok_0.path@ == dir@
        },
{
    let mut stack: Vec<ListStep> = Vec::new();
    if is_dir {
        stack.push(
            Ok(
                WalkEntry {
                    path: dir.to_owned(),
                    is_file: false,
                    is_dir: true,
                    is_symlink: false,
                },
            ),
        );
    }
    let walk = DirWalk { files: Vec::new(), stack };
    proof {
        assert(walk@.files =~= Seq::<Seq<char>>::empty());
        if !is_dir {
            assert(walk@.pending =~= Seq::<ListStep>::empty());
        }
    }
    walk
}

impl DirWalk {
    /// Takes over the files that come next, and names the directory to read
    /// after them. There is none once all has been gone through. A step that
    /// failed ends the walk with its error.
    pub fn next_directory(&mut self) -> (res: Result<Option<String>, JanitorError>)
        ensures
            final(self)@.files == old(self)@.files + leading_files(old(self)@.pending),
            ({
                let rest = after_files(old(self)@.pending);
                match res {
                    Ok(None) => rest.len() == 0 && final(self)@.pending == rest,
                    Ok(Some(dir)) => {
                        &&& rest.len() > 0
                        &&& is_directory(rest[0])
                        &&& dir@ == rest[0]->Ok_0.path@
                        &&& final(self)@.pending == rest.drop_first()
                    },
                    Err(e) => {
                        &&& rest.len() > 0
                        &&& rest[0] is Err
                        &&& e == JanitorError::Io(rest[0]->Err_0)
                        &&& final(self)@.pending == rest.drop_first()
                    },
                }
            }),
    {
        let ghost all = self@.files + leading_files(self@.pending);
        let ghost rest = after_files(self@.pending);
        while self.stack.len() > 0
            invariant
                self@.files + leading_files(self@.pending) == all,
                after_files(self@.pending) == rest,
                all == old(self)@.files + leading_files(old(self)@.pending),
                rest == after_files(old(self)@.pending),
            decreases self.stack@.len(),
        {
            let ghost before = *self;
            let top = self.stack.pop();
            proof {
                let (p, q) = (before@.pending, self@.pending);
                assert(p.len() > 0 && p[0] == before.stack@.last());
                assert(p.drop_first() =~= q);
            }
            match top {
                Some(Ok(entry)) => {
                    if entry.is_dir {
                        proof {
                            assert(all =~= self@.files);
                        }
                        return Ok(Some(entry.path));
                    }
                    let ghost path = entry.path@;
                    self.files.push(entry.path);
                    proof {
                        assert(self@.files =~= before@.files.push(path));
                        assert(before@.files + (seq![path] + leading_files(self@.pending))
                            =~= self@.files + leading_files(self@.pending));
                    }
                },
                Some(Err(e)) => {
                    proof {
                        assert(all =~= self@.files);
                    }
                    return Err(JanitorError::Io(e));
                },
                None => {},
            }
        }
        proof {
            assert(self@.pending.len() == 0);
            assert(all =~= self@.files);
        }
        Ok(None)
    }

    /// Takes over what the directory that was named last holds.
    pub fn listed(&mut self, entries: Vec<ListStep>)
        ensures
            final(self)@.files == old(self)@.files,
            final(self)@.pending == entries@ + old(self)@.pending,
    {
        let ghost given = entries@;
        let mut entries = entries;
        while entries.len() > 0
            invariant
                self@.files == old(self)@.files,
                entries@ + self@.pending == given + old(self)@.pending,
            decreases entries@.len(),
        {
            let ghost before = *self;
            let ghost left = entries@;
            if let Some(step) = entries.pop() {
                self.stack.push(step);
                proof {
                    assert(self@.pending =~= seq![step] + before@.pending);
                    assert(entries@ + self@.pending =~= left + before@.pending);
                }
            }
        }
        proof {
            assert(entries@ + self@.pending =~= self@.pending);
        }
    }

    /// The files that the walk has found, in order.
    pub fn into_files(self) -> (files: Vec<String>)
        ensures
            texts(files@) == self@.files,
    {
        self.files
    }
}

/// What a directory holds, all the way down.
pub enum Tree {
    /// A path that is no directory.
    Leaf(Seq<char>),
    /// An entry that cannot be had, for this reason.
    Broken(std::io::Error),
    /// A directory with its entries.
    Branch(Seq<char>, Seq<Tree>),
}

/// The files of the given trees in order, or the first failure on the way.
pub open spec fn files_of(trees: Seq<Tree>) -> Result<Seq<Seq<char>>, std::io::Error>
    decreases trees,
{
    if trees.len() == 0 {
        Ok(Seq::empty())
    } else {
        let first = match trees[0] {
            Tree::Leaf(path) => Ok(seq![path]),
            Tree::Broken(e) => Err(e),
            Tree::Branch(_, inner) => files_of(inner),
        };
        files_then(first, files_of(trees.subrange(1, trees.len() as int)))
    }
}

/// The outcome of a first part of a walk followed by that of a second.
pub open spec fn files_then(
    first: Result<Seq<Seq<char>>, std::io::Error>,
    second: Result<Seq<Seq<char>>, std::io::Error>,
) -> Result<Seq<Seq<char>>, std::io::Error> {
    match (first, second) {
        (Err(e), _) => Err(e),
        (Ok(_), Err(e)) => Err(e),
        (Ok(a), Ok(b)) => Ok(a + b),
    }
}

/// Whether `step` is how the listing of a directory shows `tree`.
pub open spec fn shows(step: ListStep, tree: Tree) -> bool {
    match tree {
        Tree::Leaf(path) => is_plain_entry(step) && step->Ok_0.path@ == path,
        Tree::Broken(e) => step == Err::<WalkEntry, std::io::Error>(e),
        Tree::Branch(path, _) => is_directory(step) && step->Ok_0.path@ == path,
    }
}

/// Whether `steps` show `trees` one by one.
pub open spec fn shows_all(steps: Seq<ListStep>, trees: Seq<Tree>) -> bool {
    &&& steps.len() == trees.len()
    &&& forall|i: int| 0 <= i < steps.len() ==> shows(#[trigger] steps[i], trees[i])
}

/// The trees of two parts hold the files of the first and then those of the
/// second.
proof fn lemma_files_concat(a: Seq<Tree>, b: Seq<Tree>)
    ensures
        files_of(a + b) == files_then(files_of(a), files_of(b)),
    decreases a.len(),
{
    if a.len() == 0 {
        assert(a + b =~= b);
        if let Ok(files) = files_of(b) {
            assert(Seq::<Seq<char>>::empty() + files =~= files);
        }
    } else {
        let rest = a.subrange(1, a.len() as int);
        lemma_files_concat(rest, b);
        let all = a + b;
        assert(all[0] == a[0]);
        assert(all.subrange(1, all.len() as int) =~= rest + b);
        let first = match a[0] {
            Tree::Leaf(path) => Ok(seq![path]),
            Tree::Broken(e) => Err(e),
            Tree::Branch(_, inner) => files_of(inner),
        };
        if let (Ok(x), Ok(y), Ok(z)) = (first, files_of(rest), files_of(b)) {
            assert(x + (y + z) =~= (x + y) + z);
        }
    }
}

/// Every step of a walk keeps what the walk will return in the end: the files
/// found so far with those of the trees still to go through. Where the walk
/// ends, that is what it has found, or the first failure; where it names a
/// directory, the entries of that directory are to be gone through next.
pub proof fn law_walk_lists_all_files(
    files: Seq<Seq<char>>,
    pending: Seq<ListStep>,
    trees: Seq<Tree>,
)
    requires
        shows_all(pending, trees),
    ensures
        ({
            let rest = after_files(pending);
            let left = trees.skip(trees.len() - rest.len());
            let found = files + leading_files(pending);
            let outcome = files_then(Ok(files), files_of(trees));
            &&& rest.len() <= trees.len()
            &&& shows_all(rest, left)
            &&& rest.len() == 0 ==> outcome == Ok::<Seq<Seq<char>>, std::io::Error>(found)
            &&& rest.len() > 0 && rest[0] is Err ==> outcome == Err::<
                Seq<Seq<char>>,
                std::io::Error,
            >(rest[0]->Err_0)
            &&& rest.len() > 0 && rest[0] is Ok ==> {
                &&& left[0] matches Tree::Branch(path, inner)
                &&& path == rest[0]->Ok_0.path@
                &&& outcome == files_then(Ok(found), files_of(inner + left.drop_first()))
            }
        }),
    decreases pending.len(),
{
    let outcome = files_then(Ok(files), files_of(trees));
    if pending.len() == 0 {
        assert(files + Seq::<Seq<char>>::empty() =~= files);
        assert(trees.skip(0) =~= trees);
    } else {
        let more = trees.subrange(1, trees.len() as int);
        assert(shows(pending[0], trees[0]));
        if is_plain_entry(pending[0]) {
            let path = pending[0]->Ok_0.path@;
            let next = pending.drop_first();
            assert forall|i: int| 0 <= i < next.len() implies shows(
                #[trigger] next[i],
                more[i],
            ) by {
                assert(shows(pending[i + 1], trees[i + 1]));
            }
            law_walk_lists_all_files(files.push(path), next, more);
            let rest = after_files(next);
            assert(trees.skip(trees.len() - rest.len()) =~= more.skip(more.len() - rest.len()));
            assert(files + (seq![path] + leading_files(next)) =~= files.push(path)
                + leading_files(next));
            if let Ok(b) = files_of(more) {
                assert(files + (seq![path] + b) =~= files.push(path) + b);
            }
        } else {
            assert(files + Seq::<Seq<char>>::empty() =~= files);
            assert(trees.skip(0) =~= trees);
            if let Tree::Branch(_, inner) = trees[0] {
                lemma_files_concat(inner, more);
                assert(trees.drop_first() =~= more);
            }
        }
    }
}

/// Of the directories in the directory of modules, the one whose name comes
/// last, character by character, is that of the kernel. Files do not count,
/// nor entries that could not be had, and where no directory is left there is
/// none.
pub proof fn law_last_directory_is_the_kernel(
    module_dir: &str,
    steps: Vec<ListStep>,
    res: Result<String, JanitorError>,
    names: spec_fn(int) -> Seq<char>,
) -> (i: int)
    requires
        call_ensures(find_kernel_dir, (module_dir, DirListing::Entries(steps)), res),
        module_dir@.len() > 0,
        forall|j: int|
            0 <= j < steps@.len() && (#[trigger] steps@[j]) is Ok && steps@[j]->Ok_0.is_dir
                ==> is_plain_name(names(j)) && steps@[j]->Ok_0.path@ == module_dir@ + seq!['/']
                + names(j),
    ensures
        res matches Ok(path) ==> 0 <= i < steps@.len() && steps@[i] is Ok && steps@[i]->Ok_0.is_dir
            && path@ == module_dir@ + seq!['/'] + names(i),
        res is Ok ==> forall|j: int|
            0 <= j < steps@.len() && (#[trigger] steps@[j]) is Ok && steps@[j]->Ok_0.is_dir
                ==> !is_smaller(names(i), names(j)),
        res is Err <==> forall|j: int|
            0 <= j < steps@.len() ==> !((#[trigger] steps@[j]) is Ok && steps@[j]->Ok_0.is_dir),
        res matches Err(e) ==> (e matches JanitorError::NoKernelDir(dir) && dir@ == module_dir@),
{
    if let Ok(path) = res {
        let i = choose|i: int| #[trigger]
            is_last_directory(steps@, i) && path@ == steps@[i]->Ok_0.path@;
        assert forall|j: int|
            0 <= j < steps@.len() && (#[trigger] steps@[j]) is Ok
                && steps@[j]->Ok_0.is_dir implies !is_smaller(names(i), names(j)) by {
            assert(is_directory(steps@[j]));
            law_entries_are_ordered_by_name(module_dir@, names(i), names(j));
            law_paths_are_ordered(entry_parts(steps@[i]), entry_parts(steps@[j]));
        }
        i
    } else {
        assert forall|j: int| 0 <= j < steps@.len() implies !((#[trigger] steps@[j]) is Ok
            && steps@[j]->Ok_0.is_dir) by {
            assert(!is_directory(steps@[j]));
        }
        0
    }
}

/// A walk takes over entry after entry that is no directory, and stops at the
/// first directory and at the first entry that could not be had.
pub proof fn law_walks_stop_at_directories(step: ListStep, rest: Seq<ListStep>)
    ensures
        leading_files(Seq::empty()) == Seq::<Seq<char>>::empty(),
        after_files(Seq::empty()) == Seq::<ListStep>::empty(),
        step is Ok && !step->Ok_0.is_dir ==> leading_files(seq![step] + rest) == seq![
            step->Ok_0.path@,
        ] + leading_files(rest) && after_files(seq![step] + rest) == after_files(rest),
        !(step is Ok && !step->Ok_0.is_dir) ==> leading_files(seq![step] + rest) == Seq::<
            Seq<char>,
        >::empty() && after_files(seq![step] + rest) == seq![step] + rest,
{
    assert((seq![step] + rest)[0] == step);
    assert((seq![step] + rest).drop_first() =~= rest);
}

/// A walk takes over all entries before the next directory, and names that
/// directory; at its end it names none, and at an entry that could not be had
/// it says why. What a directory holds is gone through before the rest.
pub proof fn law_walks_go_through_all(
    before: DirWalk,
    after: DirWalk,
    res: Result<Option<String>, JanitorError>,
    entries: Vec<ListStep>,
    then: DirWalk,
)
    requires
        exists|walk: &mut DirWalk|
            *walk == before && *final(walk) == after && #[trigger] call_ensures(
                DirWalk::next_directory,
                (walk,),
                res,
            ),
        exists|walk: &mut DirWalk|
            *walk == after && *final(walk) == then && #[trigger] call_ensures(
                DirWalk::listed,
                (walk, entries),
                (),
            ),
    ensures
        after@.files == before@.files + leading_files(before@.pending),
        res is Ok && res->Ok_0 is None <==> after_files(before@.pending).len() == 0,
        res matches Ok(Some(dir)) ==> {
            let rest = after_files(before@.pending);
            rest.len() > 0 && rest[0] is Ok && rest[0]->Ok_0.is_dir && dir@ == rest[0]->Ok_0.path@
                && after@.pending == rest.drop_first()
        },
        res matches Err(e) ==> {
            let rest = after_files(before@.pending);
            rest.len() > 0 && rest[0] is Err && e == JanitorError::Io(rest[0]->Err_0)
        },
        then@.files == after@.files,
        then@.pending == entries@ + after@.pending,
{
}

} // verus!
