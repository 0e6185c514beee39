//! Firmware: which files the kernel modules may ask for.
use crate::command::{modinfo, modinfo_args, replied, CommandRunner};
use crate::error::JanitorError;
use crate::passes::{lemma_all_matches, lemma_distinct, lemma_picked};
use crate::path::{
    components, file_name, file_name_of, is_absolute, is_below, join, joined,
    law_joined_lies_below, law_joining, law_names_follow_the_last_slash, lemma_ending_in_name,
};
use crate::path_set::{distinct_paths, PathSet};
use crate::text::{
    chars_of, ends_with, has_suffix, holds_char, law_endings, law_lines_end_at_line_feeds, lines,
    lines_of, texts,
};
use vstd::prelude::*;

verus! {

/// What a walk through a directory found at a path. Whether a file or a
/// directory is there is said of the end of its links; `is_symlink` is said of
/// the path itself.
#[derive(Debug)]
pub struct WalkEntry {
    pub path: String,
    pub is_file: bool,
    pub is_dir: bool,
    pub is_symlink: bool,
}

/// Whether a path has the name of a kernel module, compressed or not.
pub open spec fn is_module_path(path: Seq<char>) -> bool {
    ||| file_name_of(path) matches Some(name) && name.len() > 3 && has_suffix(name, ".ko"@)
    ||| has_suffix(path, ".ko.xz"@)
    ||| has_suffix(path, ".ko.zst"@)
}

/// Whether a path has the name of a kernel module, compressed or not.
pub fn module_path_form(path: &str) -> (yes: bool)
    ensures
        yes == is_module_path(path@),
{
    let plain = match file_name(path) {
        Some(name) => chars_of(name.as_str()).len() > 3 && ends_with(name.as_str(), ".ko"),
        None => false,
    };
    plain || ends_with(path, ".ko.xz") || ends_with(path, ".ko.zst")
}

/// What a walk gave, step by step: an entry, or why there is none.
pub type WalkSteps = Seq<Result<WalkEntry, std::io::Error>>;

/// The paths of the kernel modules among the first `n` entries of a walk.
pub open spec fn kernel_modules(steps: WalkSteps, n: int) -> Seq<Seq<char>>
    decreases n,
{
    if n <= 0 {
        Seq::empty()
    } else {
        let before = kernel_modules(steps, n - 1);
        let entry = steps[n - 1]->Ok_0;
        if entry.is_file && is_module_path(entry.path@) {
            before.push(entry.path@)
        } else {
            before
        }
    }
}

/// A path with the name of a kernel module ends in a name.
pub proof fn law_modules_have_names(path: Seq<char>)
    requires
        is_module_path(path),
    ensures
        file_name_of(path) is Some,
{
    reveal_strlit(".ko.xz");
    reveal_strlit(".ko.zst");
    if has_suffix(path, ".ko.xz"@) {
        lemma_ending_in_name(path, ".ko.xz"@);
    } else if has_suffix(path, ".ko.zst"@) {
        lemma_ending_in_name(path, ".ko.zst"@);
    }
}

proof fn lemma_all_modules_have_names(steps: WalkSteps, n: int)
    ensures
        forall|i: int|
            0 <= i < kernel_modules(steps, n).len() ==> file_name_of(
                #[trigger] kernel_modules(steps, n)[i],
            ) is Some,
    decreases n,
{
    if n > 0 {
        lemma_all_modules_have_names(steps, n - 1);
        let path = steps[n - 1]->Ok_0.path@;
        if is_module_path(path) {
            law_modules_have_names(path);
        }
        let before = kernel_modules(steps, n - 1);
        assert forall|i: int| 0 <= i < kernel_modules(steps, n).len() implies file_name_of(
            #[trigger] kernel_modules(steps, n)[i],
        ) is Some by {
            if i < before.len() {
                assert(kernel_modules(steps, n)[i] == before[i]);
            }
        }
    }
}

/// Finds the kernel modules among what a walk gave. The walk must not have
/// failed anywhere.
pub fn find_kernel_modules(steps: Vec<Result<WalkEntry, std::io::Error>>) -> (res: Result<
    Vec<String>,
    JanitorError,
>)
    ensures
        match res {
            Ok(list) => {
                &&& forall|i: int| 0 <= i < steps@.len() ==> (#[trigger] steps@[i]) is Ok
                &&& texts(list@) == kernel_modules(steps@, steps@.len() as int)
                &&& forall|i: int|
                    0 <= i < list@.len() ==> file_name_of((#[trigger] list@[i])@) is Some
            },
            Err(e) => exists|i: int|
                {
                    &&& 0 <= i < steps@.len()
                    &&& (#[trigger] steps@[i]) is Err
                    &&& forall|j: int| 0 <= j < i ==> (#[trigger] steps@[j]) is Ok
                    &&& e == JanitorError::Io(steps@[i]->Err_0)
                },
        },
{
    let mut list: Vec<String> = Vec::new();
    let mut rest = steps;
    let mut n: usize = 0;
    while n < rest.len()
        invariant
            n <= rest@.len(),
            rest@ == steps@,
            forall|i: int| 0 <= i < n ==> (#[trigger] steps@[i]) is Ok,
            texts(list@) == kernel_modules(steps@, n as int),
        decreases rest@.len() - n,
    {
        match &rest[n] {
            Ok(entry) => {
                if entry.is_file && module_path_form(entry.path.as_str()) {
                    let path = entry.path.clone();
                    proof {
                        assert(texts(list@.push(path)) =~= texts(list@).push(path@));
                    }
                    list.push(path);
                }
            },
            Err(_) => {
                let failed = rest.swap_remove(n);
                if let Err(cause) = failed {
                    proof {
                        assert(steps@[n as int] is Err);
                    }
                    return Err(JanitorError::Io(cause));
                }
            },
        }
        n += 1;
    }
    proof {
        lemma_all_modules_have_names(steps@, steps@.len() as int);
        assert forall|i: int| 0 <= i < list@.len() implies file_name_of(
            (#[trigger] list@[i])@,
        ) is Some by {
            assert(texts(list@)[i] == list@[i]@);
        }
    }
    Ok(list)
}

/// The names of the firmware that a module may ask for, as `modinfo` answered:
/// one on each line.
pub fn firmware_names(reply: Result<String, JanitorError>) -> (res: Result<
    Vec<String>,
    JanitorError,
>)
    ensures
        match reply {
            Ok(text) => res matches Ok(names) && texts(names@) == lines_of(text@),
            Err(e) => res == Err::<Vec<String>, JanitorError>(e),
        },
{
    match reply {
        Ok(text) => Ok(lines(text.as_str())),
        Err(e) => Err(e),
    }
}

/// Asks `modinfo` for the names of the firmware that a module may ask for.
pub fn get_firmware_deps_for_module<R: CommandRunner>(module: &str, runner: &R) -> (res: Result<
    Vec<String>,
    JanitorError,
>)
    ensures
        exists|reply: Result<String, JanitorError>| #[trigger]
            replied(runner, "/usr/sbin/modinfo", modinfo_args("firmware"@, module@), reply)
                && match reply {
                Ok(text) => res matches Ok(names) && texts(names@) == lines_of(text@),
                Err(e) => res == Err::<Vec<String>, JanitorError>(e),
            },
{
    firmware_names(modinfo(runner, "firmware", module))
}

/// A path as it is, and with the endings of compressed files.
pub open spec fn variants(path: Seq<char>) -> Seq<Seq<char>> {
    seq![path, path + ".xz"@, path + ".zst"@]
}

/// Where to look for the firmware of one name: at these paths, or, where the
/// name has a wildcard, at all that these patterns match.
#[derive(Debug)]
pub struct FirmwareSearch {
    pub wildcard: bool,
    pub paths: Vec<String>,
}

/// The search for the firmware `name` in the directory `fw_dir`.
pub open spec fn is_search_for(search: FirmwareSearch, name: Seq<char>, fw_dir: Seq<char>) -> bool {
    &&& search.wildcard == name.contains('*')
    &&& texts(search.paths@) == variants(joined(fw_dir, name))
}

/// Plans the search for the firmware `name` in the directory `fw_dir`.
pub fn firmware_search(name: &str, fw_dir: &str) -> (search: FirmwareSearch)
    ensures
        is_search_for(search, name@, fw_dir@),
{
    let path = join(fw_dir, name);
    let mut xz = path.clone();
    xz.append(".xz");
    let mut zst = path.clone();
    zst.append(".zst");
    let mut paths: Vec<String> = Vec::new();
    paths.push(path);
    paths.push(xz);
    paths.push(zst);
    proof {
        assert(texts(paths@) =~= variants(joined(fw_dir@, name@)));
    }
    FirmwareSearch { wildcard: holds_char(name, '*'), paths }
}

/// The search for a firmware looks only below the directory of firmware,
/// unless the name of the firmware is an absolute path.
pub proof fn law_search_stays_inside(search: FirmwareSearch, name: Seq<char>, fw_dir: Seq<char>)
    requires
        is_search_for(search, name, fw_dir),
        !is_absolute(name),
    ensures
        forall|i: int|
            0 <= i < search.paths@.len() ==> is_below((#[trigger] search.paths@[i])@, fw_dir),
{
    reveal_strlit(".xz");
    reveal_strlit(".zst");
    let paths = texts(search.paths@);
    law_joined_lies_below(fw_dir, name);
    law_joined_lies_below(fw_dir, name + ".xz"@);
    law_joined_lies_below(fw_dir, name + ".zst"@);
    assert(paths.len() == search.paths@.len());
    assert(joined(fw_dir, name) + ".xz"@ =~= joined(fw_dir, name + ".xz"@));
    assert(joined(fw_dir, name) + ".zst"@ =~= joined(fw_dir, name + ".zst"@));
    assert forall|i: int| 0 <= i < search.paths@.len() implies is_below(
        (#[trigger] search.paths@[i])@,
        fw_dir,
    ) by {
        assert(paths[i] == search.paths@[i]@);
        assert(i == 0 || i == 1 || i == 2);
    }
}

/// The answer to a search.
#[derive(Debug)]
pub enum SearchReply {
    /// Whether something exists at each of the paths.
    Exists(Vec<bool>),
    /// What each of the patterns matches.
    Matches(Vec<Vec<String>>),
}

/// Whether an answer is one to this search.
pub open spec fn answers_search(reply: SearchReply, search: FirmwareSearch) -> bool {
    match reply {
        SearchReply::Exists(flags) => !search.wildcard && flags@.len() == search.paths@.len(),
        SearchReply::Matches(found) => search.wildcard && found@.len() == search.paths@.len(),
    }
}

/// The paths whose flags are set.
pub open spec fn picked(paths: Seq<Seq<char>>, flags: Seq<bool>) -> Seq<Seq<char>>
    decreases paths.len(),
{
    if paths.len() == 0 {
        Seq::empty()
    } else {
        let before = picked(paths.drop_last(), flags.drop_last());
        if flags.last() {
            before.push(paths.last())
        } else {
            before
        }
    }
}

/// All paths of several lists, in order.
pub open spec fn all_matches(found: Seq<Seq<Seq<char>>>) -> Seq<Seq<char>>
    decreases found.len(),
{
    if found.len() == 0 {
        Seq::empty()
    } else {
        all_matches(found.drop_last()) + found.last()
    }
}

/// The characters of each string of several lists.
pub open spec fn list_texts(found: Seq<Vec<String>>) -> Seq<Seq<Seq<char>>> {
    found.map_values(|list: Vec<String>| texts(list@))
}

/// The files that a search found, when it was answered so: the paths at which
/// something exists, or what the patterns match, no path twice.
pub open spec fn found_files(paths: Seq<Seq<char>>, reply: SearchReply) -> Seq<Seq<char>> {
    match reply {
        SearchReply::Exists(flags) => picked(paths, flags@),
        SearchReply::Matches(found) => distinct_paths(all_matches(list_texts(found@)), Set::empty()),
    }
}

proof fn lemma_distinct_concat(a: Seq<Seq<char>>, b: Seq<Seq<char>>, known: Set<Seq<Seq<char>>>)
    ensures
        distinct_paths(a + b, known) == distinct_paths(a, known) + distinct_paths(
            b,
            known.union(crate::path_set::all_components(a).to_set()),
        ),
    decreases b.len(),
{
    let seen = known.union(crate::path_set::all_components(a).to_set());
    if b.len() == 0 {
        assert(a + b =~= a);
        assert(distinct_paths(a, known) + distinct_paths(b, seen) =~= distinct_paths(a, known));
    } else {
        let shorter = b.drop_last();
        lemma_distinct_concat(a, shorter, known);
        assert((a + b).drop_last() =~= a + shorter);
        assert((a + b).last() == b.last());
        let last = crate::path::components(b.last());
        let (left, right) = (
            crate::path_set::all_components(a),
            crate::path_set::all_components(shorter),
        );
        assert(crate::path_set::all_components(a + shorter) =~= left + right);
        assert((left + right).contains(last) <==> left.contains(last) || right.contains(last)) by {
            if left.contains(last) {
                let i = choose|i: int| 0 <= i < left.len() && left[i] == last;
                assert((left + right)[i] == last);
            }
            if right.contains(last) {
                let i = choose|i: int| 0 <= i < right.len() && right[i] == last;
                assert((left + right)[left.len() + i] == last);
            }
        }
        let (x, y) = (distinct_paths(a, known), distinct_paths(shorter, seen));
        assert((x + y).push(b.last()) =~= x + y.push(b.last()));
    }
}

/// The files that a search found.
pub fn find_firmware_files(search: &FirmwareSearch, reply: SearchReply) -> (files: Vec<String>)
    requires
        answers_search(reply, *search),
    ensures
        texts(files@) == found_files(texts(search.paths@), reply),
{
    match reply {
        SearchReply::Exists(flags) => {
            let ghost paths = texts(search.paths@);
            let mut files: Vec<String> = Vec::new();
            let mut i: usize = 0;
            while i < flags.len()
                invariant
                    i <= flags@.len() == search.paths@.len(),
                    paths == texts(search.paths@),
                    texts(files@) == picked(paths.take(i as int), flags@.take(i as int)),
                decreases flags@.len() - i,
            {
                proof {
                    assert(paths.take(i + 1).drop_last() == paths.take(i as int));
                    assert(flags@.take(i + 1).drop_last() == flags@.take(i as int));
                    assert(paths.take(i + 1).last() == search.paths@[i as int]@);
                }
                if flags[i] {
                    let path = search.paths[i].clone();
                    proof {
                        assert(texts(files@.push(path)) =~= texts(files@).push(path@));
                    }
                    files.push(path);
                }
                i += 1;
            }
            proof {
                assert(paths.take(flags@.len() as int) == paths);
                assert(flags@.take(flags@.len() as int) == flags@);
            }
            files
        },
        SearchReply::Matches(found) => {
            let ghost lists = list_texts(found@);
            let mut set = PathSet::new();
            let mut i: usize = 0;
            while i < found.len()
                invariant
                    i <= found@.len(),
                    lists == list_texts(found@),
                    set.wf(),
                    set@ == crate::path_set::all_components(
                        all_matches(lists.take(i as int)),
                    ).to_set(),
                    set.listed() == distinct_paths(
                        all_matches(lists.take(i as int)),
                        Set::empty(),
                    ),
                decreases found@.len() - i,
            {
                set.extend(&found[i]);
                proof {
                    let before = all_matches(lists.take(i as int));
                    let added = texts(found@[i as int]@);
                    assert(lists.take(i + 1).drop_last() == lists.take(i as int));
                    assert(lists.take(i + 1).last() == added);
                    lemma_distinct_concat(before, added, Set::empty());
                    let (left, right) = (
                        crate::path_set::all_components(before),
                        crate::path_set::all_components(added),
                    );
                    assert(Set::<Seq<Seq<char>>>::empty().union(left.to_set()) =~= left.to_set());
                    assert(crate::path_set::all_components(before + added) =~= left + right);
                    assert((left + right).to_set() =~= left.to_set().union(right.to_set())) by {
                        broadcast use vstd::seq_lib::group_seq_properties;
                    }
                }
                i += 1;
            }
            proof {
                assert(lists.take(found@.len() as int) == lists);
            }
            set.into_paths()
        },
    }
}

/// A text without a slash, or with what stands before its last slash.
proof fn lemma_last_slash(path: Seq<char>) -> (parts: (Option<Seq<char>>, Seq<char>))
    ensures
        !parts.1.contains('/'),
        match parts.0 {
            Some(front) => path == front + seq!['/'] + parts.1,
            None => path == parts.1,
        },
    decreases path.len(),
{
    if path.len() == 0 {
        (None, path)
    } else if path.last() == '/' {
        let front = path.drop_last();
        assert(path =~= front + seq!['/'] + Seq::<char>::empty());
        (Some(front), Seq::empty())
    } else {
        let (front, shorter) = lemma_last_slash(path.drop_last());
        let name = shorter.push(path.last());
        assert(!name.contains('/')) by {
            if name.contains('/') {
                let k = choose|k: int| 0 <= k < name.len() && name[k] == '/';
                assert(shorter[k] == '/');
            }
        }
        assert(path =~= path.drop_last().push(path.last()));
        match front {
            Some(front) => {
                assert((front + seq!['/'] + shorter).push(path.last()) =~= front + seq!['/']
                    + name);
            },
            None => {
                assert(path =~= name);
            },
        }
        (front, name)
    }
}

/// A path is that of a kernel module where its text ends in `.ko.xz` or in
/// `.ko.zst`, or in `.ko` with something of the same name before it. The path
/// is not one that ends in a slash or in dots.
pub proof fn law_modules_end_in_their_endings(path: &str, yes: bool)
    requires
        call_ensures(module_path_form, (path,), yes),
        path@.len() > 0,
        path@[path@.len() - 1] != '/',
        path@[path@.len() - 1] != '.',
    ensures
        yes <==> {
            ||| has_suffix(path@, seq!['.', 'k', 'o', '.', 'x', 'z'])
            ||| has_suffix(path@, seq!['.', 'k', 'o', '.', 'z', 's', 't'])
            ||| has_suffix(path@, seq!['.', 'k', 'o']) && path@.len() > 3 && path@[path@.len() - 4]
                != '/'
        },
{
    lemma_module_endings(path@);
}

proof fn lemma_module_endings(path: Seq<char>)
    requires
        path.len() > 0,
        path[path.len() - 1] != '/',
        path[path.len() - 1] != '.',
    ensures
        is_module_path(path) <==> {
            ||| has_suffix(path, seq!['.', 'k', 'o', '.', 'x', 'z'])
            ||| has_suffix(path, seq!['.', 'k', 'o', '.', 'z', 's', 't'])
            ||| has_suffix(path, seq!['.', 'k', 'o']) && path.len() > 3 && path[path.len() - 4]
                != '/'
        },
{
    reveal_strlit(".ko");
    reveal_strlit(".ko.xz");
    reveal_strlit(".ko.zst");
    let ending = seq!['.', 'k', 'o'];
    assert(".ko"@ =~= ending);
    assert(".ko.xz"@ =~= seq!['.', 'k', 'o', '.', 'x', 'z']);
    assert(".ko.zst"@ =~= seq!['.', 'k', 'o', '.', 'z', 's', 't']);
    let (front, name) = lemma_last_slash(path);
    assert(name.len() > 0);
    assert(name[name.len() - 1] == path[path.len() - 1]);
    assert(name != seq!['.'] && name != seq!['.', '.']);
    match front {
        Some(front) => {
            law_names_follow_the_last_slash(front, name);
        },
        None => {
            law_names_follow_the_last_slash(path, name);
        },
    }
    assert(file_name_of(path) == Some(name));
    let shift = path.len() - name.len();
    assert forall|k: int| 0 <= k < name.len() implies name[k] == #[trigger] path[shift + k] by {}
    if has_suffix(name, ending) && name.len() > 3 {
        let n = name.skip(name.len() - 3);
        assert(path.skip(path.len() - 3) =~= n);
        assert(path[path.len() - 4] == name[name.len() - 4]);
        assert(name.contains(name[name.len() - 4]));
    }
    if has_suffix(path, ending) && path.len() > 3 && path[path.len() - 4] != '/' {
        let p = path.skip(path.len() - 3);
        assert(p[0] == '.' && p[1] == 'k' && p[2] == 'o');
        assert(path[path.len() - 3] == p[0] && path[path.len() - 2] == p[1]);
        if name.len() <= 3 {
            assert(front is Some);
            assert(path[shift - 1] == '/');
        }
        assert(name.skip(name.len() - 3) =~= p);
    }
}

proof fn lemma_modules_of_more(steps: WalkSteps, more: WalkSteps, n: int)
    requires
        0 <= n <= steps.len(),
        steps.len() <= more.len(),
        more.take(steps.len() as int) == steps,
    ensures
        kernel_modules(more, n) == kernel_modules(steps, n),
    decreases n,
{
    if n > 0 {
        lemma_modules_of_more(steps, more, n - 1);
        assert(more.take(steps.len() as int)[n - 1] == more[n - 1]);
    }
}

/// A walk that meets one more entry finds one module more, at the end, where
/// the entry is a file with the path of a module, and else the same modules.
/// The path is not one that ends in a slash or in dots.
pub proof fn law_each_module_is_found_once(
    steps: Vec<Result<WalkEntry, std::io::Error>>,
    more: Vec<Result<WalkEntry, std::io::Error>>,
    entry: WalkEntry,
    list: Vec<String>,
    longer: Vec<String>,
)
    requires
        call_ensures(find_kernel_modules, (steps,), Ok(list)),
        call_ensures(find_kernel_modules, (more,), Ok(longer)),
        more@ == steps@.push(Ok(entry)),
        entry.path@.len() > 0,
        entry.path@[entry.path@.len() - 1] != '/',
        entry.path@[entry.path@.len() - 1] != '.',
    ensures
        steps@.len() == 0 ==> list@.len() == 0,
        ({
            let path = entry.path@;
            texts(longer@) == if entry.is_file && (has_suffix(
                path,
                seq!['.', 'k', 'o', '.', 'x', 'z'],
            ) || has_suffix(path, seq!['.', 'k', 'o', '.', 'z', 's', 't']) || (has_suffix(
                path,
                seq!['.', 'k', 'o'],
            ) && path.len() > 3 && path[path.len() - 4] != '/')) {
                texts(list@).push(path)
            } else {
                texts(list@)
            }
        }),
{
    let n = steps@.len() as int;
    assert(more@.take(n) =~= steps@);
    lemma_modules_of_more(steps@, more@, n);
    lemma_module_endings(entry.path@);
    assert(texts(list@).len() == list@.len());
}

proof fn lemma_modules_hold(steps: WalkSteps, n: int, i: int)
    requires
        0 <= i < n,
        steps[i]->Ok_0.is_file,
        is_module_path(steps[i]->Ok_0.path@),
    ensures
        kernel_modules(steps, n).contains(steps[i]->Ok_0.path@),
    decreases n,
{
    let path = steps[i]->Ok_0.path@;
    let (before, after) = (kernel_modules(steps, n - 1), kernel_modules(steps, n));
    if i == n - 1 {
        assert(after[before.len() as int] == path);
    } else {
        lemma_modules_hold(steps, n - 1, i);
        let k = choose|k: int| 0 <= k < before.len() && before[k] == path;
        assert(after[k] == path);
    }
}

proof fn lemma_modules_are_entries(steps: WalkSteps, n: int, k: int) -> (i: int)
    requires
        0 <= k < kernel_modules(steps, n).len(),
    ensures
        0 <= i < n,
        steps[i]->Ok_0.is_file,
        is_module_path(steps[i]->Ok_0.path@),
        kernel_modules(steps, n)[k] == steps[i]->Ok_0.path@,
    decreases n,
{
    let (before, after) = (kernel_modules(steps, n - 1), kernel_modules(steps, n));
    if k < before.len() {
        assert(after[k] == before[k]);
        lemma_modules_are_entries(steps, n - 1, k)
    } else {
        n - 1
    }
}

/// A file in any directory is among the modules found where its name is one
/// or more characters followed by `.ko`, `.ko.xz` or `.ko.zst`.
pub proof fn law_modules_are_found(
    steps: Vec<Result<WalkEntry, std::io::Error>>,
    list: Vec<String>,
    i: int,
    dir: Seq<char>,
    stem: Seq<char>,
    ending: Seq<char>,
)
    requires
        call_ensures(find_kernel_modules, (steps,), Ok(list)),
        0 <= i < steps@.len(),
        steps@[i] matches Ok(entry) && entry.is_file && (entry.path@ == dir + seq!['/'] + stem
            + ending || entry.path@ == stem + ending),
        stem.len() > 0,
        !stem.contains('/'),
        ending == seq!['.', 'k', 'o'] || ending == seq!['.', 'k', 'o', '.', 'x', 'z'] || ending
            == seq!['.', 'k', 'o', '.', 'z', 's', 't'],
    ensures
        texts(list@).contains(steps@[i]->Ok_0.path@),
{
    let path = steps@[i]->Ok_0.path@;
    let front = if path == stem + ending {
        stem
    } else {
        dir + seq!['/'] + stem
    };
    assert(path == front + ending);
    law_endings(front, path, ending);
    assert(front[front.len() - 1] == stem[stem.len() - 1]);
    assert(stem.contains(stem[stem.len() - 1]));
    assert(path[front.len() - 1] == front[front.len() - 1]);
    assert(path[path.len() - 1] == ending[ending.len() - 1]);
    lemma_module_endings(path);
    lemma_modules_hold(steps@, steps@.len() as int, i);
}

/// Every module found is a file that the walk met, and its path ends in `.ko`,
/// `.ko.xz` or `.ko.zst` unless it ends in a slash or in dots.
pub proof fn law_only_modules_are_found(
    steps: Vec<Result<WalkEntry, std::io::Error>>,
    list: Vec<String>,
    k: int,
) -> (i: int)
    requires
        call_ensures(find_kernel_modules, (steps,), Ok(list)),
        0 <= k < list@.len(),
    ensures
        0 <= i < steps@.len(),
        steps@[i] matches Ok(entry) && entry.is_file && entry.path@ == list@[k]@,
        list@[k]@.len() > 0,
        ({
            let path = list@[k]@;
            let last = path[path.len() - 1];
            last != '/' && last != '.' ==> {
                ||| has_suffix(path, seq!['.', 'k', 'o'])
                ||| has_suffix(path, seq!['.', 'k', 'o', '.', 'x', 'z'])
                ||| has_suffix(path, seq!['.', 'k', 'o', '.', 'z', 's', 't'])
            }
        }),
{
    assert(texts(list@)[k] == list@[k]@);
    let i = lemma_modules_are_entries(steps@, steps@.len() as int, k);
    let path = list@[k]@;
    assert(steps@[i] is Ok);
    if path.len() == 0 {
        law_modules_have_names(path);
        law_names_follow_the_last_slash(path, path);
    } else if path[path.len() - 1] != '/' && path[path.len() - 1] != '.' {
        lemma_module_endings(path);
    }
    i
}

/// The firmware of a name is looked for at three paths: that of the name in
/// the firmware directory, and that path followed by `.xz` and by `.zst`. A
/// name with an asterisk stands for all that matches it.
pub proof fn law_searches_try_every_ending(name: &str, fw_dir: &str, search: FirmwareSearch)
    requires
        call_ensures(firmware_search, (name, fw_dir), search),
    ensures
        search.paths@.len() == 3,
        search.paths@[0]@ == joined(fw_dir@, name@),
        search.paths@[1]@ == joined(fw_dir@, name@) + seq!['.', 'x', 'z'],
        search.paths@[2]@ == joined(fw_dir@, name@) + seq!['.', 'z', 's', 't'],
        fw_dir@.len() > 0 && fw_dir@[fw_dir@.len() - 1] != '/' && !(name@.len() > 0 && name@[0]
            == '/') ==> search.paths@[0]@ == fw_dir@ + seq!['/'] + name@,
        search.wildcard <==> exists|k: int| 0 <= k < name@.len() && #[trigger] name@[k] == '*',
{
    lemma_variants(joined(fw_dir@, name@));
    law_joining(fw_dir@, name@);
    let paths = texts(search.paths@);
    assert(paths.len() == search.paths@.len());
    assert(paths[0] == search.paths@[0]@);
    assert(paths[1] == search.paths@[1]@);
    assert(paths[2] == search.paths@[2]@);
}

/// The variants of a path are the path, and the path followed by `.xz` and by
/// `.zst`.
pub proof fn lemma_variants(path: Seq<char>)
    ensures
        variants(path).len() == 3,
        variants(path)[0] == path,
        variants(path)[1] == path + seq!['.', 'x', 'z'],
        variants(path)[2] == path + seq!['.', 'z', 's', 't'],
{
    reveal_strlit(".xz");
    reveal_strlit(".zst");
    assert(".xz"@ =~= seq!['.', 'x', 'z']);
    assert(".zst"@ =~= seq!['.', 'z', 's', 't']);
}

/// A search finds what exists at its paths, each such path and no other, and
/// all that its patterns match, each match under some spelling of its path and
/// nothing else.
pub proof fn law_searches_find_what_is_there(
    search: &FirmwareSearch,
    reply: SearchReply,
    files: Vec<String>,
    path: Seq<char>,
)
    requires
        call_ensures(find_firmware_files, (search, reply), files),
        answers_search(reply, *search),
    ensures
        reply matches SearchReply::Exists(flags) ==> (texts(files@).contains(path) <==> exists|
            v: int,
        |
            0 <= v < search.paths@.len() && flags@[v] && (#[trigger] search.paths@[v])@ == path),
        reply matches SearchReply::Matches(found) ==> (texts(files@).contains(path) ==> exists|
            v: int,
        |
            0 <= v < found@.len() && texts((#[trigger] found@[v])@).contains(path)),
        reply matches SearchReply::Matches(found) ==> ((exists|v: int|
            0 <= v < found@.len() && texts((#[trigger] found@[v])@).contains(path)) ==> exists|
            same: Seq<char>,
        | #[trigger]
            texts(files@).contains(same) && components(same) == components(path)),
{
    let paths = texts(search.paths@);
    match reply {
        SearchReply::Exists(flags) => {
            lemma_picked(paths, flags@, path);
            if texts(files@).contains(path) {
                let v = choose|v: int|
                    0 <= v < paths.len() && #[trigger] flags@[v] && paths[v] == path;
                assert(search.paths@[v]@ == path);
            }
            if exists|v: int|
                0 <= v < search.paths@.len() && flags@[v] && (#[trigger] search.paths@[v])@ == path {
                let v = choose|v: int|
                    0 <= v < search.paths@.len() && flags@[v] && (#[trigger] search.paths@[v])@
                        == path;
                assert(flags@[v] && paths[v] == path);
            }
        },
        SearchReply::Matches(found) => {
            let lists = list_texts(found@);
            lemma_all_matches(lists, path);
            lemma_distinct(all_matches(lists), path);
            assert forall|v: int| 0 <= v < found@.len() implies lists[v] == texts(
                (#[trigger] found@[v])@,
            ) by {}
            if texts(files@).contains(path) {
                let v = choose|v: int| 0 <= v < lists.len() && (#[trigger] lists[v]).contains(path);
                assert(texts(found@[v]@).contains(path));
            }
            if exists|v: int| 0 <= v < found@.len() && texts((#[trigger] found@[v])@).contains(
                path,
            ) {
                let v = choose|v: int|
                    0 <= v < found@.len() && texts((#[trigger] found@[v])@).contains(path);
                assert(lists[v].contains(path));
            }
        },
    }
}

/// Each line of the answer of `modinfo` is the name of a firmware, as it
/// stands there, and nothing else is. A failed answer is handed on.
pub proof fn law_names_stand_on_lines(
    reply: Result<String, JanitorError>,
    names: Result<Vec<String>, JanitorError>,
    rest: Result<String, JanitorError>,
    others: Result<Vec<String>, JanitorError>,
    line: Seq<char>,
)
    requires
        call_ensures(firmware_names, (reply,), names),
        call_ensures(firmware_names, (rest,), others),
        !line.contains('\n'),
    ensures
        reply matches Err(e) ==> names == Err::<Vec<String>, JanitorError>(e),
        reply is Ok ==> names is Ok,
        reply is Ok && reply->Ok_0@ == line ==> texts(names->Ok_0@) == if line.len() > 0 {
            seq![line]
        } else {
            Seq::<Seq<char>>::empty()
        },
        reply is Ok && rest is Ok && (reply->Ok_0@ == line + seq!['\r', '\n'] + rest->Ok_0@ || ((
        line.len() == 0 || line[line.len() - 1] != '\r') && reply->Ok_0@ == line + seq!['\n']
            + rest->Ok_0@)) ==> texts(names->Ok_0@) == seq![line] + texts(others->Ok_0@),
{
    let tail = match rest {
        Ok(text) => text@,
        Err(_) => Seq::empty(),
    };
    law_lines_end_at_line_feeds(line, tail);
}

} // verus!
