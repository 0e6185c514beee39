//! Kernel drivers: which of them an image needs.
use crate::command::{modinfo, modinfo_args, replied, CommandRunner};
use crate::error::JanitorError;
use crate::path::{
    components_below, file_name, file_name_of, is_below, is_plain_name,
    law_names_follow_the_last_slash, law_paths_inside_are_their_names, lemma_split_concat,
    lemma_split_single, relative_to, rendered,
};
use crate::pattern::{any_match, any_pattern_matches, pattern_matches, regex_source, sources};
use crate::text::{
    are_parts, is_blank, is_tight, law_splitting_undoes_splicing, law_trimming_takes_blanks,
    spliced, split, split_on, texts, trim, trimmed,
};
use regex::Regex;
use vstd::hash_map::StringHashMap;
use crate::work::{chunked, law_chunks_hold_all_items, unchunked};
use vstd::prelude::*;

verus! {

/// A kernel module file: the name of the module, its path, and the names of
/// the modules that it depends on.
#[derive(Debug)]
pub struct Driver {
    pub name: String,
    pub path: String,
    pub deps: Vec<String>,
}

/// A driver as a mathematical value.
pub struct DriverView {
    pub name: Seq<char>,
    pub path: Seq<char>,
    pub deps: Seq<Seq<char>>,
}

impl View for Driver {
    type V = DriverView;

    open spec fn view(&self) -> DriverView {
        DriverView { name: self.name@, path: self.path@, deps: texts(self.deps@) }
    }
}

impl Clone for Driver {
    fn clone(&self) -> (res: Driver)
        ensures
            res@ == self@,
    {
        let deps = self.deps.clone();
        proof {
            assert(texts(deps@) =~= texts(self.deps@));
        }
        Driver { name: self.name.clone(), path: self.path.clone(), deps }
    }
}

/// The parts of `list` that are not empty.
pub open spec fn not_empty(list: Seq<Seq<char>>) -> Seq<Seq<char>> {
    list.filter(|part: Seq<char>| part.len() > 0)
}

/// The driver at `path`, when `modinfo` answered `reply` to the question for
/// its dependencies, or nothing.
pub open spec fn driver_of(path: Seq<char>, reply: Option<Seq<char>>) -> DriverView {
    DriverView {
        name: split_on(file_name_of(path)->0, '.')[0],
        path,
        deps: match reply {
            Some(text) => not_empty(split_on(trimmed(text), ',')),
            None => Seq::empty(),
        },
    }
}

/// The text of a reply, where there is one.
pub open spec fn reply_text(reply: Result<String, JanitorError>) -> Option<Seq<char>> {
    match reply {
        Ok(text) => Some(text@),
        Err(_) => None,
    }
}

impl Driver {
    /// The driver at `path`, when `modinfo` gave `reply` for its
    /// dependencies. A failed reply stands for a driver without dependencies.
    pub fn from_reply(path: &str, reply: Result<String, JanitorError>) -> (driver: Driver)
        requires
            file_name_of(path@) is Some,
        ensures
            driver@ == driver_of(path@, reply_text(reply)),
    {
        let text = match reply {
            Ok(text) => text,
            Err(_) => String::new(),
        };
        let deps = split_list(text.as_str());
        let name = match file_name(path) {
            Some(name) => name,
            None => String::new(),
        };
        let parts = split(name.as_str(), '.');
        proof {
            crate::text::lemma_split_not_empty(name@, '.');
            assert(texts(parts@)[0] == parts@[0]@);
            if reply is Err {
                assert(trimmed(text@) =~= Seq::<char>::empty());
                assert(split_on(trimmed(text@), ',') =~= seq![Seq::<char>::empty()]);
                reveal_with_fuel(Seq::filter, 2);
                assert(seq![Seq::<char>::empty()].drop_last() =~= Seq::<Seq<char>>::empty());
                assert(not_empty(seq![Seq::<char>::empty()]) =~= Seq::<Seq<char>>::empty());
            }
        }
        let driver = Driver { name: parts[0].clone(), path: path.to_owned(), deps };
        driver
    }

    /// Asks `modinfo` for the dependencies of the driver at `path`.
    pub fn from_file<R: CommandRunner>(path: &str, runner: &R) -> (res: Result<
        Driver,
        JanitorError,
    >)
        requires
            file_name_of(path@) is Some,
        ensures
            exists|reply: Result<String, JanitorError>| #[trigger]
                replied(runner, "/usr/sbin/modinfo", modinfo_args("depends"@, path@), reply) && (res matches Ok(
                    driver,
                ) && driver@ == driver_of(path@, reply_text(reply))),
    {
        let reply = modinfo(runner, "depends", path);
        Ok(Driver::from_reply(path, reply))
    }
}

/// Splits a list at its commas, without its empty parts and the white space
/// around it.
fn split_list(text: &str) -> (parts: Vec<String>)
    ensures
        texts(parts@) == not_empty(split_on(trimmed(text@), ',')),
{
    let all = split(trim(text).as_str(), ',');
    let ghost pieces = texts(all@);
    let mut parts: Vec<String> = Vec::new();
    let mut i: usize = 0;
    proof {
        reveal(Seq::filter);
        assert(pieces.take(0) =~= Seq::<Seq<char>>::empty());
    }
    while i < all.len()
        invariant
            i <= all@.len(),
            pieces == texts(all@),
            texts(parts@) == not_empty(pieces.take(i as int)),
        decreases all@.len() - i,
    {
        proof {
            reveal(Seq::filter);
            assert(pieces.take(i + 1).drop_last() == pieces.take(i as int));
            assert(pieces.take(i + 1).last() == all@[i as int]@);
        }
        if !all[i].as_str().is_empty() {
            let part = all[i].clone();
            proof {
                assert(texts(parts@.push(part)) =~= texts(parts@).push(part@));
            }
            parts.push(part);
        }
        i += 1;
    }
    proof {
        assert(pieces.take(all@.len() as int) == pieces);
    }
    parts
}

/// The drivers of a kernel, in the order in which they were entered. Several
/// files can hold drivers of one name.
pub struct DriverMap {
    drivers: Vec<Driver>,
    latest: StringHashMap<usize>,
    previous: Vec<Option<usize>>,
}

impl DriverMap {
    /// The index leads from each name to the last driver with it, and from
    /// each driver to the one of the same name before it.
    pub closed spec fn wf(&self) -> bool {
        &&& self.previous@.len() == self.drivers@.len()
        &&& forall|name: Seq<char>| #[trigger]
            self.latest@.contains_key(name) ==> {
                &&& self.latest@[name] < self.drivers@.len()
                &&& self.drivers@[self.latest@[name] as int].name@ == name
                &&& forall|j: int|
                    self.latest@[name] < j < self.drivers@.len() ==> (
                    #[trigger] self.drivers@[j]).name@ != name
            }
        &&& forall|i: int|
            0 <= i < self.drivers@.len() ==> self.latest@.contains_key(
                (#[trigger] self.drivers@[i]).name@,
            )
        &&& forall|i: int|
            0 <= i < self.drivers@.len() ==> is_previous(
                self.drivers@,
                i,
                #[trigger] self.previous@[i],
            )
    }

    /// The drivers, in order.
    pub closed spec fn list(&self) -> Seq<DriverView> {
        driver_views(self.drivers@)
    }

    /// A map without drivers.
    pub fn new() -> (map: DriverMap)
        ensures
            map.wf(),
            map.list() == Seq::<DriverView>::empty(),
    {
        let map = DriverMap {
            drivers: Vec::new(),
            latest: StringHashMap::new(),
            previous: Vec::new(),
        };
        proof {
            assert(map.list() =~= Seq::<DriverView>::empty());
        }
        map
    }

    /// Enters a driver after all others.
    #[verifier::rlimit(30)]
    pub fn insert(&mut self, driver: Driver)
        requires
            old(self).wf(),
        ensures
            final(self).wf(),
            final(self).list() == old(self).list().push(driver@),
    {
        let ghost entered = driver@;
        let before: Option<usize> = match self.latest.get(driver.name.as_str()) {
            Some(i) => Some(*i),
            None => None,
        };
        let i: usize = self.drivers.len();
        self.latest.insert(driver.name.clone(), i);
        self.drivers.push(driver);
        self.previous.push(before);
        proof {
            let (olds, news) = (old(self).drivers@, self.drivers@);
            assert forall|j: int| 0 <= j < news.len() implies is_previous(
                news,
                j,
                #[trigger] self.previous@[j],
            ) by {
                if j < i {
                    assert(is_previous(olds, j, old(self).previous@[j]));
                    assert forall|k: int| 0 <= k < j implies #[trigger] news[k] == olds[k] by {}
                } else {
                    assert forall|k: int| 0 <= k < j implies #[trigger] news[k] == olds[k] by {}
                }
            }
            assert forall|j: int| 0 <= j < news.len() implies self.latest@.contains_key(
                (#[trigger] news[j]).name@,
            ) by {
                if j < i {
                    assert(old(self).latest@.contains_key(olds[j].name@));
                }
            }
            assert forall|name: Seq<char>| #[trigger] self.latest@.contains_key(name) implies {
                &&& self.latest@[name] < news.len()
                &&& news[self.latest@[name] as int].name@ == name
                &&& forall|j: int|
                    self.latest@[name] < j < news.len() ==> (#[trigger] news[j]).name@ != name
            } by {
                if name != entered.name {
                    assert(old(self).latest@.contains_key(name));
                    assert forall|j: int| self.latest@[name] < j < news.len() implies (
                    #[trigger] news[j]).name@ != name by {
                        if j < i {
                            assert(news[j] == olds[j]);
                        }
                    }
                }
            }
            assert(self.list() =~= old(self).list().push(entered));
        }
    }

    /// The drivers of the map, in order.
    pub fn drivers(&self) -> (list: &Vec<Driver>)
        ensures
            driver_views(list@) == self.list(),
    {
        &self.drivers
    }

    /// Enters the drivers of another map after all others.
    pub fn absorb(&mut self, other: DriverMap)
        requires
            old(self).wf(),
            other.wf(),
        ensures
            final(self).wf(),
            final(self).list() == old(self).list() + other.list(),
    {
        let ghost all = other.list();
        let given = other.drivers;
        proof {
            assert(all.take(0) =~= Seq::<DriverView>::empty());
            assert(self.list() + all.take(0) =~= self.list());
        }
        for driver in it: given
            invariant
                it.seq() == given@,
                all == driver_views(given@),
                self.wf(),
                self.list() == old(self).list() + all.take(it.index() as int),
        {
            let ghost entered = driver@;
            let ghost n = it.index() as int;
            proof {
                assert(all[n] == entered);
                assert(all.take(n + 1) =~= all.take(n).push(entered));
                assert((old(self).list() + all.take(n)).push(entered) =~= old(self).list()
                    + all.take(n + 1));
            }
            self.insert(driver);
        }
        proof {
            assert(all.take(all.len() as int) =~= all);
        }
    }
}

/// Whether `at` is the position of the last driver before position `i` that
/// has the same name, where there is one.
spec fn is_previous(drivers: Seq<Driver>, i: int, at: Option<usize>) -> bool {
    match at {
        Some(p) => {
            &&& p < i
            &&& drivers[p as int].name@ == drivers[i].name@
            &&& forall|j: int| p < j < i ==> (#[trigger] drivers[j]).name@ != drivers[i].name@
        },
        None => forall|j: int| 0 <= j < i ==> (#[trigger] drivers[j]).name@ != drivers[i].name@,
    }
}

/// The drivers as mathematical values.
pub open spec fn driver_views(list: Seq<Driver>) -> Seq<DriverView> {
    list.map_values(|driver: Driver| driver@)
}

/// A chain of drivers, by their positions in the list, that starts at one of
/// `seeds` and leads from each driver to one with the name of a dependency.
pub open spec fn is_dependency_chain(
    list: Seq<DriverView>,
    seeds: Set<int>,
    chain: Seq<int>,
) -> bool {
    &&& chain.len() > 0
    &&& seeds.contains(chain[0])
    &&& forall|k: int| 0 <= k < chain.len() ==> 0 <= #[trigger] chain[k] < list.len()
    &&& forall|k: int|
        0 < k < chain.len() ==> list[chain[k - 1]].deps.contains(list[#[trigger] chain[k]].name)
}

/// Whether the driver at position `i` stays when the drivers in `seeds` stay:
/// a chain of dependencies leads from one of them to it.
pub open spec fn is_kept(list: Seq<DriverView>, seeds: Set<int>, i: int) -> bool {
    exists|chain: Seq<int>| #[trigger]
        is_dependency_chain(list, seeds, chain) && chain.last() == i
}

/// The positions that are marked.
pub open spec fn marked(marks: Seq<bool>) -> Set<int> {
    Set::new(|i: int| 0 <= i < marks.len() && marks[i])
}

spec fn count_unmarked(marks: Seq<bool>) -> nat
    decreases marks.len(),
{
    if marks.len() == 0 {
        0
    } else {
        count_unmarked(marks.drop_last()) + if marks.last() {
            0nat
        } else {
            1
        }
    }
}

proof fn lemma_mark_one(marks: Seq<bool>, i: int)
    requires
        0 <= i < marks.len(),
        !marks[i],
    ensures
        count_unmarked(marks.update(i, true)) + 1 == count_unmarked(marks),
    decreases marks.len(),
{
    if i == marks.len() - 1 {
        assert(marks.update(i, true).drop_last() == marks.drop_last());
    } else {
        lemma_mark_one(marks.drop_last(), i);
        assert(marks.update(i, true).drop_last() == marks.drop_last().update(i, true));
    }
}

/// A driver with the name of a dependency of a driver that stays, stays too.
pub proof fn law_dependencies_stay(list: Seq<DriverView>, seeds: Set<int>, user: int, dep: int)
    requires
        is_kept(list, seeds, user),
        0 <= dep < list.len(),
        list[user].deps.contains(list[dep].name),
    ensures
        is_kept(list, seeds, dep),
{
    let chain = choose|chain: Seq<int>| #[trigger]
        is_dependency_chain(list, seeds, chain) && chain.last() == user;
    let longer = chain.push(dep);
    assert forall|k: int| 0 < k < longer.len() implies list[longer[k - 1]].deps.contains(
        list[#[trigger] longer[k]].name,
    ) by {
        if k < chain.len() {
            assert(longer[k] == chain[k]);
        }
    }
    assert(is_dependency_chain(list, seeds, longer));
}

/// Whether every driver with the name of a dependency of the driver at
/// position `i` is marked.
spec fn deps_marked(list: Seq<DriverView>, marks: Seq<bool>, i: int) -> bool {
    forall|j: int|
        0 <= j < list.len() && list[i].deps.contains((#[trigger] list[j]).name) ==> marks[j]
}

proof fn lemma_closed_holds_chain(
    list: Seq<DriverView>,
    seeds: Set<int>,
    marks: Seq<bool>,
    chain: Seq<int>,
    n: int,
)
    requires
        is_dependency_chain(list, seeds, chain),
        0 <= n < chain.len(),
        marks.len() == list.len(),
        seeds.subset_of(marked(marks)),
        forall|i: int| 0 <= i < list.len() && #[trigger] marks[i] ==> deps_marked(list, marks, i),
    ensures
        marks[chain[n]],
    decreases n,
{
    if n == 0 {
        assert(marked(marks).contains(chain[0]));
    } else {
        lemma_closed_holds_chain(list, seeds, marks, chain, n - 1);
        let (user, dep) = (chain[n - 1], chain[n]);
        assert(marks[user]);
        assert(list[user].deps.contains(list[dep].name));
    }
}

/// The state of the search for the drivers that stay: every marked driver is
/// kept, every seed is marked, and the dependencies of a marked driver are
/// marked unless the driver is in the worklist or at `busy`.
spec fn is_progress(
    list: Seq<DriverView>,
    seeds: Seq<bool>,
    marks: Seq<bool>,
    worklist: Seq<usize>,
    busy: int,
) -> bool {
    &&& seeds.len() == list.len()
    &&& marks.len() == list.len()
    &&& forall|w: int| 0 <= w < worklist.len() ==> #[trigger] worklist[w] < list.len()
    &&& forall|w: int| 0 <= w < worklist.len() ==> marks[#[trigger] worklist[w] as int]
    &&& forall|i: int|
        0 <= i < list.len() && #[trigger] marks[i] ==> is_kept(list, marked(seeds), i)
    &&& forall|i: int| 0 <= i < list.len() && #[trigger] seeds[i] ==> marks[i]
    &&& forall|i: usize|
        i < list.len() && i != busy && marks[i as int] && !(#[trigger] worklist.contains(i))
            ==> deps_marked(list, marks, i as int)
}

proof fn lemma_mark_dependency(
    list: Seq<DriverView>,
    seeds: Seq<bool>,
    marks: Seq<bool>,
    worklist: Seq<usize>,
    busy: int,
    i: usize,
)
    requires
        is_progress(list, seeds, marks, worklist, busy),
        0 <= busy < list.len(),
        marks[busy],
        i < list.len(),
        list[busy].deps.contains(list[i as int].name),
    ensures
        is_progress(list, seeds, marks.update(i as int, true), worklist.push(i), busy),
{
    let after = marks.update(i as int, true);
    let longer = worklist.push(i);
    law_dependencies_stay(list, marked(seeds), busy, i as int);
    assert forall|w: int| 0 <= w < longer.len() implies after[#[trigger] longer[w] as int] by {
        if w < worklist.len() {
            assert(marks[worklist[w] as int]);
        }
    }
    assert forall|j: usize|
        j < list.len() && j != busy && after[j as int] && !(#[trigger] longer.contains(
            j,
        )) implies deps_marked(list, after, j as int) by {
        if worklist.contains(j) {
            let w = choose|w: int| 0 <= w < worklist.len() && worklist[w] == j;
            assert(longer[w] == j);
        }
        assert(longer[worklist.len() as int] == i);
        assert(deps_marked(list, marks, j as int));
    }
}

/// The positions that are marked.
fn marked_positions(marks: &Vec<bool>) -> (positions: Vec<usize>)
    ensures
        forall|w: int|
            0 <= w < positions@.len() ==> #[trigger] positions@[w] < marks@.len(),
        forall|w: int| 0 <= w < positions@.len() ==> marks@[#[trigger] positions@[w] as int],
        forall|i: usize| i < marks@.len() && marks@[i as int] ==> #[trigger] positions@.contains(i),
{
    let mut positions: Vec<usize> = Vec::new();
    let mut n: usize = 0;
    while n < marks.len()
        invariant
            n <= marks@.len(),
            forall|w: int| 0 <= w < positions@.len() ==> #[trigger] positions@[w] < n,
            forall|w: int| 0 <= w < positions@.len() ==> marks@[#[trigger] positions@[w] as int],
            forall|i: usize| i < n && marks@[i as int] ==> #[trigger] positions@.contains(i),
        decreases marks@.len() - n,
    {
        let ghost before = positions@;
        if marks[n] {
            positions.push(n);
            proof {
                assert forall|i: usize| i < n + 1 && marks@[i as int] implies #[trigger] positions@.contains(i) by {
                    if i < n {
                        assert(before.contains(i));
                        let w = choose|w: int| 0 <= w < before.len() && before[w] == i;
                        assert(positions@[w] == i);
                    } else {
                        assert(positions@[before.len() as int] == i);
                    }
                }
            }
        }
        n += 1;
    }
    positions
}

proof fn lemma_start(list: Seq<DriverView>, seeds: Seq<bool>, worklist: Seq<usize>)
    requires
        seeds.len() == list.len(),
        list.len() <= usize::MAX,
        forall|w: int| 0 <= w < worklist.len() ==> #[trigger] worklist[w] < seeds.len(),
        forall|w: int| 0 <= w < worklist.len() ==> seeds[#[trigger] worklist[w] as int],
        forall|i: usize| i < seeds.len() && seeds[i as int] ==> #[trigger] worklist.contains(i),
    ensures
        is_progress(list, seeds, seeds, worklist, -1),
{
    assert forall|i: int| 0 <= i < list.len() && #[trigger] seeds[i] implies is_kept(
        list,
        marked(seeds),
        i,
    ) by {
        law_chosen_drivers_stay(list, marked(seeds), i);
    }
}

proof fn lemma_finished(list: Seq<DriverView>, seeds: Seq<bool>, marks: Seq<bool>)
    requires
        is_progress(list, seeds, marks, Seq::empty(), -1),
        list.len() <= usize::MAX,
    ensures
        forall|i: int|
            0 <= i < list.len() ==> #[trigger] marks[i] == is_kept(list, marked(seeds), i),
{
    assert forall|i: int| 0 <= i < list.len() && #[trigger] marks[i] implies deps_marked(
        list,
        marks,
        i,
    ) by {
        assert(!Seq::<usize>::empty().contains(i as usize));
    }
    assert forall|i: int| marked(seeds).contains(i) implies marked(marks).contains(i) by {
        assert(seeds[i]);
    }
    assert forall|i: int| 0 <= i < list.len() implies #[trigger] marks[i] == is_kept(
        list,
        marked(seeds),
        i,
    ) by {
        if is_kept(list, marked(seeds), i) {
            let chain = choose|chain: Seq<int>| #[trigger]
                is_dependency_chain(list, marked(seeds), chain) && chain.last() == i;
            lemma_closed_holds_chain(list, marked(seeds), marks, chain, chain.len() - 1);
        }
    }
}

impl DriverMap {
    /// Marks the drivers that stay when those marked in `seeds` stay: these,
    /// and every driver that one of them depends on, directly or through
    /// others. A dependency is meant by its name: all drivers of that name
    /// stay.
    pub fn keep_with_dependencies(&self, seeds: &Vec<bool>) -> (kept: Vec<bool>)
        requires
            self.wf(),
            seeds@.len() == self.list().len(),
        ensures
            kept@.len() == self.list().len(),
            forall|i: int|
                0 <= i < kept@.len() ==> #[trigger] kept@[i] == is_kept(
                    self.list(),
                    marked(seeds@),
                    i,
                ),
    {
        let ghost list = self.list();
        let mut kept: Vec<bool> = seeds.clone();
        let mut worklist: Vec<usize> = marked_positions(seeds);
        let count: usize = seeds.len();
        proof {
            assert(kept@ =~= seeds@);
            lemma_start(list, seeds@, worklist@);
        }
        while worklist.len() > 0
            invariant
                self.wf(),
                list == self.list(),
                count == list.len(),
                is_progress(list, seeds@, kept@, worklist@, -1),
            decreases count_unmarked(kept@), worklist@.len(),
        {
            let ghost pending = worklist@;
            if let Some(at) = worklist.pop() {
                proof {
                    assert(worklist@.push(at) =~= pending);
                    assert(pending[pending.len() - 1] == at);
                }
                self.mark_dependencies(at, seeds, &mut kept, &mut worklist);
            }
        }
        proof {
            assert(worklist@ =~= Seq::<usize>::empty());
            lemma_finished(list, seeds@, kept@);
        }
        kept
    }

    /// Marks the dependencies of the driver at position `at`, and puts those
    /// that were not marked before into the worklist.
    fn mark_dependencies(
        &self,
        at: usize,
        seeds: &Vec<bool>,
        kept: &mut Vec<bool>,
        worklist: &mut Vec<usize>,
    )
        requires
            self.wf(),
            at < self.list().len(),
            is_progress(self.list(), seeds@, old(kept)@, old(worklist)@.push(at), -1),
        ensures
            is_progress(self.list(), seeds@, final(kept)@, final(worklist)@, -1),
            count_unmarked(final(kept)@) <= count_unmarked(old(kept)@),
            count_unmarked(final(kept)@) == count_unmarked(old(kept)@) ==> final(worklist)@
                == old(worklist)@,
    {
        let ghost list = self.list();
        let ghost deps = list[at as int].deps;
        proof {
            let pending = worklist@.push(at);
            assert(pending[worklist@.len() as int] == at);
            assert forall|i: usize| pending.contains(i) implies i == at
                || #[trigger] worklist@.contains(i) by {
                let w = choose|w: int| 0 <= w < pending.len() && pending[w] == i;
                if w < worklist@.len() {
                    assert(worklist@[w] == i);
                }
            }
            assert forall|w: int| 0 <= w < worklist@.len() implies #[trigger] worklist@[w]
                == pending[w] by {}
            assert(is_progress(list, seeds@, kept@, worklist@, at as int));
        }
        let mut k: usize = 0;
        while k < self.drivers[at].deps.len()
            invariant
                self.wf(),
                list == self.list(),
                at < list.len(),
                list.len() == self.drivers@.len(),
                deps == list[at as int].deps,
                deps == texts(self.drivers@[at as int].deps@),
                k <= deps.len(),
                is_progress(list, seeds@, kept@, worklist@, at as int),
                kept@[at as int],
                forall|m: int, j: int|
                    0 <= m < k && 0 <= j < list.len() && #[trigger] deps[m] == (
                    #[trigger] list[j]).name ==> kept@[j],
                count_unmarked(kept@) <= count_unmarked(old(kept)@),
                count_unmarked(kept@) == count_unmarked(old(kept)@) ==> worklist@ == old(worklist)@,
            decreases deps.len() - k,
        {
            proof {
                assert(deps[k as int] == self.drivers@[at as int].deps@[k as int]@);
                assert(deps.contains(deps[k as int]));
            }
            let name = self.drivers[at].deps[k].as_str();
            self.mark_named(name, at, seeds, kept, worklist);
            k += 1;
        }
        proof {
            assert(deps_marked(list, kept@, at as int)) by {
                assert forall|j: int| 0 <= j < list.len() && deps.contains(
                    (#[trigger] list[j]).name,
                ) implies kept@[j] by {
                    let m = choose|m: int| 0 <= m < deps.len() && deps[m] == list[j].name;
                    assert(deps[m] == list[j].name);
                }
            }
            assert(is_progress(list, seeds@, kept@, worklist@, -1));
        }
    }

    /// Marks the drivers with this name, which one that stays depends on, and
    /// puts those that were not marked before into the worklist.
    #[verifier::rlimit(30)]
    fn mark_named(
        &self,
        name: &str,
        at: usize,
        seeds: &Vec<bool>,
        kept: &mut Vec<bool>,
        worklist: &mut Vec<usize>,
    )
        requires
            self.wf(),
            at < self.list().len(),
            self.list()[at as int].deps.contains(name@),
            is_progress(self.list(), seeds@, old(kept)@, old(worklist)@, at as int),
            old(kept)@[at as int],
        ensures
            is_progress(self.list(), seeds@, final(kept)@, final(worklist)@, at as int),
            forall|j: int|
                0 <= j < self.list().len() && old(kept)@[j] ==> #[trigger] final(kept)@[j],
            forall|j: int|
                0 <= j < self.list().len() && (#[trigger] self.list()[j]).name == name@
                    ==> final(kept)@[j],
            count_unmarked(final(kept)@) <= count_unmarked(old(kept)@),
            count_unmarked(final(kept)@) == count_unmarked(old(kept)@) ==> final(worklist)@
                == old(worklist)@,
    {
        let ghost list = self.list();
        let mut cursor: Option<usize> = match self.latest.get(name) {
            Some(i) => Some(*i),
            None => None,
        };
        proof {
            assert forall|j: int| 0 <= j < list.len() implies #[trigger] list[j]
                == self.drivers@[j]@ by {}
        }
        while cursor.is_some()
            invariant
                self.wf(),
                list == self.list(),
                list.len() == self.drivers@.len(),
                forall|j: int| 0 <= j < list.len() ==> #[trigger] list[j] == self.drivers@[j]@,
                at < list.len(),
                list[at as int].deps.contains(name@),
                is_progress(list, seeds@, kept@, worklist@, at as int),
                kept@[at as int],
                forall|j: int| 0 <= j < list.len() && old(kept)@[j] ==> #[trigger] kept@[j],
                match cursor {
                    Some(i) => i < list.len() && list[i as int].name == name@ && forall|j: int|
                        i < j < list.len() && (#[trigger] list[j]).name == name@ ==> kept@[j],
                    None => forall|j: int|
                        0 <= j < list.len() && (#[trigger] list[j]).name == name@ ==> kept@[j],
                },
                count_unmarked(kept@) <= count_unmarked(old(kept)@),
                count_unmarked(kept@) == count_unmarked(old(kept)@) ==> worklist@ == old(worklist)@,
            decreases
                match cursor {
                    Some(i) => i + 1,
                    None => 0,
                },
        {
            if let Some(i) = cursor {
                let ghost marks = kept@;
                proof {
                    assert(is_previous(self.drivers@, i as int, self.previous@[i as int]));
                }
                if !kept[i] {
                    proof {
                        lemma_mark_dependency(list, seeds@, marks, worklist@, at as int, i);
                        lemma_mark_one(marks, i as int);
                    }
                    kept.set(i, true);
                    worklist.push(i);
                }
                cursor = self.previous[i];
                proof {
                    let bound = match cursor {
                        Some(p) => p as int,
                        None => -1,
                    };
                    assert forall|j: int| bound < j < list.len() && (#[trigger] list[j]).name
                        == name@ implies kept@[j] by {
                        if j < i {
                            assert(self.drivers@[j].name@ != self.drivers@[i as int].name@);
                        }
                    }
                }
            }
        }
    }
}

/// The drivers at `paths`, when `modinfo` gave these replies.
pub open spec fn drivers_of(
    paths: Seq<Seq<char>>,
    replies: Seq<Result<String, JanitorError>>,
) -> Seq<DriverView> {
    Seq::new(paths.len(), |i: int| driver_of(paths[i], reply_text(replies[i])))
}

/// Whether `replies` is what `runner` answered to the question for the
/// dependencies of each of `paths`.
pub open spec fn dependencies_replied<R: CommandRunner>(
    runner: &R,
    paths: Seq<Seq<char>>,
    replies: Seq<Result<String, JanitorError>>,
) -> bool {
    &&& replies.len() == paths.len()
    &&& forall|i: int|
        0 <= i < paths.len() ==> replied(
            runner,
            "/usr/sbin/modinfo",
            modinfo_args("depends"@, paths[i]),
            #[trigger] replies[i],
        )
}

/// Reads the drivers at `paths`, one after the other.
pub fn scan_drivers<R: CommandRunner>(paths: &Vec<String>, runner: &R) -> (res: Result<
    DriverMap,
    JanitorError,
>)
    requires
        forall|i: int| 0 <= i < paths@.len() ==> file_name_of((#[trigger] paths@[i])@) is Some,
    ensures
        exists|replies: Seq<Result<String, JanitorError>>| #[trigger]
            dependencies_replied(runner, texts(paths@), replies) && (res matches Ok(map) && map.wf()
                && map.list() == drivers_of(texts(paths@), replies)),
{
    let ghost files = texts(paths@);
    let ghost mut replies: Seq<Result<String, JanitorError>> = Seq::empty();
    let mut map = DriverMap::new();
    let mut i: usize = 0;
    proof {
        assert(drivers_of(files.take(0), replies) =~= Seq::<DriverView>::empty());
    }
    while i < paths.len()
        invariant
            i <= paths@.len(),
            files == texts(paths@),
            forall|j: int| 0 <= j < paths@.len() ==> file_name_of((#[trigger] paths@[j])@) is Some,
            dependencies_replied(runner, files.take(i as int), replies),
            map.wf(),
            map.list() == drivers_of(files.take(i as int), replies),
        decreases paths@.len() - i,
    {
        match Driver::from_file(paths[i].as_str(), runner) {
            Ok(driver) => {
                proof {
                    let file = paths@[i as int]@;
                    let reply = choose|reply: Result<String, JanitorError>| #[trigger]
                        replied(runner, "/usr/sbin/modinfo", modinfo_args("depends"@, file), reply)
                            && driver@ == driver_of(file, reply_text(reply));
                    let longer = replies.push(reply);
                    let before = drivers_of(files.take(i as int), replies);
                    let after = drivers_of(files.take(i + 1), longer);
                    assert forall|j: int| 0 <= j < i + 1 implies replied(
                        runner,
                        "/usr/sbin/modinfo",
                        modinfo_args("depends"@, files.take(i + 1)[j]),
                        #[trigger] longer[j],
                    ) by {
                        if j < i {
                            assert(longer[j] == replies[j]);
                            assert(files.take(i + 1)[j] == files.take(i as int)[j]);
                        }
                    }
                    assert(after =~= before.push(driver@));
                    replies = longer;
                }
                map.insert(driver);
            },
            Err(e) => {
                return Err(e);
            },
        }
        i += 1;
    }
    proof {
        assert(files.take(paths@.len() as int) == files);
    }
    Ok(map)
}

/// What the configuration says of a driver.
#[derive(PartialEq, Eq, Structural)]
pub enum ConfigMark {
    /// It goes, unless a driver that stays depends on it.
    Delete,
    /// It stays.
    Keep,
    /// Nothing: it goes, unless a driver that stays depends on it.
    Unmarked,
}

/// What the configuration says of a driver, by whether one of its patterns
/// for deletion matches and whether one of its patterns for keeping does.
pub fn config_mark(deleting: bool, keeping: bool) -> (mark: ConfigMark)
    ensures
        mark is Delete <==> deleting,
        mark is Keep <==> keeping && !deleting,
{
    if deleting {
        ConfigMark::Delete
    } else if keeping {
        ConfigMark::Keep
    } else {
        ConfigMark::Unmarked
    }
}

/// Whether the configuration keeps a driver. The patterns are matched against
/// its path below the kernel directory.
pub open spec fn is_wanted(
    driver: DriverView,
    kernel_dir: Seq<char>,
    to_keep: Seq<Seq<char>>,
    to_delete: Seq<Seq<char>>,
) -> bool {
    let kernel_path = rendered(components_below(driver.path, kernel_dir));
    any_pattern_matches(to_keep, kernel_path) && !any_pattern_matches(to_delete, kernel_path)
}

/// The positions of the drivers that the configuration keeps.
pub open spec fn config_keeps(
    list: Seq<DriverView>,
    kernel_dir: Seq<char>,
    to_keep: Seq<Seq<char>>,
    to_delete: Seq<Seq<char>>,
) -> Set<int> {
    Set::new(
        |i: int| 0 <= i < list.len() && is_wanted(list[i], kernel_dir, to_keep, to_delete),
    )
}

/// Whether every driver lies below the kernel directory.
pub open spec fn list_below(list: Seq<DriverView>, kernel_dir: Seq<char>) -> bool {
    forall|i: int| 0 <= i < list.len() ==> is_below((#[trigger] list[i]).path, kernel_dir)
}

/// The outcome of a driver cleanup.
#[derive(Debug)]
pub struct DriverPlan {
    /// The drivers that the image does not need.
    pub unneeded: Vec<Driver>,
    /// The files to remove.
    pub removals: Vec<String>,
}

/// The drivers among the first `n` that do not stay, in order.
pub open spec fn unneeded_drivers(
    list: Seq<DriverView>,
    seeds: Set<int>,
    n: int,
) -> Seq<DriverView>
    decreases n,
{
    if n <= 0 {
        Seq::empty()
    } else if is_kept(list, seeds, n - 1) {
        unneeded_drivers(list, seeds, n - 1)
    } else {
        unneeded_drivers(list, seeds, n - 1).push(list[n - 1])
    }
}

/// Whether a driver stays is decided by the driver itself, not by its
/// position.
proof fn lemma_same_drivers_share_fate(
    list: Seq<DriverView>,
    kernel_dir: Seq<char>,
    to_keep: Seq<Seq<char>>,
    to_delete: Seq<Seq<char>>,
    i: int,
    j: int,
)
    requires
        0 <= i < list.len(),
        0 <= j < list.len(),
        list[i] == list[j],
        is_kept(list, config_keeps(list, kernel_dir, to_keep, to_delete), i),
    ensures
        is_kept(list, config_keeps(list, kernel_dir, to_keep, to_delete), j),
{
    let seeds = config_keeps(list, kernel_dir, to_keep, to_delete);
    if seeds.contains(i) {
        law_chosen_drivers_stay(list, seeds, j);
    } else {
        law_others_stay_as_dependencies(list, seeds, i);
        let user = choose|user: int| #[trigger]
            is_kept(list, seeds, user) && list[user].deps.contains(list[i].name);
        law_dependencies_stay(list, seeds, user, j);
    }
}

/// The drivers that do not stay are the unneeded ones.
proof fn lemma_unneeded_contains(
    list: Seq<DriverView>,
    kernel_dir: Seq<char>,
    to_keep: Seq<Seq<char>>,
    to_delete: Seq<Seq<char>>,
    n: int,
    i: int,
)
    requires
        0 <= n <= list.len(),
        0 <= i < list.len(),
    ensures
        ({
            let seeds = config_keeps(list, kernel_dir, to_keep, to_delete);
            &&& unneeded_drivers(list, seeds, n).contains(list[i]) ==> !is_kept(list, seeds, i)
            &&& i < n && !is_kept(list, seeds, i) ==> unneeded_drivers(list, seeds, n).contains(
                list[i],
            )
        }),
    decreases n,
{
    let seeds = config_keeps(list, kernel_dir, to_keep, to_delete);
    if n > 0 {
        lemma_unneeded_contains(list, kernel_dir, to_keep, to_delete, n - 1, i);
        let before = unneeded_drivers(list, seeds, n - 1);
        if !is_kept(list, seeds, n - 1) {
            let after = before.push(list[n - 1]);
            if after.contains(list[i]) {
                let k = choose|k: int| 0 <= k < after.len() && after[k] == list[i];
                if k < before.len() {
                    assert(before[k] == list[i]);
                    assert(before.contains(list[i]));
                } else if is_kept(list, seeds, i) {
                    lemma_same_drivers_share_fate(list, kernel_dir, to_keep, to_delete, i, n - 1);
                }
            }
            if i < n && !is_kept(list, seeds, i) {
                if i == n - 1 {
                    assert(after[before.len() as int] == list[i]);
                } else {
                    let k = choose|k: int| 0 <= k < before.len() && before[k] == list[i];
                    assert(after[k] == list[i]);
                }
            }
        }
    }
}

/// Finds the drivers that the image does not need: those that the
/// configuration does not keep and that no kept driver depends on. They are
/// removed only where `delete` is set.
#[verifier::rlimit(30)]
pub fn cleanup_drivers(
    map: &DriverMap,
    kernel_dir: &str,
    to_keep: &Vec<Regex>,
    to_delete: &Vec<Regex>,
    delete: bool,
) -> (plan: DriverPlan)
    requires
        map.wf(),
        list_below(map.list(), kernel_dir@),
    ensures
        ({
            let list = map.list();
            let seeds = config_keeps(
                list,
                kernel_dir@,
                sources(to_keep@),
                sources(to_delete@),
            );
            &&& driver_views(plan.unneeded@) == unneeded_drivers(list, seeds, list.len() as int)
            &&& forall|i: int|
                0 <= i < list.len() ==> (driver_views(plan.unneeded@).contains(#[trigger] list[i])
                    <==> !is_kept(list, seeds, i))
        }),
        delete ==> texts(plan.removals@) == driver_views(plan.unneeded@).map_values(
            |driver: DriverView| driver.path,
        ),
        !delete ==> plan.removals@.len() == 0,
{
    let ghost list = map.list();
    let ghost (keeping, deleting) = (sources(to_keep@), sources(to_delete@));
    let ghost wanted = config_keeps(list, kernel_dir@, keeping, deleting);
    let drivers = map.drivers();
    proof {
        assert(list.len() == drivers@.len());
    }
    let mut seeds: Vec<bool> = Vec::new();
    let mut i: usize = 0;
    while i < drivers.len()
        invariant
            i <= drivers@.len(),
            list == driver_views(drivers@),
            list_below(list, kernel_dir@),
            keeping == sources(to_keep@),
            deleting == sources(to_delete@),
            wanted == config_keeps(list, kernel_dir@, keeping, deleting),
            seeds@.len() == i,
            forall|j: int| 0 <= j < i ==> #[trigger] seeds@[j] == wanted.contains(j),
        decreases drivers@.len() - i,
    {
        proof {
            assert(list[i as int] == drivers@[i as int]@);
        }
        let kernel_path = relative_to(drivers[i].path.as_str(), kernel_dir);
        let mark = config_mark(
            any_match(to_delete, kernel_path.as_str()),
            any_match(to_keep, kernel_path.as_str()),
        );
        seeds.push(mark == ConfigMark::Keep);
        i += 1;
    }
    let kept = map.keep_with_dependencies(&seeds);
    proof {
        assert(marked(seeds@) =~= wanted) by {
            assert forall|j: int| marked(seeds@).contains(j) <==> wanted.contains(j) by {
                if 0 <= j < seeds@.len() {
                    assert(seeds@[j] == wanted.contains(j));
                }
            }
        }
    }
    let mut unneeded: Vec<Driver> = Vec::new();
    let mut removals: Vec<String> = Vec::new();
    let ghost paths = |driver: DriverView| driver.path;
    let mut k: usize = 0;
    proof {
        assert(driver_views(unneeded@) =~= unneeded_drivers(list, wanted, 0));
        assert(texts(removals@) =~= driver_views(unneeded@).map_values(paths));
    }
    while k < drivers.len()
        invariant
            k <= drivers@.len() == kept@.len(),
            list == driver_views(drivers@),
            forall|j: int| 0 <= j < kept@.len() ==> #[trigger] kept@[j] == is_kept(list, wanted, j),
            driver_views(unneeded@) == unneeded_drivers(list, wanted, k as int),
            paths == (|driver: DriverView| driver.path),
            delete ==> texts(removals@) == driver_views(unneeded@).map_values(paths),
            !delete ==> removals@.len() == 0,
        decreases drivers@.len() - k,
    {
        if !kept[k] {
            let driver = drivers[k].clone();
            let ghost before = unneeded@;
            proof {
                assert(list[k as int] == drivers@[k as int]@);
                assert(driver_views(unneeded@.push(driver)) =~= driver_views(unneeded@).push(
                    driver@,
                ));
                assert(driver_views(unneeded@).push(driver@).map_values(paths) =~= driver_views(
                    unneeded@,
                ).map_values(paths).push(driver@.path));
            }
            if delete {
                let path = driver.path.clone();
                proof {
                    assert(texts(removals@.push(path)) =~= texts(removals@).push(path@));
                }
                removals.push(path);
            }
            unneeded.push(driver);
        }
        k += 1;
    }
    proof {
        assert forall|j: int| 0 <= j < list.len() implies (driver_views(unneeded@).contains(
            #[trigger] list[j],
        ) <==> !is_kept(list, wanted, j)) by {
            lemma_unneeded_contains(
                list,
                kernel_dir@,
                keeping,
                deleting,
                list.len() as int,
                j,
            );
        }
    }
    DriverPlan { unneeded, removals }
}

/// A driver that is chosen to stay does.
pub proof fn law_chosen_drivers_stay(list: Seq<DriverView>, seeds: Set<int>, i: int)
    requires
        0 <= i < list.len(),
        seeds.contains(i),
    ensures
        is_kept(list, seeds, i),
{
    let chain = seq![i];
    assert(is_dependency_chain(list, seeds, chain));
    assert(chain.last() == i);
}

/// Only what must stay does: every set of drivers that holds the chosen ones,
/// and with each driver all those with the name of a dependency, holds all
/// that stay.
pub proof fn law_no_more_than_needed_stays(
    list: Seq<DriverView>,
    seeds: Set<int>,
    stay: Set<int>,
    i: int,
)
    requires
        forall|seed: int| #[trigger]
            seeds.contains(seed) && 0 <= seed < list.len() ==> stay.contains(seed),
        forall|user: int, dep: int|
            #![trigger list[user], list[dep]]
            stay.contains(user) && 0 <= user < list.len() && 0 <= dep < list.len()
                && list[user].deps.contains(list[dep].name) ==> stay.contains(dep),
        is_kept(list, seeds, i),
    ensures
        stay.contains(i),
{
    let chain = choose|chain: Seq<int>| #[trigger]
        is_dependency_chain(list, seeds, chain) && chain.last() == i;
    lemma_chain_inside(list, seeds, stay, chain, chain.len() - 1);
}

proof fn lemma_chain_inside(
    list: Seq<DriverView>,
    seeds: Set<int>,
    stay: Set<int>,
    chain: Seq<int>,
    n: int,
)
    requires
        forall|seed: int| #[trigger]
            seeds.contains(seed) && 0 <= seed < list.len() ==> stay.contains(seed),
        forall|user: int, dep: int|
            #![trigger list[user], list[dep]]
            stay.contains(user) && 0 <= user < list.len() && 0 <= dep < list.len()
                && list[user].deps.contains(list[dep].name) ==> stay.contains(dep),
        is_dependency_chain(list, seeds, chain),
        0 <= n < chain.len(),
    ensures
        stay.contains(chain[n]),
    decreases n,
{
    let dep = chain[n];
    if n == 0 {
        assert(seeds.contains(dep));
    } else {
        lemma_chain_inside(list, seeds, stay, chain, n - 1);
        let user = chain[n - 1];
        assert(list[user].deps.contains(list[dep].name));
    }
}

/// Choosing more drivers to stay makes no other driver go.
pub proof fn law_choosing_more_keeps_more(
    list: Seq<DriverView>,
    seeds: Set<int>,
    more: Set<int>,
    i: int,
)
    requires
        seeds.subset_of(more),
        is_kept(list, seeds, i),
    ensures
        is_kept(list, more, i),
{
    let chain = choose|chain: Seq<int>| #[trigger]
        is_dependency_chain(list, seeds, chain) && chain.last() == i;
    assert(is_dependency_chain(list, more, chain));
}

/// A driver that stays without being chosen has the name of a dependency of
/// another that stays.
pub proof fn law_others_stay_as_dependencies(list: Seq<DriverView>, seeds: Set<int>, i: int)
    requires
        is_kept(list, seeds, i),
        !seeds.contains(i),
    ensures
        exists|user: int| #[trigger]
            is_kept(list, seeds, user) && list[user].deps.contains(list[i].name),
{
    let chain = choose|chain: Seq<int>| #[trigger]
        is_dependency_chain(list, seeds, chain) && chain.last() == i;
    let shorter = chain.drop_last();
    assert(chain.len() > 1);
    assert forall|k: int| 0 < k < shorter.len() implies list[shorter[k - 1]].deps.contains(
        list[#[trigger] shorter[k]].name,
    ) by {
        assert(shorter[k] == chain[k]);
    }
    assert(is_dependency_chain(list, seeds, shorter));
    assert(is_kept(list, seeds, shorter.last()));
    assert(chain[chain.len() - 1] == i);
}

/// Whether the drivers in `left` are those of `list` that stay, in any order.
pub open spec fn are_left(
    list: Seq<DriverView>,
    seeds: Set<int>,
    left: Seq<DriverView>,
) -> bool {
    &&& forall|i: int|
        0 <= i < left.len() ==> exists|p: int|
            0 <= p < list.len() && #[trigger] is_kept(list, seeds, p) && list[p]
                == #[trigger] left[i]
    &&& forall|p: int|
        0 <= p < list.len() && #[trigger] is_kept(list, seeds, p) ==> left.contains(list[p])
}

/// A second cleanup of the drivers removes nothing: of those that the first
/// one left, none is unneeded.
pub proof fn law_second_cleanup_removes_nothing(
    list: Seq<DriverView>,
    left: Seq<DriverView>,
    kernel_dir: Seq<char>,
    to_keep: Seq<Seq<char>>,
    to_delete: Seq<Seq<char>>,
)
    requires
        are_left(list, config_keeps(list, kernel_dir, to_keep, to_delete), left),
    ensures
        forall|i: int|
            0 <= i < left.len() ==> #[trigger] is_kept(
                left,
                config_keeps(left, kernel_dir, to_keep, to_delete),
                i,
            ),
        unneeded_drivers(
            left,
            config_keeps(left, kernel_dir, to_keep, to_delete),
            left.len() as int,
        ) == Seq::<DriverView>::empty(),
{
    let seeds = config_keeps(list, kernel_dir, to_keep, to_delete);
    let again = config_keeps(left, kernel_dir, to_keep, to_delete);
    assert forall|i: int| 0 <= i < left.len() implies #[trigger] is_kept(left, again, i) by {
        let p = choose|p: int|
            0 <= p < list.len() && #[trigger] is_kept(list, seeds, p) && list[p] == left[i];
        lemma_left_is_kept_again(list, left, kernel_dir, to_keep, to_delete, p, i);
    }
    lemma_none_unneeded(left, again, left.len() as int);
}

/// Whether a driver stays again wherever it is in `left`.
spec fn stays_again(
    driver: DriverView,
    left: Seq<DriverView>,
    again: Set<int>,
) -> bool {
    forall|j: int| 0 <= j < left.len() && left[j] == driver ==> #[trigger] is_kept(left, again, j)
}

proof fn lemma_left_is_kept_again(
    list: Seq<DriverView>,
    left: Seq<DriverView>,
    kernel_dir: Seq<char>,
    to_keep: Seq<Seq<char>>,
    to_delete: Seq<Seq<char>>,
    p: int,
    i: int,
)
    requires
        0 <= p < list.len(),
        forall|q: int|
            0 <= q < list.len() && #[trigger] is_kept(
                list,
                config_keeps(list, kernel_dir, to_keep, to_delete),
                q,
            ) ==> left.contains(list[q]),
        is_kept(list, config_keeps(list, kernel_dir, to_keep, to_delete), p),
        0 <= i < left.len(),
        left[i] == list[p],
    ensures
        is_kept(left, config_keeps(left, kernel_dir, to_keep, to_delete), i),
{
    let seeds = config_keeps(list, kernel_dir, to_keep, to_delete);
    let again = config_keeps(left, kernel_dir, to_keep, to_delete);
    let stay = Set::new(
        |q: int| is_kept(list, seeds, q) && stays_again(list[q], left, again),
    );
    assert forall|seed: int| #[trigger]
        seeds.contains(seed) && 0 <= seed < list.len() implies stay.contains(seed) by {
        law_chosen_drivers_stay(list, seeds, seed);
        assert forall|j: int|
            0 <= j < left.len() && left[j] == list[seed] implies #[trigger] is_kept(left, again, j) by {
            assert(again.contains(j));
            law_chosen_drivers_stay(left, again, j);
        }
        assert(stays_again(list[seed], left, again));
    }
    assert forall|user: int, dep: int|
        #![trigger list[user], list[dep]]
        stay.contains(user) && 0 <= user < list.len() && 0 <= dep < list.len()
            && list[user].deps.contains(list[dep].name) implies stay.contains(dep) by {
        lemma_dependency_stays_again(list, left, seeds, again, user, dep);
    }
    law_no_more_than_needed_stays(list, seeds, stay, p);
}

proof fn lemma_dependency_stays_again(
    list: Seq<DriverView>,
    left: Seq<DriverView>,
    seeds: Set<int>,
    again: Set<int>,
    user: int,
    dep: int,
)
    requires
        0 <= user < list.len(),
        0 <= dep < list.len(),
        is_kept(list, seeds, user),
        left.contains(list[user]),
        stays_again(list[user], left, again),
        list[user].deps.contains(list[dep].name),
    ensures
        is_kept(list, seeds, dep),
        stays_again(list[dep], left, again),
{
    law_dependencies_stay(list, seeds, user, dep);
    let u = choose|u: int| 0 <= u < left.len() && left[u] == list[user];
    assert(is_kept(left, again, u));
    assert forall|j: int| 0 <= j < left.len() && left[j] == list[dep] implies #[trigger] is_kept(
        left,
        again,
        j,
    ) by {
        law_dependencies_stay(left, again, u, j);
    }
}

proof fn lemma_none_unneeded(list: Seq<DriverView>, seeds: Set<int>, n: int)
    requires
        0 <= n <= list.len(),
        forall|i: int| 0 <= i < list.len() ==> #[trigger] is_kept(list, seeds, i),
    ensures
        unneeded_drivers(list, seeds, n) == Seq::<DriverView>::empty(),
    decreases n,
{
    if n > 0 {
        lemma_none_unneeded(list, seeds, n - 1);
        assert(is_kept(list, seeds, n - 1));
    }
}

/// A pattern for deletion prevails over the patterns for keeping, and a
/// driver that no pattern matches is not kept for its own sake: either goes
/// unless a driver that stays depends on its name.
pub proof fn law_unwanted_drivers_go(
    list: Seq<DriverView>,
    kernel_dir: Seq<char>,
    to_keep: Seq<Seq<char>>,
    to_delete: Seq<Seq<char>>,
    i: int,
)
    requires
        ({
            let kernel_path = rendered(components_below(list[i].path, kernel_dir));
            any_pattern_matches(to_delete, kernel_path) || !any_pattern_matches(
                to_keep,
                kernel_path,
            )
        }),
        forall|user: int|
            is_kept(list, config_keeps(list, kernel_dir, to_keep, to_delete), user)
                ==> !(#[trigger] list[user]).deps.contains(list[i].name),
    ensures
        !is_kept(list, config_keeps(list, kernel_dir, to_keep, to_delete), i),
{
    let seeds = config_keeps(list, kernel_dir, to_keep, to_delete);
    if is_kept(list, seeds, i) {
        law_others_stay_as_dependencies(list, seeds, i);
        let user = choose|user: int| #[trigger]
            is_kept(list, seeds, user) && list[user].deps.contains(list[i].name);
        assert(list[user].deps.contains(list[i].name));
    }
}

/// The drivers that the workers read, when each of them gets a chunk of the
/// files and the replies for it.
pub open spec fn drivers_by_chunk(
    paths: Seq<Seq<char>>,
    replies: Seq<Result<String, JanitorError>>,
    size: nat,
) -> Seq<Seq<DriverView>> {
    Seq::new(
        chunked(paths, size).len(),
        |k: int| drivers_of(chunked(paths, size)[k], chunked(replies, size)[k]),
    )
}

proof fn lemma_drivers_by_chunk(
    paths: Seq<Seq<char>>,
    replies: Seq<Result<String, JanitorError>>,
    size: nat,
)
    requires
        paths.len() == replies.len(),
    ensures
        chunked(replies, size).len() == chunked(paths, size).len(),
        drivers_by_chunk(paths, replies, size) == chunked(drivers_of(paths, replies), size),
    decreases paths.len(),
{
    let all = drivers_of(paths, replies);
    let lists = drivers_by_chunk(paths, replies, size);
    if paths.len() == 0 {
        assert(lists =~= Seq::<Seq<DriverView>>::empty());
    } else if paths.len() <= size || size == 0 {
        assert(lists =~= seq![all]);
    } else {
        let (more_paths, more_replies) = (paths.skip(size as int), replies.skip(size as int));
        lemma_drivers_by_chunk(more_paths, more_replies, size);
        assert(drivers_of(more_paths, more_replies) =~= all.skip(size as int));
        assert(drivers_of(paths.take(size as int), replies.take(size as int)) =~= all.take(
            size as int,
        ));
        let rest = drivers_by_chunk(more_paths, more_replies, size);
        let front = seq![all.take(size as int)];
        let (p, r) = (chunked(paths, size), chunked(replies, size));
        assert(p == seq![paths.take(size as int)] + chunked(more_paths, size));
        assert(r == seq![replies.take(size as int)] + chunked(more_replies, size));
        assert forall|k: int| 0 <= k < lists.len() implies lists[k] == (front + rest)[k] by {
            if k > 0 {
                assert(p[k] == chunked(more_paths, size)[k - 1]);
                assert(r[k] == chunked(more_replies, size)[k - 1]);
            }
        }
        assert(lists =~= front + rest);
    }
}

/// Reading the drivers in chunks and entering the chunks one after the other
/// gives the same drivers as reading all of them one after the other.
pub proof fn law_chunked_scan_is_whole_scan(
    paths: Seq<Seq<char>>,
    replies: Seq<Result<String, JanitorError>>,
    size: nat,
)
    requires
        paths.len() == replies.len(),
    ensures
        unchunked(drivers_by_chunk(paths, replies, size)) == drivers_of(paths, replies),
{
    lemma_drivers_by_chunk(paths, replies, size);
    law_chunks_hold_all_items(drivers_of(paths, replies), size);
}

proof fn lemma_none_empty(parts: Seq<Seq<char>>)
    requires
        forall|i: int| 0 <= i < parts.len() ==> (#[trigger] parts[i]).len() > 0,
    ensures
        not_empty(parts) == parts,
    decreases parts.len(),
{
    reveal(Seq::filter);
    if parts.len() > 0 {
        let before = parts.drop_last();
        assert forall|i: int| 0 <= i < before.len() implies (#[trigger] before[i]).len() > 0 by {
            assert(parts[i] == before[i]);
        }
        lemma_none_empty(before);
        assert(parts[parts.len() - 1] == parts.last());
        assert(before.push(parts.last()) =~= parts);
    } else {
        assert(not_empty(parts) =~= parts);
    }
}

/// The dependencies of a driver are what stands between the commas of the
/// answer to the question for them, in order, but for what is empty and for the
/// white space around the answer. Without an answer there are none.
pub proof fn law_dependencies_stand_between_commas(
    path: &str,
    reply: Result<String, JanitorError>,
    driver: Driver,
    before: Seq<char>,
    parts: Seq<Seq<char>>,
    after: Seq<char>,
)
    requires
        file_name_of(path@) is Some,
        call_ensures(Driver::from_reply, (path, reply), driver),
        parts.len() > 0,
        are_parts(parts, ','),
        is_blank(before),
        is_blank(after),
        is_tight(spliced(parts, ',')),
        reply matches Ok(text) ==> text@ == before + spliced(parts, ',') + after,
    ensures
        reply is Ok ==> texts(driver.deps@) == parts.filter(|part: Seq<char>| part.len() > 0),
        reply is Ok && (forall|i: int| 0 <= i < parts.len() ==> (#[trigger] parts[i]).len() > 0)
            ==> texts(driver.deps@) == parts,
        reply is Err ==> driver.deps@.len() == 0,
{
    law_trimming_takes_blanks(before, spliced(parts, ','), after);
    law_splitting_undoes_splicing(parts, ',');
    assert(driver@ == driver_of(path@, reply_text(reply)));
    assert(texts(driver.deps@).len() == driver.deps@.len());
    if forall|i: int| 0 <= i < parts.len() ==> (#[trigger] parts[i]).len() > 0 {
        lemma_none_empty(parts);
    }
}

/// The name of a driver is that of its file up to the first dot, and its path
/// is that of its file.
pub proof fn law_drivers_are_named_after_their_files(
    path: &str,
    reply: Result<String, JanitorError>,
    driver: Driver,
    dir: Seq<char>,
    name: Seq<char>,
    ending: Seq<char>,
)
    requires
        file_name_of(path@) is Some,
        call_ensures(Driver::from_reply, (path, reply), driver),
        !name.contains('.'),
        ending.len() == 0 || ending[0] == '.',
        is_plain_name(name + ending),
        path@ == name + ending || path@ == dir + seq!['/'] + (name + ending),
    ensures
        driver.name@ == name,
        driver.path@ == path@,
{
    let file = name + ending;
    law_names_follow_the_last_slash(dir, file);
    lemma_split_single(name, '.');
    if ending.len() == 0 {
        assert(file =~= name);
    } else {
        let rest = ending.drop_first();
        assert(file =~= name.push('.') + rest);
        lemma_split_concat(name, rest, '.');
    }
    assert(split_on(file, '.')[0] == name);
    assert(driver@.name == driver.name@ && driver@.path == driver.path@);
}

/// Whether one of the patterns matches a text.
pub open spec fn some_match(list: Seq<Regex>, text: Seq<char>) -> bool {
    exists|k: int| 0 <= k < list.len() && pattern_matches(regex_source(#[trigger] list[k]), text)
}

/// Whether the driver at position `i` stands in the kernel directory at the
/// end of these names.
pub open spec fn stands_in_kernel(
    list: Seq<DriverView>,
    i: int,
    kernel_dir: Seq<char>,
    names: Seq<Seq<char>>,
) -> bool {
    &&& 0 <= i < list.len()
    &&& kernel_dir.len() > 0
    &&& names.len() > 0
    &&& forall|n: int| 0 <= n < names.len() ==> is_plain_name(#[trigger] names[n])
    &&& list[i].path == kernel_dir + seq!['/'] + spliced(names, '/')
}

proof fn lemma_some_match(list: Seq<Regex>, text: Seq<char>)
    ensures
        any_pattern_matches(sources(list), text) <==> some_match(list, text),
{
    let patterns = sources(list);
    if any_pattern_matches(patterns, text) {
        let k = choose|k: int|
            0 <= k < patterns.len() && pattern_matches(#[trigger] patterns[k], text);
        assert(patterns[k] == regex_source(list[k]));
    }
    if some_match(list, text) {
        let k = choose|k: int|
            0 <= k < list.len() && pattern_matches(regex_source(#[trigger] list[k]), text);
        assert(patterns[k] == regex_source(list[k]));
    }
}

/// The patterns of the configuration see the path of a driver from the kernel
/// directory.
proof fn lemma_wanted(
    list: Seq<DriverView>,
    i: int,
    kernel_dir: Seq<char>,
    names: Seq<Seq<char>>,
    to_keep: Seq<Regex>,
    to_delete: Seq<Regex>,
)
    requires
        stands_in_kernel(list, i, kernel_dir, names),
    ensures
        config_keeps(list, kernel_dir, sources(to_keep), sources(to_delete)).contains(i) <==> (
        some_match(to_keep, spliced(names, '/')) && !some_match(to_delete, spliced(names, '/'))),
{
    law_paths_inside_are_their_names(kernel_dir, names);
    lemma_some_match(to_keep, spliced(names, '/'));
    lemma_some_match(to_delete, spliced(names, '/'));
}

/// A driver stays where its path below the kernel directory matches a pattern
/// of paths to keep and none of paths to delete, whatever else it is. Neither
/// it nor its file is among what goes.
pub proof fn law_wanted_drivers_stay(
    map: &DriverMap,
    kernel_dir: &str,
    to_keep: &Vec<Regex>,
    to_delete: &Vec<Regex>,
    delete: bool,
    plan: DriverPlan,
    i: int,
    names: Seq<Seq<char>>,
)
    requires
        map.wf(),
        list_below(map.list(), kernel_dir@),
        call_ensures(cleanup_drivers, (map, kernel_dir, to_keep, to_delete, delete), plan),
        stands_in_kernel(map.list(), i, kernel_dir@, names),
        some_match(to_keep@, spliced(names, '/')),
        !some_match(to_delete@, spliced(names, '/')),
    ensures
        !driver_views(plan.unneeded@).contains(map.list()[i]),
        !texts(plan.removals@).contains(map.list()[i].path),
{
    let list = map.list();
    let (keep, remove) = (sources(to_keep@), sources(to_delete@));
    let seeds = config_keeps(list, kernel_dir@, keep, remove);
    lemma_wanted(list, i, kernel_dir@, names, to_keep@, to_delete@);
    law_chosen_drivers_stay(list, seeds, i);
    let (gone, removals) = (driver_views(plan.unneeded@), texts(plan.removals@));
    assert(gone == unneeded_drivers(list, seeds, list.len() as int));
    if removals.contains(list[i].path) {
        let r = choose|r: int| 0 <= r < removals.len() && removals[r] == list[i].path;
        assert(removals.len() == plan.removals@.len());
        assert(gone[r].path == list[i].path);
        let j = lemma_unneeded_are_listed(list, seeds, list.len() as int, r);
        lemma_wanted(list, j, kernel_dir@, names, to_keep@, to_delete@);
        law_chosen_drivers_stay(list, seeds, j);
    }
}

proof fn lemma_unneeded_are_listed(
    list: Seq<DriverView>,
    seeds: Set<int>,
    n: int,
    r: int,
) -> (j: int)
    requires
        0 <= n <= list.len(),
        0 <= r < unneeded_drivers(list, seeds, n).len(),
    ensures
        0 <= j < n,
        unneeded_drivers(list, seeds, n)[r] == list[j],
        !is_kept(list, seeds, j),
    decreases n,
{
    let before = unneeded_drivers(list, seeds, n - 1);
    if r < before.len() {
        assert(unneeded_drivers(list, seeds, n)[r] == before[r]);
        lemma_unneeded_are_listed(list, seeds, n - 1, r)
    } else {
        n - 1
    }
}

/// A driver goes where its path below the kernel directory matches a pattern
/// of paths to delete, or none of paths to keep, unless another driver depends
/// on its name. Its file is removed just where files are to be deleted.
pub proof fn law_unwanted_drivers_are_removed(
    map: &DriverMap,
    kernel_dir: &str,
    to_keep: &Vec<Regex>,
    to_delete: &Vec<Regex>,
    delete: bool,
    plan: DriverPlan,
    i: int,
    names: Seq<Seq<char>>,
)
    requires
        map.wf(),
        list_below(map.list(), kernel_dir@),
        call_ensures(cleanup_drivers, (map, kernel_dir, to_keep, to_delete, delete), plan),
        stands_in_kernel(map.list(), i, kernel_dir@, names),
        some_match(to_delete@, spliced(names, '/')) || !some_match(to_keep@, spliced(names, '/')),
        forall|user: int|
            0 <= user < map.list().len() && user != i ==> !(
            #[trigger] map.list()[user]).deps.contains(map.list()[i].name),
    ensures
        driver_views(plan.unneeded@).contains(map.list()[i]),
        delete ==> texts(plan.removals@).contains(map.list()[i].path),
        !delete ==> plan.removals@.len() == 0,
{
    let list = map.list();
    let (keep, remove) = (sources(to_keep@), sources(to_delete@));
    let seeds = config_keeps(list, kernel_dir@, keep, remove);
    lemma_wanted(list, i, kernel_dir@, names, to_keep@, to_delete@);
    if is_kept(list, seeds, i) {
        let others = Set::new(|j: int| 0 <= j < list.len() && j != i);
        assert forall|user: int, dep: int|
            #![trigger list[user], list[dep]]
            others.contains(user) && 0 <= user < list.len() && 0 <= dep < list.len()
                && list[user].deps.contains(list[dep].name) implies others.contains(dep) by {}
        law_no_more_than_needed_stays(list, seeds, others, i);
    }
    let gone = driver_views(plan.unneeded@);
    assert(gone.contains(list[i]));
    if delete {
        let r = choose|r: int| 0 <= r < gone.len() && gone[r] == list[i];
        assert(texts(plan.removals@)[r] == list[i].path);
    }
}

/// A driver that a driver that stays depends on stays too, and so on along all
/// dependencies.
pub proof fn law_needed_drivers_stay(
    map: &DriverMap,
    kernel_dir: &str,
    to_keep: &Vec<Regex>,
    to_delete: &Vec<Regex>,
    delete: bool,
    plan: DriverPlan,
    user: int,
    dep: int,
)
    requires
        map.wf(),
        list_below(map.list(), kernel_dir@),
        call_ensures(cleanup_drivers, (map, kernel_dir, to_keep, to_delete, delete), plan),
        0 <= user < map.list().len(),
        0 <= dep < map.list().len(),
        !driver_views(plan.unneeded@).contains(map.list()[user]),
        map.list()[user].deps.contains(map.list()[dep].name),
    ensures
        !driver_views(plan.unneeded@).contains(map.list()[dep]),
{
    let list = map.list();
    let seeds = config_keeps(list, kernel_dir@, sources(to_keep@), sources(to_delete@));
    assert(is_kept(list, seeds, user));
    law_dependencies_stay(list, seeds, user, dep);
}

/// No driver stays without need: every set of drivers that holds those that
/// the configuration keeps, and with each driver all that it depends on, holds
/// all that stay.
pub proof fn law_no_driver_stays_without_need(
    map: &DriverMap,
    kernel_dir: &str,
    to_keep: &Vec<Regex>,
    to_delete: &Vec<Regex>,
    delete: bool,
    plan: DriverPlan,
    names: spec_fn(int) -> Seq<Seq<char>>,
    stay: Set<int>,
    i: int,
)
    requires
        map.wf(),
        list_below(map.list(), kernel_dir@),
        call_ensures(cleanup_drivers, (map, kernel_dir, to_keep, to_delete, delete), plan),
        forall|j: int|
            0 <= j < map.list().len() ==> stands_in_kernel(
                map.list(),
                j,
                kernel_dir@,
                #[trigger] names(j),
            ),
        forall|j: int|
            0 <= j < map.list().len() && some_match(to_keep@, spliced(#[trigger] names(j), '/'))
                && !some_match(to_delete@, spliced(names(j), '/')) ==> stay.contains(j),
        forall|user: int, dep: int|
            #![trigger map.list()[user], map.list()[dep]]
            stay.contains(user) && 0 <= user < map.list().len() && 0 <= dep < map.list().len()
                && map.list()[user].deps.contains(map.list()[dep].name) ==> stay.contains(dep),
        0 <= i < map.list().len(),
        !driver_views(plan.unneeded@).contains(map.list()[i]),
    ensures
        stay.contains(i),
{
    let list = map.list();
    let seeds = config_keeps(list, kernel_dir@, sources(to_keep@), sources(to_delete@));
    assert forall|seed: int| #[trigger]
        seeds.contains(seed) && 0 <= seed < list.len() implies stay.contains(seed) by {
        lemma_wanted(list, seed, kernel_dir@, names(seed), to_keep@, to_delete@);
    }
    assert(is_kept(list, seeds, i));
    law_no_more_than_needed_stays(list, seeds, stay, i);
}

/// Every module file gives one driver, in order, with the path of the file
/// and what `modinfo` answered for it.
pub proof fn law_every_file_gives_a_driver<R: CommandRunner>(
    paths: &Vec<String>,
    runner: &R,
    map: DriverMap,
    i: int,
) -> (reply: Result<String, JanitorError>)
    requires
        forall|j: int| 0 <= j < paths@.len() ==> file_name_of((#[trigger] paths@[j])@) is Some,
        call_ensures(scan_drivers::<R>, (paths, runner), Ok(map)),
        0 <= i < paths@.len(),
    ensures
        map.wf(),
        map.list().len() == paths@.len(),
        replied(runner, "/usr/sbin/modinfo", modinfo_args("depends"@, paths@[i]@), reply),
        map.list()[i].path == paths@[i]@,
        map.list()[i] == driver_of(paths@[i]@, reply_text(reply)),
{
    let files = texts(paths@);
    let replies = choose|replies: Seq<Result<String, JanitorError>>| #[trigger]
        dependencies_replied(runner, files, replies) && map.list() == drivers_of(files, replies);
    assert(files.len() == paths@.len());
    assert(files[i] == paths@[i]@);
    assert(replied(
        runner,
        "/usr/sbin/modinfo",
        modinfo_args("depends"@, files[i]),
        replies[i],
    ));
    replies[i]
}

} // verus!
