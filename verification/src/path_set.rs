//! Sets of paths.
use crate::path::{
    are_components, below, components, components_below, is_below, lemma_components_form,
    lemma_rendered_components, normal_text, relative_to, rendered,
};
use crate::text::texts;
use vstd::hash_set::StringHashSet;
use vstd::prelude::*;

verus! {

/// The components of each path of a list.
pub open spec fn all_components(paths: Seq<Seq<char>>) -> Seq<Seq<Seq<char>>> {
    paths.map_values(|path: Seq<char>| components(path))
}

/// The paths of a list that are not in `known` and that no earlier path of the
/// list is the same as.
pub open spec fn distinct_paths(
    paths: Seq<Seq<char>>,
    known: Set<Seq<Seq<char>>>,
) -> Seq<Seq<char>>
    decreases paths.len(),
{
    if paths.len() == 0 {
        Seq::empty()
    } else {
        let before = distinct_paths(paths.drop_last(), known);
        let last = components(paths.last());
        if known.contains(last) || all_components(paths.drop_last()).contains(last) {
            before
        } else {
            before.push(paths.last())
        }
    }
}

/// Whether `relative` holds the paths below `base` of a set as seen from
/// `base`.
pub open spec fn is_seen_from(
    paths: Set<Seq<Seq<char>>>,
    relative: Set<Seq<Seq<char>>>,
    base: Seq<char>,
) -> bool {
    forall|path: Seq<char>|
        is_below(path, base) ==> (relative.contains(#[trigger] components_below(path, base))
            <==> paths.contains(components(path)))
}

/// A set of paths. Paths with the same components are one path.
pub struct PathSet {
    items: Vec<String>,
    index: StringHashSet,
}

impl View for PathSet {
    type V = Set<Seq<Seq<char>>>;

    closed spec fn view(&self) -> Set<Seq<Seq<char>>> {
        all_components(texts(self.items@)).to_set()
    }
}

impl PathSet {
    /// The paths of the set, in the order they were put in.
    pub closed spec fn listed(&self) -> Seq<Seq<char>> {
        texts(self.items@)
    }

    /// The index holds the plainest form of every item, and no path twice.
    pub closed spec fn wf(&self) -> bool {
        let listed = all_components(texts(self.items@));
        &&& listed.no_duplicates()
        &&& forall|parts: Seq<Seq<char>>|
            #![trigger listed.contains(parts)]
            listed.contains(parts) ==> self.index@.contains(rendered(parts))
        &&& forall|text: Seq<char>| #[trigger]
            self.index@.contains(text) ==> listed.contains(components(text))
    }

    /// An empty set.
    pub fn new() -> (set: PathSet)
        ensures
            set.wf(),
            set@ == Set::<Seq<Seq<char>>>::empty(),
            set.listed() == Seq::<Seq<char>>::empty(),
    {
        let set = PathSet { items: Vec::new(), index: StringHashSet::new() };
        proof {
            assert(set@ =~= Set::<Seq<Seq<char>>>::empty());
        }
        set
    }

    /// Whether the path is in the set.
    pub fn contains(&self, path: &str) -> (yes: bool)
        requires
            self.wf(),
        ensures
            yes == self@.contains(components(path@)),
    {
        let key = normal_text(path);
        proof {
            lemma_components_form(path@);
            lemma_rendered_components(components(path@));
        }
        self.index.contains(key.as_str())
    }

    /// Puts the path into the set, and says whether it was not there before.
    pub fn insert(&mut self, path: &str) -> (added: bool)
        requires
            old(self).wf(),
        ensures
            final(self).wf(),
            final(self)@ == old(self)@.insert(components(path@)),
            added == !old(self)@.contains(components(path@)),
            final(self).listed() == if added {
                old(self).listed().push(path@)
            } else {
                old(self).listed()
            },
    {
        let ghost listed = all_components(texts(self.items@));
        let ghost parts = components(path@);
        let key = normal_text(path);
        proof {
            lemma_components_form(path@);
            lemma_rendered_components(parts);
        }
        if self.index.contains(key.as_str()) {
            proof {
                assert(self@.insert(parts) =~= self@);
            }
            return false;
        }
        proof {
            assert(!listed.contains(parts));
        }
        let item = path.to_owned();
        self.items.push(item);
        let ghost key_text = key@;
        let _ = self.index.insert(key);
        proof {
            let longer = all_components(texts(self.items@));
            assert(longer =~= listed.push(parts));
            assert forall|p: Seq<Seq<char>>| longer.contains(p) <==> (listed.contains(p) || p
                == parts) by {
                if listed.contains(p) {
                    let i = choose|i: int| 0 <= i < listed.len() && listed[i] == p;
                    assert(longer[i] == p);
                }
                assert(longer[listed.len() as int] == parts);
            }
            assert(self@ =~= old(self)@.insert(parts));
            assert(longer.no_duplicates()) by {
                assert forall|i: int, j: int|
                    0 <= i < longer.len() && 0 <= j < longer.len() && i != j implies longer[i]
                    != longer[j] by {
                    if i < listed.len() {
                        assert(listed.contains(listed[i]));
                    }
                    if j < listed.len() {
                        assert(listed.contains(listed[j]));
                    }
                }
            }
            assert forall|text: Seq<char>| #[trigger]
                self.index@.contains(text) implies longer.contains(components(text)) by {
                if text != key_text {
                    assert(listed.contains(components(text)));
                }
            }
        }
        true
    }

    /// Puts every path of a list into the set.
    pub fn extend(&mut self, paths: &Vec<String>)
        requires
            old(self).wf(),
        ensures
            final(self).wf(),
            final(self)@ == old(self)@.union(all_components(texts(paths@)).to_set()),
            old(self)@ == all_components(old(self).listed()).to_set(),
            final(self).listed() == old(self).listed() + distinct_paths(
                texts(paths@),
                old(self)@,
            ),
    {
        let ghost all = all_components(texts(paths@));
        proof {
            assert(all.take(0).to_set() =~= Set::<Seq<Seq<char>>>::empty());
            assert(self@.union(all.take(0).to_set()) =~= self@);
        }
        let ghost first = self.listed();
        proof {
            assert(texts(paths@).take(0) =~= Seq::<Seq<char>>::empty());
            assert(first + distinct_paths(texts(paths@).take(0), self@) =~= first);
        }
        let mut i: usize = 0;
        while i < paths.len()
            invariant
                i <= paths@.len(),
                all == all_components(texts(paths@)),
                self.wf(),
                first == old(self).listed(),
                self.listed() == first + distinct_paths(texts(paths@).take(i as int), old(self)@),
                self@ == old(self)@.union(all.take(i as int).to_set()),
            decreases paths@.len() - i,
        {
            let _ = self.insert(paths[i].as_str());
            proof {
                let given = texts(paths@);
                assert(given.take(i + 1).drop_last() == given.take(i as int));
                assert(given.take(i + 1).last() == paths@[i as int]@);
                assert(all_components(given.take(i as int)) =~= all.take(i as int));
                let earlier = distinct_paths(given.take(i as int), old(self)@);
                assert((first + earlier).push(paths@[i as int]@) =~= first + earlier.push(
                    paths@[i as int]@,
                ));
                let parts = components(paths@[i as int]@);
                assert(all[i as int] == parts);
                lemma_take_to_set(all, i as int);
                assert(old(self)@.union(all.take(i as int).to_set()).insert(parts) =~= old(
                    self,
                )@.union(all.take(i + 1).to_set()));
            }
            i += 1;
        }
        proof {
            assert(all.take(paths@.len() as int) == all);
            assert(texts(paths@).take(paths@.len() as int) == texts(paths@));
        }
    }

    /// The paths of the set, each once, in the order they were put in.
    pub fn paths(&self) -> (list: &Vec<String>)
        requires
            self.wf(),
        ensures
            texts(list@) == self.listed(),
            all_components(texts(list@)).to_set() == self@,
            all_components(texts(list@)).no_duplicates(),
    {
        &self.items
    }

    /// The paths of the set, each once, in the order they were put in.
    pub fn into_paths(self) -> (list: Vec<String>)
        requires
            self.wf(),
        ensures
            texts(list@) == self.listed(),
            all_components(texts(list@)).to_set() == self@,
            all_components(texts(list@)).no_duplicates(),
    {
        self.items
    }

    /// How many paths are in the set.
    pub fn len(&self) -> (n: usize)
        requires
            self.wf(),
        ensures
            n == self@.len(),
    {
        proof {
            all_components(texts(self.items@)).unique_seq_to_set();
        }
        self.items.len()
    }

    /// Whether every path of the set is `base` or lies below it.
    pub open spec fn all_below(&self, base: Seq<char>) -> bool {
        forall|path: Seq<char>| #[trigger]
            self@.contains(components(path)) ==> is_below(path, base)
    }

    /// Whether every path of the set is `base` or lies below it.
    pub fn lies_below(&self, base: &str) -> (yes: bool)
        requires
            self.wf(),
        ensures
            yes == self.all_below(base@),
    {
        let ghost listed = all_components(texts(self.items@));
        let mut i: usize = 0;
        while i < self.items.len()
            invariant
                i <= self.items@.len(),
                listed == all_components(texts(self.items@)),
                forall|j: int| 0 <= j < i ==> is_below(#[trigger] self.items@[j]@, base@),
            decreases self.items@.len() - i,
        {
            if !below(self.items[i].as_str(), base) {
                proof {
                    assert(listed[i as int] == components(self.items@[i as int]@));
                    assert(self@.contains(components(self.items@[i as int]@)));
                }
                return false;
            }
            i += 1;
        }
        proof {
            assert forall|path: Seq<char>| #[trigger]
                self@.contains(components(path)) implies is_below(path, base@) by {
                let j = choose|j: int| 0 <= j < listed.len() && listed[j] == components(path);
                assert(is_below(self.items@[j]@, base@));
            }
        }
        true
    }

    /// The paths of the set as seen from `base`.
    pub fn relative(&self, base: &str) -> (res: PathSet)
        requires
            self.wf(),
            self.all_below(base@),
        ensures
            res.wf(),
            is_seen_from(self@, res@, base@),
            forall|parts: Seq<Seq<char>>| #[trigger]
                res@.contains(parts) <==> self@.contains(components(base@) + parts),
    {
        let ghost listed = all_components(texts(self.items@));
        let ghost b = components(base@);
        let mut res = PathSet::new();
        let mut i: usize = 0;
        while i < self.items.len()
            invariant
                i <= self.items@.len(),
                self.all_below(base@),
                listed == all_components(texts(self.items@)),
                self@ == listed.to_set(),
                b == components(base@),
                res.wf(),
                forall|parts: Seq<Seq<char>>| #[trigger]
                    res@.contains(parts) <==> listed.take(i as int).contains(b + parts),
            decreases self.items@.len() - i,
        {
            let ghost path = self.items@[i as int]@;
            proof {
                assert(listed[i as int] == components(path));
                assert(self@.contains(components(path)));
            }
            let ghost before = res@;
            let rel = relative_to(self.items[i].as_str(), base);
            let _ = res.insert(rel.as_str());
            proof {
                let rest = components_below(path, base@);
                lemma_components_form(path);
                lemma_tail_form(components(path), b.len() as int);
                lemma_rendered_components(rest);
                assert(components(path) =~= b + rest);
                lemma_take_to_set(listed, i as int);
                assert forall|parts: Seq<Seq<char>>| #[trigger]
                    res@.contains(parts) <==> listed.take(i + 1).contains(b + parts) by {
                    assert(listed.take(i + 1).contains(b + parts) <==> listed.take(
                        i + 1,
                    ).to_set().contains(b + parts));
                    assert(listed.take(i as int).contains(b + parts) <==> listed.take(
                        i as int,
                    ).to_set().contains(b + parts));
                    if b + parts == b + rest {
                        assert((b + parts).skip(b.len() as int) =~= parts);
                        assert((b + rest).skip(b.len() as int) =~= rest);
                    }
                }
            }
            i += 1;
        }
        proof {
            assert(listed.take(listed.len() as int) == listed);
            assert forall|path: Seq<char>| is_below(path, base@) implies (res@.contains(
                #[trigger] components_below(path, base@),
            ) <==> self@.contains(components(path))) by {
                assert(b + components_below(path, base@) =~= components(path));
            }
        }
        res
    }
}

/// The components after some of the first are components.
pub proof fn lemma_tail_form(parts: Seq<Seq<char>>, n: int)
    requires
        are_components(parts),
        0 <= n <= parts.len(),
    ensures
        are_components(parts.skip(n)),
{
    assert forall|i: int| 0 <= i < parts.skip(n).len() implies #[trigger] parts.skip(n)[i] == parts[i
        + n] by {}
}

proof fn lemma_take_to_set<A>(s: Seq<A>, i: int)
    requires
        0 <= i < s.len(),
    ensures
        s.take(i + 1).to_set() == s.take(i).to_set().insert(s[i]),
{
    let (short, long) = (s.take(i), s.take(i + 1));
    assert forall|a: A| long.to_set().contains(a) <==> short.to_set().insert(s[i]).contains(a) by {
        if long.contains(a) {
            let j = choose|j: int| 0 <= j < long.len() && long[j] == a;
            if j < i {
                assert(short[j] == a);
            }
        }
        if short.contains(a) {
            let j = choose|j: int| 0 <= j < short.len() && short[j] == a;
            assert(long[j] == a);
        }
        assert(long[i] == s[i]);
    }
    assert(long.to_set() =~= short.to_set().insert(s[i]));
}

/// A list without repetitions holds no path twice, in whatever spelling, and
/// none that was known before.
pub proof fn law_no_path_is_listed_twice(paths: Seq<Seq<char>>, known: Set<Seq<Seq<char>>>)
    ensures
        forall|i: int, j: int|
            0 <= i < j < distinct_paths(paths, known).len() ==> components(
                #[trigger] distinct_paths(paths, known)[i],
            ) != components(#[trigger] distinct_paths(paths, known)[j]),
        forall|i: int|
            0 <= i < distinct_paths(paths, known).len() ==> !known.contains(
                components(#[trigger] distinct_paths(paths, known)[i]),
            ) && paths.contains(distinct_paths(paths, known)[i]),
    decreases paths.len(),
{
    if paths.len() > 0 {
        let fewer = paths.drop_last();
        law_no_path_is_listed_twice(fewer, known);
        let (before, after) = (distinct_paths(fewer, known), distinct_paths(paths, known));
        assert forall|i: int| 0 <= i < after.len() implies !known.contains(
            components(#[trigger] after[i]),
        ) && paths.contains(after[i]) by {
            if i < before.len() {
                assert(after[i] == before[i]);
                let k = choose|k: int| 0 <= k < fewer.len() && fewer[k] == before[i];
                assert(paths[k] == after[i]);
            } else {
                assert(paths[paths.len() - 1] == after[i]);
            }
        }
        assert forall|i: int, j: int| 0 <= i < j < after.len() implies components(
            #[trigger] after[i],
        ) != components(#[trigger] after[j]) by {
            assert(after[i] == before[i]);
            if j < before.len() {
                assert(after[j] == before[j]);
            } else {
                let k = choose|k: int| 0 <= k < fewer.len() && fewer[k] == before[i];
                assert(all_components(fewer)[k] == components(before[i]));
            }
        }
    }
}

/// A path of the set is in the set as seen from a directory, and nothing else
/// is: the components of the directory are taken away from the beginning.
pub proof fn law_paths_are_seen_from_the_directory(
    set: &PathSet,
    base: &str,
    res: PathSet,
    parts: Seq<Seq<char>>,
)
    requires
        set.wf(),
        set.all_below(base@),
        call_ensures(PathSet::relative, (set, base), res),
    ensures
        res@.contains(parts) <==> set@.contains(components(base@) + parts),
{
}

} // verus!
