//! Unix paths as text: their components, and what is decided by them.
//!
//! Two paths are the same path when their components are the same, whatever
//! separators the two texts repeat.
use crate::text::{
    ends_with, begins_with, has_suffix, lemma_split_not_empty, same_text, spliced, split, split_on,
    texts,
};
use vstd::prelude::*;

verus! {

/// The component that stands for the root directory.
pub open spec fn root() -> Seq<char> {
    seq!['/']
}

/// The component that stands for the directory itself.
pub open spec fn dot() -> Seq<char> {
    seq!['.']
}

/// The component that stands for the parent directory.
pub open spec fn dot_dot() -> Seq<char> {
    seq!['.', '.']
}

/// The components among the parts between separators: empty parts are
/// ignored, and so is a `.` that is not the first part.
pub open spec fn named_parts(parts: Seq<Seq<char>>) -> Seq<Seq<char>>
    decreases parts.len(),
{
    if parts.len() == 0 {
        Seq::empty()
    } else {
        let before = named_parts(parts.drop_last());
        if parts.last().len() == 0 || (parts.last() == dot() && parts.len() > 1) {
            before
        } else {
            before.push(parts.last())
        }
    }
}

/// Whether a path starts at the root directory.
pub open spec fn is_absolute(path: Seq<char>) -> bool {
    path.len() > 0 && path[0] == '/'
}

/// The components of a path.
pub open spec fn components(path: Seq<char>) -> Seq<Seq<char>> {
    let named = named_parts(split_on(path, '/'));
    if is_absolute(path) {
        seq![root()] + named
    } else {
        named
    }
}

/// `base` extended by `path`; an absolute `path` replaces `base`.
pub open spec fn joined(base: Seq<char>, path: Seq<char>) -> Seq<char> {
    if is_absolute(path) || base.len() == 0 {
        path
    } else if base.last() == '/' {
        base + path
    } else {
        base.push('/') + path
    }
}

/// The path with the given components.
pub open spec fn rendered(parts: Seq<Seq<char>>) -> Seq<char>
    decreases parts.len(),
{
    if parts.len() == 0 {
        Seq::empty()
    } else {
        joined(rendered(parts.drop_last()), parts.last())
    }
}

/// Whether a sequence can be the components of a path.
pub open spec fn are_components(parts: Seq<Seq<char>>) -> bool {
    forall|i: int|
        0 <= i < parts.len() ==> {
            &&& (#[trigger] parts[i]).len() > 0
            &&& parts[i].contains('/') ==> i == 0 && parts[i] == root()
            &&& parts[i] == dot() ==> i == 0
        }
}

/// Whether `path` is `base` or lies below it.
pub open spec fn is_below(path: Seq<char>, base: Seq<char>) -> bool {
    let (p, b) = (components(path), components(base));
    b.len() <= p.len() && p.take(b.len() as int) == b
}

/// The components of `path` after those of `base`.
pub open spec fn components_below(path: Seq<char>, base: Seq<char>) -> Seq<Seq<char>> {
    components(path).skip(components(base).len() as int)
}

/// Whether a component is the name of a file or directory.
pub open spec fn is_name(part: Seq<char>) -> bool {
    part != root() && part != dot() && part != dot_dot()
}

/// The final component of a path, where it is a name.
pub open spec fn file_name_of(path: Seq<char>) -> Option<Seq<char>> {
    let parts = components(path);
    if parts.len() > 0 && is_name(parts.last()) {
        Some(parts.last())
    } else {
        None
    }
}

/// A path without its final component; the path of the root directory, and
/// the empty path, have none.
pub open spec fn parent_of(path: Seq<char>) -> Option<Seq<char>> {
    let parts = components(path);
    if parts.len() == 0 || parts.last() == root() {
        None
    } else {
        Some(rendered(parts.drop_last()))
    }
}

/// Splitting around a separator splits its two sides.
pub proof fn lemma_split_concat(a: Seq<char>, b: Seq<char>, sep: char)
    ensures
        split_on(a.push(sep) + b, sep) == split_on(a, sep) + split_on(b, sep),
    decreases b.len(),
{
    let whole = a.push(sep) + b;
    lemma_split_not_empty(b, sep);
    if b.len() == 0 {
        assert(whole == a.push(sep));
        assert(whole.drop_last() == a);
        assert(split_on(b, sep) =~= seq![Seq::<char>::empty()]);
        assert(split_on(a, sep).push(Seq::empty()) =~= split_on(a, sep) + split_on(b, sep));
    } else {
        let shorter = b.drop_last();
        lemma_split_concat(a, shorter, sep);
        lemma_split_not_empty(shorter, sep);
        assert(whole.drop_last() == a.push(sep) + shorter);
        assert(whole.last() == b.last());
        let left = split_on(a, sep);
        let right = split_on(shorter, sep);
        assert((left + right).last() == right.last());
        if b.last() == sep {
            assert((left + right).push(Seq::empty()) =~= left + right.push(Seq::empty()));
        } else {
            let grown = right.last().push(b.last());
            assert((left + right).drop_last().push(grown) =~= left + right.drop_last().push(grown));
        }
    }
}

/// A text without the separator is its own only part.
pub proof fn lemma_split_single(s: Seq<char>, sep: char)
    requires
        !s.contains(sep),
    ensures
        split_on(s, sep) == seq![s],
    decreases s.len(),
{
    if s.len() == 0 {
        assert(s == Seq::<char>::empty());
    } else {
        assert(s.contains(s.last()));
        assert forall|c: char| s.drop_last().contains(c) implies s.contains(c) by {
            let i = choose|i: int| 0 <= i < s.drop_last().len() && s.drop_last()[i] == c;
            assert(s[i] == c);
        }
        lemma_split_single(s.drop_last(), sep);
        assert(s.drop_last().push(s.last()) == s);
        assert(split_on(s, sep) =~= seq![s]);
    }
}

/// No part holds the separator.
pub proof fn lemma_parts_hold_no_separator(s: Seq<char>, sep: char)
    ensures
        forall|i: int| 0 <= i < split_on(s, sep).len() ==> !(#[trigger] split_on(s, sep)[i]).contains(sep),
    decreases s.len(),
{
    if s.len() > 0 {
        lemma_parts_hold_no_separator(s.drop_last(), sep);
        lemma_split_not_empty(s.drop_last(), sep);
        let before = split_on(s.drop_last(), sep);
        assert forall|i: int| 0 <= i < split_on(s, sep).len() implies !(#[trigger] split_on(
            s,
            sep,
        )[i]).contains(sep) by {
            if i < before.len() - 1 {
                assert(split_on(s, sep)[i] == before[i]);
            } else if s.last() == sep && i == before.len() - 1 {
                assert(split_on(s, sep)[i] == before[i]);
            } else if s.last() != sep {
                let grown = before.last().push(s.last());
                assert(split_on(s, sep)[i] == grown);
                if grown.contains(sep) {
                    let k = choose|k: int| 0 <= k < grown.len() && grown[k] == sep;
                    assert(before.last()[k] == sep);
                }
            }
        }
    }
}

proof fn lemma_named_parts_form(parts: Seq<Seq<char>>)
    requires
        forall|i: int| 0 <= i < parts.len() ==> !(#[trigger] parts[i]).contains('/'),
    ensures
        forall|i: int|
            0 <= i < named_parts(parts).len() ==> {
                &&& (#[trigger] named_parts(parts)[i]).len() > 0
                &&& !named_parts(parts)[i].contains('/')
                &&& named_parts(parts)[i] == dot() ==> i == 0 && parts[0] == dot()
            },
        parts.len() > 0 && parts[0].len() == 0 ==> forall|i: int|
            0 <= i < named_parts(parts).len() ==> #[trigger] named_parts(parts)[i] != dot(),
    decreases parts.len(),
{
    if parts.len() > 0 {
        let shorter = parts.drop_last();
        lemma_named_parts_form(shorter);
        let before = named_parts(shorter);
        assert(shorter.len() == 0 ==> before.len() == 0);
        assert(shorter.len() > 0 ==> shorter[0] == parts[0]);
        assert(parts[parts.len() - 1] == parts.last());
        assert(dot().len() == 1);
        assert forall|i: int| 0 <= i < named_parts(parts).len() implies {
            &&& (#[trigger] named_parts(parts)[i]).len() > 0
            &&& !named_parts(parts)[i].contains('/')
            &&& named_parts(parts)[i] == dot() ==> i == 0 && parts[0] == dot()
        } by {
            if i < before.len() {
                assert(named_parts(parts)[i] == before[i]);
            }
        }
    }
}

/// The components of a path are components.
pub proof fn lemma_components_form(path: Seq<char>)
    ensures
        are_components(components(path)),
{
    let parts = split_on(path, '/');
    lemma_parts_hold_no_separator(path, '/');
    lemma_split_not_empty(path, '/');
    lemma_named_parts_form(parts);
    if is_absolute(path) {
        lemma_first_part_of_absolute(path);
        assert(root().len() == 1);
        assert forall|i: int| 0 <= i < components(path).len() implies {
            &&& (#[trigger] components(path)[i]).len() > 0
            &&& components(path)[i].contains('/') ==> i == 0 && components(path)[i] == root()
            &&& components(path)[i] == dot() ==> i == 0
        } by {
            if i > 0 {
                assert(components(path)[i] == named_parts(parts)[i - 1]);
            }
        }
    }
}

proof fn lemma_first_part_of_absolute(path: Seq<char>)
    requires
        is_absolute(path),
    ensures
        split_on(path, '/')[0].len() == 0,
        split_on(path, '/').len() >= 2,
{
    let empty = Seq::<char>::empty();
    assert(path == empty.push('/') + path.drop_first());
    lemma_split_concat(empty, path.drop_first(), '/');
    lemma_split_not_empty(path.drop_first(), '/');
}

proof fn lemma_named_parts_concat(a: Seq<Seq<char>>, b: Seq<Seq<char>>)
    requires
        a.len() > 0,
        b.len() > 0,
    ensures
        b.len() == 1 && b[0].len() > 0 && b[0] != dot() ==> named_parts(a + b) == named_parts(
            a,
        ).push(b[0]),
        named_parts(a).len() <= named_parts(a + b).len(),
        named_parts(a + b).take(named_parts(a).len() as int) == named_parts(a),
    decreases b.len(),
{
    assert((a + b).drop_last() == a + b.drop_last());
    if b.len() == 1 {
        assert(a + b.drop_last() == a);
        assert(named_parts(a).take(named_parts(a).len() as int) == named_parts(a));
    } else {
        lemma_named_parts_concat(a, b.drop_last());
    }
    assert(named_parts(a + b).take(named_parts(a).len() as int) =~= named_parts(a));
}

/// The last part of a text between separators keeps an ending of the text
/// that holds no separator.
pub proof fn lemma_last_part_keeps_ending(s: Seq<char>, tail: Seq<char>, sep: char)
    requires
        !tail.contains(sep),
    ensures
        has_suffix(split_on(s + tail, sep).last(), tail),
    decreases tail.len(),
{
    lemma_split_not_empty(s + tail, sep);
    if tail.len() == 0 {
        let part = split_on(s + tail, sep).last();
        assert(part.skip(part.len() as int) =~= tail);
    } else {
        let shorter = tail.drop_last();
        assert(tail[tail.len() - 1] != sep) by {
            assert(tail.contains(tail[tail.len() - 1]));
        }
        assert forall|i: int| 0 <= i < shorter.len() implies shorter[i] != sep by {
            assert(tail.contains(tail[i]));
        }
        lemma_last_part_keeps_ending(s, shorter, sep);
        assert((s + tail).drop_last() =~= s + shorter);
        let before = split_on(s + shorter, sep).last();
        let part = split_on(s + tail, sep).last();
        assert(part == before.push(tail.last()));
        assert(part.skip(part.len() - tail.len()) =~= before.skip(
            before.len() - shorter.len(),
        ).push(tail.last()));
        assert(shorter.push(tail.last()) =~= tail);
    }
}

/// A path ends in a name where its text ends in `tail`, which holds no
/// separator and is no mere dots.
pub proof fn lemma_ending_in_name(path: Seq<char>, tail: Seq<char>)
    requires
        has_suffix(path, tail),
        tail.len() > 2,
        !tail.contains('/'),
    ensures
        file_name_of(path) matches Some(name) && has_suffix(name, tail),
{
    let front = path.take(path.len() - tail.len());
    assert(path =~= front + tail);
    lemma_last_part_keeps_ending(front, tail, '/');
    lemma_split_not_empty(path, '/');
    let parts = split_on(path, '/');
    let last = parts.last();
    assert(last.len() > 2);
    assert(named_parts(parts).last() == last);
    assert(components(path).last() == last);
}

/// What is joined to a directory lies below it, unless it is absolute.
#[verifier::spinoff_prover]
#[verifier::rlimit(30)]
pub proof fn law_joined_lies_below(base: Seq<char>, path: Seq<char>)
    requires
        !is_absolute(path),
    ensures
        is_below(joined(base, path), base),
{
    let whole = joined(base, path);
    let (b, w) = (components(base), components(whole));
    if base.len() == 0 {
        assert(split_on(base, '/') =~= seq![Seq::<char>::empty()]);
        assert(seq![Seq::<char>::empty()].drop_last() =~= Seq::<Seq<char>>::empty());
        reveal_with_fuel(named_parts, 2);
        assert(b =~= Seq::<Seq<char>>::empty());
        assert(w.take(0) =~= b);
    } else {
        lemma_split_not_empty(path, '/');
        if base.last() == '/' {
            let front = base.drop_last();
            lemma_split_not_empty(front, '/');
            assert(base + path =~= front.push('/') + path);
            lemma_split_concat(front, path, '/');
            lemma_named_parts_concat(split_on(front, '/'), split_on(path, '/'));
            assert(split_on(base, '/').drop_last() =~= split_on(front, '/'));
            assert(named_parts(split_on(base, '/')) == named_parts(split_on(front, '/')));
        } else {
            lemma_split_not_empty(base, '/');
            lemma_split_concat(base, path, '/');
            lemma_named_parts_concat(split_on(base, '/'), split_on(path, '/'));
        }
        assert(whole[0] == base[0]);
        let (x, y) = (named_parts(split_on(base, '/')), named_parts(split_on(whole, '/')));
        assert(y.take(x.len() as int) == x);
        if is_absolute(base) {
            assert(w.take(b.len() as int) =~= seq![root()] + y.take(x.len() as int));
        }
    }
}

/// A path has the components that it was rendered from.
pub proof fn lemma_rendered_components(parts: Seq<Seq<char>>)
    requires
        are_components(parts),
    ensures
        components(rendered(parts)) == parts,
    decreases parts.len(),
{
    reveal_with_fuel(named_parts, 3);
    if parts.len() == 0 {
        assert(split_on(rendered(parts), '/') =~= seq![Seq::<char>::empty()]);
        assert(components(rendered(parts)) =~= parts);
    } else {
        let before = parts.drop_last();
        let last = parts.last();
        assert(parts[parts.len() - 1] == last);
        assert forall|i: int| 0 <= i < before.len() implies #[trigger] before[i] == parts[i] by {}
        lemma_rendered_components(before);
        let base = rendered(before);
        if parts.len() == 1 {
            assert(base =~= Seq::<char>::empty());
            assert(rendered(parts) == last);
            if last == root() {
                let empty = Seq::<char>::empty();
                lemma_split_concat(empty, empty, '/');
                assert(root() =~= empty.push('/') + empty);
                assert(split_on(last, '/') =~= seq![empty, empty]);
                assert(named_parts(seq![empty, empty]) =~= Seq::<Seq<char>>::empty()) by {
                    assert(seq![empty, empty].drop_last() =~= seq![empty]);
                }
                assert(components(last) =~= parts);
            } else {
                assert(!last.contains('/'));
                lemma_split_single(last, '/');
                assert(last.contains(last[0]));
                assert(seq![last].drop_last() =~= Seq::<Seq<char>>::empty());
                assert(named_parts(seq![last]) =~= seq![last]);
                assert(components(last) =~= parts);
            }
        } else {
            assert(!last.contains('/'));
            assert(last != dot());
            assert(last.contains(last[0]));
            assert(!is_absolute(last));
            lemma_split_single(last, '/');
            assert(base.len() > 0) by {
                if base.len() == 0 {
                    assert(base =~= Seq::<char>::empty());
                    assert(split_on(base, '/') =~= seq![Seq::<char>::empty()]);
                    assert(components(base) =~= Seq::<Seq<char>>::empty());
                }
            }
            lemma_split_not_empty(base, '/');
            if base.last() == '/' {
                lemma_ends_in_separator(before);
                let empty = Seq::<char>::empty();
                assert(base == root());
                assert(base + last =~= empty.push('/') + last);
                lemma_split_concat(empty, last, '/');
                assert(split_on(base + last, '/') =~= seq![empty, last]);
                assert(seq![empty, last].drop_last() =~= seq![empty]);
                assert(named_parts(seq![empty, last]) =~= seq![last]);
                assert(before =~= seq![root()]) by {
                    lemma_rendered_root();
                }
                assert(components(rendered(parts)) =~= parts);
            } else {
                lemma_split_concat(base, last, '/');
                lemma_named_parts_concat(split_on(base, '/'), split_on(last, '/'));
                let text = base.push('/') + last;
                assert(text[0] == base[0]);
                assert(components(text) =~= components(base).push(last));
                assert(components(base).push(last) =~= parts);
            }
        }
    }
}

proof fn lemma_rendered_root()
    ensures
        components(root()) == seq![root()],
{
    reveal_with_fuel(named_parts, 3);
    let empty = Seq::<char>::empty();
    lemma_split_concat(empty, empty, '/');
    assert(root() =~= empty.push('/') + empty);
    assert(split_on(root(), '/') =~= seq![empty, empty]);
    assert(seq![empty, empty].drop_last() =~= seq![empty]);
    assert(components(root()) =~= seq![root()]);
}

proof fn lemma_ends_in_separator(parts: Seq<Seq<char>>)
    requires
        are_components(parts),
        parts.len() > 0,
        rendered(parts).len() > 0,
        rendered(parts).last() == '/',
    ensures
        rendered(parts) == root(),
{
    let last = parts.last();
    assert(parts[parts.len() - 1] == last);
    assert(last.len() > 0);
    let base = rendered(parts.drop_last());
    assert(rendered(parts).last() == last.last());
    assert(last.contains('/')) by {
        assert(last[last.len() - 1] == '/');
    }
    assert(last == root());
    assert(rendered(parts) == root());
}

/// Splits a path into its components.
pub fn path_components(path: &str) -> (parts: Vec<String>)
    ensures
        texts(parts@) == components(path@),
{
    let raw = split(path, '/');
    let ghost all = texts(raw@);
    let mut parts: Vec<String> = Vec::new();
    let absolute = begins_with(path, '/');
    if absolute {
        let slash = "/".to_owned();
        proof {
            reveal_strlit("/");
            assert(slash@ =~= root());
        }
        parts.push(slash);
    }
    let ghost front = texts(parts@);
    proof {
        assert(front =~= if is_absolute(path@) {
            seq![root()]
        } else {
            Seq::<Seq<char>>::empty()
        });
        assert(all.take(0) =~= Seq::<Seq<char>>::empty());
        assert(front + named_parts(all.take(0)) =~= front);
    }
    let mut i: usize = 0;
    while i < raw.len()
        invariant
            i <= raw@.len(),
            all == texts(raw@),
            texts(parts@) == front + named_parts(all.take(i as int)),
        decreases raw@.len() - i,
    {
        let part = raw[i].as_str();
        let ghost before = texts(parts@);
        proof {
            reveal_strlit(".");
            assert("."@ =~= dot());
            assert(all[i as int] == part@);
            assert(all.take(i + 1).drop_last() == all.take(i as int));
            assert(all.take(i + 1).last() == part@);
        }
        if !part.is_empty() && !(i > 0 && same_text(part, ".")) {
            let name = part.to_owned();
            proof {
                assert(texts(parts@.push(name)) =~= before.push(name@));
                assert(before.push(name@) =~= front + named_parts(all.take(i as int)).push(name@));
            }
            parts.push(name);
        }
        i += 1;
    }
    proof {
        assert(all.take(raw@.len() as int) == all);
        assert(texts(parts@) =~= components(path@));
    }
    parts
}

/// Extends `base` by `path`; an absolute `path` replaces `base`.
pub fn join(base: &str, path: &str) -> (res: String)
    ensures
        res@ == joined(base@, path@),
{
    if begins_with(path, '/') || base.is_empty() {
        return path.to_owned();
    }
    let mut res = base.to_owned();
    proof {
        reveal_strlit("/");
        assert("/"@ =~= seq!['/']);
        assert(base@.skip(base@.len() - 1) =~= seq![base@.last()]);
        assert(base@.skip(base@.len() - 1) == "/"@ <==> base@.last() == '/') by {
            if base@.skip(base@.len() - 1) == "/"@ {
                assert(base@.skip(base@.len() - 1)[0] == '/');
            }
        }
    }
    if !ends_with(base, "/") {
        res.push('/');
    }
    res.append(path);
    res
}

/// The path made of the components from `from` up to, not including, `to`.
pub fn render(parts: &Vec<String>, from: usize, to: usize) -> (path: String)
    requires
        from <= to <= parts@.len(),
    ensures
        path@ == rendered(texts(parts@).subrange(from as int, to as int)),
{
    let mut path = String::new();
    let ghost all = texts(parts@);
    let mut i: usize = from;
    while i < to
        invariant
            from <= i <= to <= parts@.len(),
            all == texts(parts@),
            path@ == rendered(all.subrange(from as int, i as int)),
        decreases to - i,
    {
        proof {
            let longer = all.subrange(from as int, i + 1);
            assert(longer.drop_last() == all.subrange(from as int, i as int));
            assert(longer.last() == parts@[i as int]@);
        }
        path = join(path.as_str(), parts[i].as_str());
        i += 1;
    }
    path
}

/// A path in its plainest form: no separator repeated, no `.` but at the
/// beginning of a relative path.
pub fn normal_text(path: &str) -> (res: String)
    ensures
        res@ == rendered(components(path@)),
{
    let parts = path_components(path);
    let count: usize = parts.len();
    proof {
        assert(texts(parts@).subrange(0, count as int) == texts(parts@));
    }
    render(&parts, 0, count)
}

/// Whether the first components of `path` are those of `base`.
fn starts_with_parts(path: &Vec<String>, base: &Vec<String>) -> (yes: bool)
    ensures
        yes == (base@.len() <= path@.len() && texts(path@).take(base@.len() as int) == texts(base@)),
{
    if base.len() > path.len() {
        return false;
    }
    let ghost (p, b) = (texts(path@), texts(base@));
    let mut i: usize = 0;
    while i < base.len()
        invariant
            i <= base@.len() <= path@.len(),
            p == texts(path@),
            b == texts(base@),
            forall|j: int| 0 <= j < i ==> p[j] == #[trigger] b[j],
        decreases base@.len() - i,
    {
        if path[i] != base[i] {
            proof {
                assert(p.take(b.len() as int)[i as int] != b[i as int]);
            }
            return false;
        }
        i += 1;
    }
    proof {
        assert(p.take(b.len() as int) =~= b);
    }
    true
}

/// Whether `path` is `base` or lies below it.
pub fn below(path: &str, base: &str) -> (yes: bool)
    ensures
        yes == is_below(path@, base@),
{
    let p = path_components(path);
    let b = path_components(base);
    starts_with_parts(&p, &b)
}

/// Whether two texts are the same path.
pub fn same_path(a: &str, b: &str) -> (same: bool)
    ensures
        same == (components(a@) == components(b@)),
{
    let p = path_components(a);
    let q = path_components(b);
    proof {
        if texts(p@).len() == texts(q@).len() {
            assert(texts(p@).take(q@.len() as int) == texts(p@));
        }
    }
    p.len() == q.len() && starts_with_parts(&p, &q)
}

/// The path of `path` as seen from `base`.
pub fn relative_to(path: &str, base: &str) -> (res: String)
    requires
        is_below(path@, base@),
    ensures
        res@ == rendered(components_below(path@, base@)),
{
    let p = path_components(path);
    let b = path_components(base);
    proof {
        assert(texts(p@).subrange(b@.len() as int, p@.len() as int) =~= components_below(
            path@,
            base@,
        ));
    }
    render(&p, b.len(), p.len())
}

/// How many components a path has.
pub fn depth(path: &str) -> (n: usize)
    ensures
        n == components(path@).len(),
{
    let parts = path_components(path);
    proof {
        assert(texts(parts@).len() == parts@.len());
    }
    parts.len()
}

/// The final component of a path, where it is a name.
pub fn file_name(path: &str) -> (name: Option<String>)
    ensures
        name is Some <==> file_name_of(path@) is Some,
        name matches Some(n) ==> Some(n@) == file_name_of(path@),
{
    let parts = path_components(path);
    let count: usize = parts.len();
    if count == 0 {
        return None;
    }
    let last = parts[count - 1].clone();
    proof {
        reveal_strlit("/");
        reveal_strlit(".");
        reveal_strlit("..");
        assert("/"@ =~= root());
        assert("."@ =~= dot());
        assert(".."@ =~= dot_dot());
        assert(components(path@).last() == last@);
    }
    if same_text(last.as_str(), "/") || same_text(last.as_str(), ".") || same_text(
        last.as_str(),
        "..",
    ) {
        None
    } else {
        Some(last)
    }
}

/// A path without its final component, where it has one.
pub fn parent(path: &str) -> (res: Option<String>)
    ensures
        res is Some <==> parent_of(path@) is Some,
        res matches Some(p) ==> Some(p@) == parent_of(path@),
{
    let parts = path_components(path);
    let count: usize = parts.len();
    proof {
        reveal_strlit("/");
        assert("/"@ =~= root());
        if count > 0 {
            assert(components(path@).last() == parts@[count - 1]@);
            assert(texts(parts@).subrange(0, count - 1) == components(path@).drop_last());
        }
    }
    if count == 0 || same_text(parts[count - 1].as_str(), "/") {
        None
    } else {
        Some(render(&parts, 0, count - 1))
    }
}

/// The components kept so far, after the component `part` was cleaned: `.` is
/// dropped, and `..` takes the name before it away, is dropped at the root
/// directory, and is kept at the beginning of a relative path.
pub open spec fn clean_step(kept: Seq<Seq<char>>, part: Seq<char>) -> Seq<Seq<char>> {
    if part == dot() {
        kept
    } else if part == dot_dot() && kept.len() > 0 && kept.last() != dot_dot() {
        if kept.last() == root() {
            kept
        } else {
            kept.drop_last()
        }
    } else {
        kept.push(part)
    }
}

/// The components that remain when `.` and `..` are resolved lexically.
pub open spec fn cleaned_parts(parts: Seq<Seq<char>>) -> Seq<Seq<char>>
    decreases parts.len(),
{
    if parts.len() == 0 {
        Seq::empty()
    } else {
        clean_step(cleaned_parts(parts.drop_last()), parts.last())
    }
}

/// A path with `.` and `..` resolved lexically; `.` where nothing remains.
pub open spec fn cleaned(path: Seq<char>) -> Seq<char> {
    let parts = cleaned_parts(components(path));
    if parts.len() == 0 {
        dot()
    } else {
        rendered(parts)
    }
}

/// `path_clean::clean` resolves `.` and `..` without touching the file
/// system: separators are not repeated, `.` is dropped, `..` takes the name
/// before it away, is dropped after the root directory and is kept at the
/// beginning of a relative path, and an empty result becomes `.`.
#[verifier::external_body]
pub(crate) fn clean(path: &str) -> (res: String)
    ensures
        res@ == cleaned(path@),
{
    path_clean::clean(path).to_string_lossy().into_owned()
}

/// Where `.` and `..` are resolved, no `.` remains, and a `..` only at the
/// beginning.
pub proof fn lemma_cleaned_parts(parts: Seq<Seq<char>>)
    requires
        are_components(parts),
    ensures
        are_components(cleaned_parts(parts)),
        forall|i: int|
            0 <= i < cleaned_parts(parts).len() ==> #[trigger] cleaned_parts(parts)[i] != dot(),
        forall|i: int, j: int|
            0 <= i < j < cleaned_parts(parts).len() && #[trigger] cleaned_parts(parts)[j]
                == dot_dot() ==> #[trigger] cleaned_parts(parts)[i] == dot_dot(),
    decreases parts.len(),
{
    if parts.len() > 0 {
        let before = parts.drop_last();
        let part = parts.last();
        assert(parts[parts.len() - 1] == part);
        assert forall|i: int| 0 <= i < before.len() implies #[trigger] before[i] == parts[i] by {}
        lemma_cleaned_parts(before);
        let kept = cleaned_parts(before);
        let after = clean_step(kept, part);
        if part.contains('/') {
            assert(before.len() == 0);
            assert(kept.len() == 0);
        }
        if after == kept.push(part) {
            assert forall|i: int| 0 <= i < after.len() implies {
                &&& (#[trigger] after[i]).len() > 0
                &&& after[i].contains('/') ==> i == 0 && after[i] == root()
                &&& after[i] == dot() ==> i == 0
                &&& after[i] != dot()
            } by {
                if i < kept.len() {
                    assert(after[i] == kept[i]);
                }
            }
            assert forall|i: int, j: int|
                0 <= i < j < after.len() && #[trigger] after[j]
                    == dot_dot() implies #[trigger] after[i] == dot_dot() by {
                assert(after[i] == kept[i]);
                if j < kept.len() {
                    assert(after[j] == kept[j]);
                } else if i < kept.len() - 1 {
                    assert(kept[kept.len() - 1] == dot_dot());
                }
            }
        } else if part != dot() && after != kept {
            assert(after == kept.drop_last());
            assert forall|i: int| 0 <= i < after.len() implies #[trigger] after[i] == kept[i] by {}
        }
    }
}

/// The components of a cleaned path.
pub proof fn lemma_cleaned(path: Seq<char>)
    ensures
        components(cleaned(path)) == if cleaned_parts(components(path)).len() == 0 {
            seq![dot()]
        } else {
            cleaned_parts(components(path))
        },
{
    lemma_components_form(path);
    lemma_cleaned_parts(components(path));
    let parts = cleaned_parts(components(path));
    if parts.len() == 0 {
        let one = seq![dot()];
        assert(dot()[0] == '.');
        assert(!dot().contains('/'));
        assert(are_components(one));
        lemma_rendered_components(one);
        assert(one.drop_last() =~= Seq::<Seq<char>>::empty());
        reveal_with_fuel(rendered, 2);
        assert(rendered(one) == dot());
    } else {
        lemma_rendered_components(parts);
    }
}

/// A cleaned path below a directory does not climb out of it: after the
/// components of the directory comes no `..`. The directory has a component
/// that is not `..`.
pub proof fn law_cleaned_stays_below(path: Seq<char>, base: Seq<char>)
    requires
        is_below(cleaned(path), base),
        exists|i: int| 0 <= i < components(base).len() && #[trigger] components(base)[i] != dot_dot(),
    ensures
        forall|j: int|
            components(base).len() <= j < components(cleaned(path)).len() ==> #[trigger] components(
                cleaned(path),
            )[j] != dot_dot(),
{
    lemma_cleaned(path);
    lemma_components_form(path);
    lemma_cleaned_parts(components(path));
    let whole = components(cleaned(path));
    let b = components(base);
    let i = choose|i: int| 0 <= i < b.len() && #[trigger] b[i] != dot_dot();
    assert(whole.take(b.len() as int)[i] == whole[i]);
    assert forall|j: int| b.len() <= j < whole.len() implies #[trigger] whole[j] != dot_dot() by {
        if whole[j] == dot_dot() {
            let parts = cleaned_parts(components(path));
            if parts.len() == 0 {
                assert(dot().len() != dot_dot().len());
            } else {
                assert(parts[j] == dot_dot());
                assert(parts[i] == dot_dot());
            }
        }
    }
}

/// Joining a name to a path adds it to the components.
proof fn lemma_join_name(base: Seq<char>, name: Seq<char>)
    requires
        name.len() > 0,
        !name.contains('/'),
        name != dot(),
    ensures
        components(joined(base, name)) == components(base).push(name),
{
    lemma_split_single(name, '/');
    assert(!is_absolute(name)) by {
        assert(name.contains(name[0]));
    }
    if base.len() == 0 {
        lemma_no_components(base);
        reveal_with_fuel(named_parts, 2);
        assert(seq![name].drop_last() =~= Seq::<Seq<char>>::empty());
        assert(components(name) =~= seq![name]);
    } else {
        let whole = joined(base, name);
        let front = if base.last() == '/' {
            base.drop_last()
        } else {
            base
        };
        lemma_split_not_empty(front, '/');
        assert(whole =~= front.push('/') + name);
        lemma_split_concat(front, name, '/');
        lemma_named_parts_concat(split_on(front, '/'), seq![name]);
        if base.last() == '/' {
            assert(split_on(base, '/').drop_last() =~= split_on(front, '/'));
        }
        assert(named_parts(split_on(base, '/')) == named_parts(split_on(front, '/')));
        assert(whole[0] == base[0]);
        assert(components(whole) =~= components(base).push(name));
    }
}

proof fn lemma_no_components(path: Seq<char>)
    requires
        path.len() == 0,
    ensures
        components(path) == Seq::<Seq<char>>::empty(),
{
    reveal_with_fuel(named_parts, 2);
    assert(split_on(path, '/') =~= seq![Seq::<char>::empty()]);
    assert(seq![Seq::<char>::empty()].drop_last() =~= Seq::<Seq<char>>::empty());
    assert(components(path) =~= Seq::<Seq<char>>::empty());
}

/// Joining the empty path adds no component.
proof fn lemma_join_nothing(base: Seq<char>)
    ensures
        components(joined(base, Seq::empty())) == components(base),
{
    let empty = Seq::<char>::empty();
    let whole = joined(base, empty);
    if base.len() > 0 && base.last() != '/' {
        assert(whole =~= base.push('/') + empty);
        lemma_split_concat(base, empty, '/');
        lemma_split_not_empty(base, '/');
        assert(split_on(empty, '/') =~= seq![empty]);
        assert((split_on(base, '/') + seq![empty]).drop_last() =~= split_on(base, '/'));
        assert(whole[0] == base[0]);
    } else {
        assert(whole =~= base);
    }
}

/// Joining a path that consists of names adds these names to the components.
pub proof fn lemma_join_names(base: Seq<char>, names: Seq<Seq<char>>)
    requires
        forall|i: int|
            0 <= i < names.len() ==> {
                &&& (#[trigger] names[i]).len() > 0
                &&& !names[i].contains('/')
                &&& names[i] != dot()
            },
    ensures
        components(joined(base, rendered(names))) == components(base) + names,
        names.len() > 0 ==> rendered(names).len() > 0 && !is_absolute(rendered(names))
            && rendered(names).last() != '/',
    decreases names.len(),
{
    if names.len() == 0 {
        assert(rendered(names) =~= Seq::<char>::empty());
        lemma_join_nothing(base);
        assert(components(base) + names =~= components(base));
    } else {
        let (shorter, last) = (names.drop_last(), names.last());
        assert(names[names.len() - 1] == last);
        assert forall|i: int| 0 <= i < shorter.len() implies {
            &&& (#[trigger] shorter[i]).len() > 0
            &&& !shorter[i].contains('/')
            &&& shorter[i] != dot()
        } by {
            assert(names[i] == shorter[i]);
        }
        lemma_join_names(base, shorter);
        assert(last.contains(last[0]) && last.contains(last[last.len() - 1]));
        let front = rendered(shorter);
        lemma_join_name(joined(base, front), last);
        if shorter.len() == 0 {
            assert(front =~= Seq::<char>::empty());
            assert(rendered(names) == last);
            lemma_join_name(base, last);
        } else {
            assert(rendered(names) == front.push('/') + last);
            assert(joined(base, rendered(names)) =~= joined(joined(base, front), last));
        }
        assert(components(base) + names =~= (components(base) + shorter).push(last));
    }
}

/// The path of what stands at `place` in the directory at `real_dir`, when
/// that directory is spelled `dir`.
pub open spec fn spelled_in(dir: Seq<char>, real_dir: Seq<char>, place: Seq<char>) -> Seq<char> {
    joined(dir, rendered(components_below(place, real_dir)))
}

/// However a directory is spelled, what stands in it is spelled with the
/// components of the directory and those that it has in it.
pub proof fn law_spelling_keeps_the_place(dir: Seq<char>, real_dir: Seq<char>, place: Seq<char>)
    requires
        is_below(place, real_dir),
        components(real_dir).len() > 0,
    ensures
        components(spelled_in(dir, real_dir, place)) == components(dir) + components_below(
            place,
            real_dir,
        ),
        is_below(spelled_in(dir, real_dir, place), dir),
        components_below(spelled_in(dir, real_dir, place), dir) == components_below(
            place,
            real_dir,
        ),
        components(spelled_in(real_dir, real_dir, place)) == components(place),
{
    let (whole, n) = (components(place), components(real_dir).len() as int);
    let names = components_below(place, real_dir);
    lemma_components_form(place);
    assert forall|i: int| 0 <= i < names.len() implies {
        &&& (#[trigger] names[i]).len() > 0
        &&& !names[i].contains('/')
        &&& names[i] != dot()
    } by {
        assert(names[i] == whole[n + i]);
    }
    lemma_join_names(dir, names);
    lemma_join_names(real_dir, names);
    assert(components(dir) + names =~= components(spelled_in(dir, real_dir, place)));
    assert((components(dir) + names).take(components(dir).len() as int) =~= components(dir));
    assert((components(dir) + names).skip(components(dir).len() as int) =~= names);
    assert(whole.take(n) + names =~= whole);
}

/// The components of a path are read off its text: what stands between
/// slashes, but for nothing and for `.`, and the root directory where the text
/// begins with a slash.
pub proof fn law_components_stand_between_slashes(front: Seq<char>, part: Seq<char>)
    requires
        !part.contains('/'),
    ensures
        part.len() == 0 ==> components(part) == Seq::<Seq<char>>::empty(),
        part.len() > 0 ==> components(part) == seq![part],
        part.len() == 0 || part == seq!['.'] ==> {
            &&& components(seq!['/'] + part) == seq![seq!['/']]
            &&& front.len() > 0 ==> components(front + seq!['/'] + part) == components(front)
        },
        part.len() > 0 && part != seq!['.'] ==> {
            &&& components(seq!['/'] + part) == seq![seq!['/'], part]
            &&& front.len() > 0 ==> components(front + seq!['/'] + part) == components(front).push(
                part,
            )
        },
{
    reveal_with_fuel(named_parts, 3);
    let empty = Seq::<char>::empty();
    lemma_split_single(part, '/');
    if part.len() > 0 {
        assert(part.contains(part[0]));
    }
    assert(seq![part].drop_last() =~= Seq::<Seq<char>>::empty());
    assert(dot().len() == 1);
    if part.len() == 0 {
        assert(components(part) =~= Seq::<Seq<char>>::empty());
    } else {
        assert(components(part) =~= seq![part]);
    }
    let rooted = seq!['/'] + part;
    lemma_split_single(empty, '/');
    lemma_split_concat(empty, part, '/');
    assert(rooted =~= empty.push('/') + part);
    assert(split_on(rooted, '/') =~= seq![empty, part]);
    assert(seq![empty, part].drop_last() =~= seq![empty]);
    assert(seq![empty].drop_last() =~= Seq::<Seq<char>>::empty());
    if part.len() == 0 || part == dot() {
        assert(components(rooted) =~= seq![root()]);
    } else {
        assert(components(rooted) =~= seq![root(), part]);
    }
    if front.len() > 0 {
        let whole = front + seq!['/'] + part;
        let before = split_on(front, '/');
        lemma_split_not_empty(front, '/');
        lemma_split_concat(front, part, '/');
        assert(whole =~= front.push('/') + part);
        assert(split_on(whole, '/') =~= before.push(part));
        assert(before.push(part).drop_last() =~= before);
        assert(whole[0] == front[0]);
        if part.len() == 0 || part == dot() {
            assert(components(whole) =~= components(front));
        } else {
            assert(components(whole) =~= components(front).push(part));
        }
    }
}

/// What is joined to a directory follows it after one slash; an absolute path
/// stands for itself, and so does what is joined to nothing.
pub proof fn law_joining(base: Seq<char>, path: Seq<char>)
    ensures
        path.len() > 0 && path[0] == '/' ==> joined(base, path) == path,
        base.len() == 0 ==> joined(base, path) == path,
        base.len() > 0 && !(path.len() > 0 && path[0] == '/') ==> if base[base.len() - 1] == '/' {
            joined(base, path) == base + path
        } else {
            joined(base, path) == base + seq!['/'] + path
        },
{
    assert(base.push('/') + path =~= base + seq!['/'] + path);
}

/// A path lies below another where its components begin with those of the
/// other, and the rest of them is what it has below it.
pub proof fn law_below_is_same_beginning(path: Seq<char>, base: Seq<char>)
    ensures
        is_below(path, base) <==> components(base).is_prefix_of(components(path)),
        is_below(path, base) ==> components(path) == components(base) + components_below(path, base),
{
    let (p, b) = (components(path), components(base));
    if b.is_prefix_of(p) {
        assert(p.take(b.len() as int) =~= b);
    }
    if is_below(path, base) {
        assert(p.take(b.len() as int) == b);
        assert(p =~= p.take(b.len() as int) + p.skip(b.len() as int));
    }
}

/// Whether a text is the name of a file or directory.
pub open spec fn is_plain_name(name: Seq<char>) -> bool {
    &&& name.len() > 0
    &&& !name.contains('/')
    &&& name != seq!['.']
    &&& name != seq!['.', '.']
}

/// The path of something in a directory, as seen from that directory, is the
/// names on the way to it, with a slash between each two.
pub proof fn law_paths_inside_are_their_names(dir: Seq<char>, names: Seq<Seq<char>>)
    requires
        dir.len() > 0,
        names.len() > 0,
        forall|i: int| 0 <= i < names.len() ==> is_plain_name(#[trigger] names[i]),
    ensures
        is_below(dir + seq!['/'] + spliced(names, '/'), dir),
        components(dir + seq!['/'] + spliced(names, '/')) == components(dir) + names,
        components_below(dir + seq!['/'] + spliced(names, '/'), dir) == names,
        rendered(components_below(dir + seq!['/'] + spliced(names, '/'), dir)) == spliced(
            names,
            '/',
        ),
{
    let path = dir + seq!['/'] + spliced(names, '/');
    let slashed = dir + seq!['/'];
    let empty = Seq::<char>::empty();
    law_components_stand_between_slashes(dir, empty);
    assert(slashed + empty =~= slashed);
    assert forall|i: int| 0 <= i < names.len() implies {
        &&& (#[trigger] names[i]).len() > 0
        &&& !names[i].contains('/')
        &&& names[i] != dot()
    } by {
        assert(is_plain_name(names[i]));
    }
    lemma_rendered_names(names);
    lemma_join_names(slashed, names);
    assert(joined(slashed, rendered(names)) == slashed + rendered(names));
    let (d, p) = (components(dir), components(path));
    assert(p == d + names);
    assert(p.take(d.len() as int) =~= d);
    assert(p.skip(d.len() as int) =~= names);
}

/// The path made of names is the names with a slash between each two.
pub proof fn lemma_rendered_names(names: Seq<Seq<char>>)
    requires
        names.len() > 0,
        forall|i: int|
            0 <= i < names.len() ==> {
                &&& (#[trigger] names[i]).len() > 0
                &&& !names[i].contains('/')
                &&& names[i] != dot()
            },
    ensures
        rendered(names) == spliced(names, '/'),
    decreases names.len(),
{
    let (before, last) = (names.drop_last(), names[names.len() - 1]);
    assert(last.contains(last[0]));
    if before.len() == 0 {
        assert(rendered(before) =~= Seq::<char>::empty());
        assert(names[0] == last);
    } else {
        assert forall|i: int| 0 <= i < before.len() implies {
            &&& (#[trigger] before[i]).len() > 0
            &&& !before[i].contains('/')
            &&& before[i] != dot()
        } by {
            assert(names[i] == before[i]);
        }
        lemma_rendered_names(before);
        lemma_join_names(Seq::empty(), before);
    }
}

/// The name of a file is what follows the last slash of its path. A path that
/// ends in a slash or in `/.` has the name of what stands before it, and one
/// that ends in `..` has none.
pub proof fn law_names_follow_the_last_slash(front: Seq<char>, name: Seq<char>)
    ensures
        is_plain_name(name) ==> {
            &&& file_name_of(name) == Some(name)
            &&& file_name_of(front + seq!['/'] + name) == Some(name)
        },
        name.len() == 0 || name == seq!['.'] ==> {
            &&& file_name_of(name) is None
            &&& front.len() == 0 ==> file_name_of(front + seq!['/'] + name) is None
            &&& front.len() > 0 ==> file_name_of(front + seq!['/'] + name) == file_name_of(front)
        },
        name == seq!['.', '.'] ==> {
            &&& file_name_of(name) is None
            &&& file_name_of(front + seq!['/'] + name) is None
        },
{
    if is_plain_name(name) || name.len() == 0 || name == seq!['.'] || name == seq!['.', '.'] {
        assert(!name.contains('/'));
        law_components_stand_between_slashes(front, name);
        if front.len() == 0 {
            assert(front + seq!['/'] + name =~= seq!['/'] + name);
        }
        if is_plain_name(name) {
            assert(name != root()) by {
                assert(root()[0] == '/');
            }
        }
        assert(dot().len() == 1 && dot_dot().len() == 2);
    }
}

/// The directory of a path is the path without its name.
pub proof fn law_parents_hold_their_names(dir: Seq<char>, name: Seq<char>)
    requires
        is_plain_name(name),
    ensures
        parent_of(name) == Some(Seq::<char>::empty()),
        parent_of(seq!['/'] + name) == Some(seq!['/']),
        dir.len() > 0 ==> (parent_of(dir + seq!['/'] + name) matches Some(parent) && components(
            parent,
        ) == components(dir)),
        parent_of(seq!['/']) is None,
        parent_of(Seq::empty()) is None,
{
    let empty = Seq::<char>::empty();
    law_components_stand_between_slashes(dir, name);
    law_components_stand_between_slashes(dir, empty);
    assert(seq!['/'] + empty =~= root());
    assert(name != root()) by {
        assert(root()[0] == '/');
    }
    reveal_with_fuel(rendered, 3);
    assert(seq![name].drop_last() =~= Seq::<Seq<char>>::empty());
    assert(seq![root(), name].drop_last() =~= seq![root()]);
    assert(seq![root()].drop_last() =~= Seq::<Seq<char>>::empty());
    assert(rendered(seq![root()]) =~= root());
    if dir.len() > 0 {
        let whole = components(dir + seq!['/'] + name);
        assert(whole.last() == name);
        assert(whole.drop_last() =~= components(dir));
        lemma_components_form(dir);
        lemma_rendered_components(components(dir));
    }
}

proof fn lemma_cleaned_alike(a: Seq<Seq<char>>, b: Seq<Seq<char>>, after: Seq<Seq<char>>)
    requires
        cleaned_parts(a) == cleaned_parts(b),
    ensures
        cleaned_parts(a + after) == cleaned_parts(b + after),
    decreases after.len(),
{
    if after.len() == 0 {
        assert(a + after =~= a);
        assert(b + after =~= b);
    } else {
        lemma_cleaned_alike(a, b, after.drop_last());
        assert((a + after).drop_last() =~= a + after.drop_last());
        assert((b + after).drop_last() =~= b + after.drop_last());
        assert((a + after).last() == (b + after).last());
    }
}

/// Resolving `.` and `..` takes each `.` away, and each `..` with the name
/// before it; above the root directory is the root directory. Nothing else
/// changes: a path without them, or with `..` only at the beginning, stays.
pub proof fn law_dots_are_resolved(
    before: Seq<Seq<char>>,
    name: Seq<char>,
    after: Seq<Seq<char>>,
)
    requires
        is_plain_name(name),
    ensures
        cleaned_parts(before.push(seq!['.']) + after) == cleaned_parts(before + after),
        cleaned_parts(before.push(name).push(seq!['.', '.']) + after) == cleaned_parts(
            before + after,
        ),
        cleaned_parts(seq![seq!['/'], seq!['.', '.']] + after) == cleaned_parts(
            seq![seq!['/']] + after,
        ),
        (forall|i: int| 0 <= i < after.len() ==> #[trigger] after[i] != seq!['.'] && after[i] != seq![
            '.',
            '.',
        ]) ==> cleaned_parts(after) == after,
        (forall|i: int| 0 <= i < before.len() ==> #[trigger] before[i] == seq!['.', '.']) && (
        forall|i: int| 0 <= i < after.len() ==> is_plain_name(#[trigger] after[i]))
            ==> cleaned_parts(before + after) == before + after,
{
    reveal_with_fuel(cleaned_parts, 3);
    let up = dot_dot();
    assert(dot().len() == 1 && up.len() == 2);
    assert(name != root()) by {
        assert(root()[0] == '/');
    }
    assert(before.push(dot()).drop_last() =~= before);
    lemma_cleaned_alike(before.push(dot()), before, after);
    let kept = cleaned_parts(before);
    assert(before.push(name).drop_last() =~= before);
    assert(before.push(name).push(up).drop_last() =~= before.push(name));
    assert(cleaned_parts(before.push(name)) == kept.push(name));
    assert(kept.push(name).drop_last() =~= kept);
    lemma_cleaned_alike(before.push(name).push(up), before, after);
    let (top, above) = (seq![root()], seq![root(), up]);
    assert(top.drop_last() =~= Seq::<Seq<char>>::empty());
    assert(above.drop_last() =~= top);
    assert(root()[0] == '/' && dot()[0] == '.' && root().len() == 1);
    assert(cleaned_parts(top) =~= top);
    lemma_cleaned_alike(above, top, after);
    if forall|i: int| 0 <= i < after.len() ==> #[trigger] after[i] != seq!['.'] && after[i] != seq![
        '.',
        '.',
    ] {
        lemma_names_stay(after);
    }
    if (forall|i: int| 0 <= i < before.len() ==> #[trigger] before[i] == seq!['.', '.']) && (
    forall|i: int| 0 <= i < after.len() ==> is_plain_name(#[trigger] after[i])) {
        lemma_leading_dots_stay(before, after);
    }
}

proof fn lemma_names_stay(parts: Seq<Seq<char>>)
    requires
        forall|i: int|
            0 <= i < parts.len() ==> #[trigger] parts[i] != dot() && parts[i] != dot_dot(),
    ensures
        cleaned_parts(parts) == parts,
    decreases parts.len(),
{
    if parts.len() > 0 {
        let before = parts.drop_last();
        assert forall|i: int| 0 <= i < before.len() implies #[trigger] before[i] != dot()
            && before[i] != dot_dot() by {
            assert(parts[i] == before[i]);
        }
        lemma_names_stay(before);
        assert(parts[parts.len() - 1] == parts.last());
        assert(before.push(parts.last()) =~= parts);
    } else {
        assert(parts =~= Seq::<Seq<char>>::empty());
    }
}

proof fn lemma_leading_dots_stay(ups: Seq<Seq<char>>, names: Seq<Seq<char>>)
    requires
        forall|i: int| 0 <= i < ups.len() ==> #[trigger] ups[i] == dot_dot(),
        forall|i: int| 0 <= i < names.len() ==> is_plain_name(#[trigger] names[i]),
    ensures
        cleaned_parts(ups + names) == ups + names,
    decreases ups.len() + names.len(),
{
    let whole = ups + names;
    assert(dot().len() == 1 && dot_dot().len() == 2);
    if names.len() > 0 {
        let fewer = names.drop_last();
        assert forall|i: int| 0 <= i < fewer.len() implies is_plain_name(#[trigger] fewer[i]) by {
            assert(is_plain_name(names[i]));
        }
        lemma_leading_dots_stay(ups, fewer);
        assert(is_plain_name(names[names.len() - 1]));
        assert(whole.drop_last() =~= ups + fewer);
        assert(whole.last() == names[names.len() - 1]);
        assert((ups + fewer).push(whole.last()) =~= whole);
    } else if ups.len() > 0 {
        let fewer = ups.drop_last();
        assert forall|i: int| 0 <= i < fewer.len() implies #[trigger] fewer[i] == dot_dot() by {
            assert(ups[i] == fewer[i]);
        }
        lemma_leading_dots_stay(fewer, names);
        assert(ups[ups.len() - 1] == dot_dot());
        assert(whole.drop_last() =~= fewer + names);
        assert(whole.last() == ups[ups.len() - 1]);
        assert(fewer + names =~= fewer);
        if fewer.len() > 0 {
            assert(fewer[fewer.len() - 1] == dot_dot());
        }
        assert((fewer + names).push(whole.last()) =~= whole);
    } else {
        assert(whole =~= Seq::<Seq<char>>::empty());
    }
}

/// A path whose dots are resolved has the components that remain, and is `.`
/// where none does.
pub proof fn law_cleaned_paths_hold_what_remains(path: Seq<char>)
    ensures
        cleaned_parts(components(path)).len() > 0 ==> components(cleaned(path)) == cleaned_parts(
            components(path),
        ),
        cleaned_parts(components(path)).len() == 0 ==> cleaned(path) == seq!['.'],
{
    lemma_cleaned(path);
}

} // verus!
