//! The order of paths: component by component.
use crate::path::{
    components, dot, dot_dot, is_plain_name, law_components_stand_between_slashes, path_components,
    root,
};
use crate::text::{chars_of, same_text, texts};
use vstd::prelude::*;

verus! {

/// Whether `a` comes before `b` in the order of their characters.
pub open spec fn text_before(a: Seq<char>, b: Seq<char>) -> bool
    decreases a.len(),
{
    if b.len() == 0 {
        false
    } else if a.len() == 0 {
        true
    } else if a[0] != b[0] {
        a[0] < b[0]
    } else {
        text_before(a.drop_first(), b.drop_first())
    }
}

/// The kinds of components in their order: the root directory, `.`, `..`, and
/// names.
pub open spec fn rank(part: Seq<char>) -> int {
    if part == root() {
        0
    } else if part == dot() {
        1
    } else if part == dot_dot() {
        2
    } else {
        3
    }
}

/// Whether the component `a` comes before the component `b`.
pub open spec fn part_before(a: Seq<char>, b: Seq<char>) -> bool {
    rank(a) < rank(b) || (rank(a) == 3 && rank(b) == 3 && text_before(a, b))
}

/// Whether a path with the components `a` comes before one with the
/// components `b`.
pub open spec fn path_before(a: Seq<Seq<char>>, b: Seq<Seq<char>>) -> bool
    decreases a.len(),
{
    if b.len() == 0 {
        false
    } else if a.len() == 0 {
        true
    } else if a[0] != b[0] {
        part_before(a[0], b[0])
    } else {
        path_before(a.drop_first(), b.drop_first())
    }
}

/// Of two different texts one comes before the other, but not both.
pub proof fn lemma_text_order(a: Seq<char>, b: Seq<char>)
    ensures
        a != b ==> text_before(a, b) != text_before(b, a),
        a == b ==> !text_before(a, b),
    decreases a.len(),
{
    if a.len() > 0 && b.len() > 0 {
        lemma_text_order(a.drop_first(), b.drop_first());
        if a != b && a[0] == b[0] && a.drop_first() == b.drop_first() {
            assert(a =~= seq![a[0]] + a.drop_first());
            assert(b =~= seq![b[0]] + b.drop_first());
        }
    } else if a != b && a.len() == 0 && b.len() == 0 {
        assert(a =~= b);
    }
}

/// A text that comes before a second comes before all that the second comes
/// before.
pub proof fn lemma_text_order_chains(a: Seq<char>, b: Seq<char>, c: Seq<char>)
    requires
        text_before(a, b),
        text_before(b, c),
    ensures
        text_before(a, c),
    decreases a.len(),
{
    if a.len() > 0 && b[0] == a[0] && c[0] == b[0] {
        lemma_text_order_chains(a.drop_first(), b.drop_first(), c.drop_first());
    }
}

/// Of two different components one comes before the other, but not both.
proof fn lemma_part_order(a: Seq<char>, b: Seq<char>)
    ensures
        a != b ==> part_before(a, b) != part_before(b, a),
        a == b ==> !part_before(a, b),
{
    lemma_text_order(a, b);
}

proof fn lemma_part_order_chains(a: Seq<char>, b: Seq<char>, c: Seq<char>)
    requires
        part_before(a, b),
        part_before(b, c),
    ensures
        part_before(a, c),
{
    if rank(a) == 3 {
        lemma_text_order_chains(a, b, c);
    }
}

/// Of two different paths one comes before the other, but not both.
pub proof fn law_paths_are_ordered(a: Seq<Seq<char>>, b: Seq<Seq<char>>)
    ensures
        a != b ==> path_before(a, b) != path_before(b, a),
        a == b ==> !path_before(a, b),
    decreases a.len(),
{
    if a.len() > 0 && b.len() > 0 {
        lemma_part_order(a[0], b[0]);
        law_paths_are_ordered(a.drop_first(), b.drop_first());
        if a != b && a[0] == b[0] && a.drop_first() == b.drop_first() {
            assert(a =~= seq![a[0]] + a.drop_first());
            assert(b =~= seq![b[0]] + b.drop_first());
        }
    } else if a != b && a.len() == 0 && b.len() == 0 {
        assert(a =~= b);
    }
}

/// A path that comes before a second comes before all that the second comes
/// before.
pub proof fn law_path_order_chains(a: Seq<Seq<char>>, b: Seq<Seq<char>>, c: Seq<Seq<char>>)
    requires
        path_before(a, b),
        path_before(b, c),
    ensures
        path_before(a, c),
    decreases a.len(),
{
    if a.len() > 0 {
        if a[0] != b[0] && b[0] != c[0] {
            lemma_part_order_chains(a[0], b[0], c[0]);
            lemma_part_order(a[0], b[0]);
        } else if a[0] == b[0] && b[0] == c[0] {
            law_path_order_chains(a.drop_first(), b.drop_first(), c.drop_first());
        }
    }
}

/// A path that does not come after a second does not come after any that the
/// second does not come after.
pub proof fn lemma_not_after_chains(a: Seq<Seq<char>>, b: Seq<Seq<char>>, c: Seq<Seq<char>>)
    requires
        !path_before(b, a),
        !path_before(c, b),
    ensures
        !path_before(c, a),
{
    law_paths_are_ordered(a, b);
    law_paths_are_ordered(b, c);
    law_paths_are_ordered(a, c);
    if a != b && b != c {
        law_path_order_chains(a, b, c);
    }
}

/// Whether the text `a` comes before the text `b`.
pub fn text_precedes(a: &str, b: &str) -> (yes: bool)
    ensures
        yes == text_before(a@, b@),
{
    let x = chars_of(a);
    let y = chars_of(b);
    let mut i: usize = 0;
    proof {
        assert(x@.skip(0) =~= x@);
        assert(y@.skip(0) =~= y@);
    }
    while i < x.len() && i < y.len()
        invariant
            i <= x@.len(),
            i <= y@.len(),
            x@ == a@,
            y@ == b@,
            text_before(a@, b@) == text_before(x@.skip(i as int), y@.skip(i as int)),
        decreases x@.len() - i,
    {
        proof {
            assert(x@.skip(i as int)[0] == x@[i as int]);
            assert(y@.skip(i as int)[0] == y@[i as int]);
            assert(x@.skip(i as int).drop_first() =~= x@.skip(i + 1));
            assert(y@.skip(i as int).drop_first() =~= y@.skip(i + 1));
        }
        if x[i] != y[i] {
            return x[i] < y[i];
        }
        i += 1;
    }
    i == x.len() && i < y.len()
}

/// The kind of a component.
fn part_rank(part: &str) -> (n: u8)
    ensures
        n == rank(part@),
{
    proof {
        reveal_strlit("/");
        reveal_strlit(".");
        reveal_strlit("..");
        assert("/"@ =~= root());
        assert("."@ =~= dot());
        assert(".."@ =~= dot_dot());
    }
    if same_text(part, "/") {
        0
    } else if same_text(part, ".") {
        1
    } else if same_text(part, "..") {
        2
    } else {
        3
    }
}

/// Whether the path `a` comes before the path `b`.
pub fn path_precedes(a: &str, b: &str) -> (yes: bool)
    ensures
        yes == path_before(components(a@), components(b@)),
{
    let x = path_components(a);
    let y = path_components(b);
    let ghost (p, q) = (texts(x@), texts(y@));
    let mut i: usize = 0;
    proof {
        assert(p.skip(0) =~= p);
        assert(q.skip(0) =~= q);
    }
    while i < x.len() && i < y.len()
        invariant
            i <= x@.len(),
            i <= y@.len(),
            p == texts(x@),
            q == texts(y@),
            p == components(a@),
            q == components(b@),
            path_before(p, q) == path_before(p.skip(i as int), q.skip(i as int)),
        decreases x@.len() - i,
    {
        proof {
            assert(p.skip(i as int)[0] == x@[i as int]@);
            assert(q.skip(i as int)[0] == y@[i as int]@);
            assert(p.skip(i as int).drop_first() =~= p.skip(i + 1));
            assert(q.skip(i as int).drop_first() =~= q.skip(i + 1));
        }
        if !same_text(x[i].as_str(), y[i].as_str()) {
            let m: u8 = part_rank(x[i].as_str());
            let n: u8 = part_rank(y[i].as_str());
            return m < n || (m == 3 && n == 3 && text_precedes(x[i].as_str(), y[i].as_str()));
        }
        i += 1;
    }
    i == x.len() && i < y.len()
}

/// Whether `a` comes before `b` character by character: it is the beginning of
/// `b`, or has the smaller character where the two differ first.
pub open spec fn is_smaller(a: Seq<char>, b: Seq<char>) -> bool {
    exists|k: int|
        {
            &&& 0 <= k <= a.len()
            &&& k < b.len()
            &&& #[trigger] a.take(k) == b.take(k)
            &&& k < a.len() ==> a[k] < b[k]
        }
}

proof fn lemma_smaller(a: Seq<char>, b: Seq<char>)
    ensures
        text_before(a, b) <==> is_smaller(a, b),
    decreases a.len(),
{
    if a.len() > 0 && b.len() > 0 {
        let (c, d) = (a.drop_first(), b.drop_first());
        lemma_smaller(c, d);
        if a[0] == b[0] {
            if is_smaller(c, d) {
                let k = choose|k: int|
                    {
                        &&& 0 <= k <= c.len()
                        &&& k < d.len()
                        &&& #[trigger] c.take(k) == d.take(k)
                        &&& k < c.len() ==> c[k] < d[k]
                    };
                assert(a.take(k + 1) =~= seq![a[0]] + c.take(k));
                assert(b.take(k + 1) =~= seq![b[0]] + d.take(k));
                assert(a.take(k + 1) == b.take(k + 1));
            }
            if is_smaller(a, b) {
                let k = choose|k: int|
                    {
                        &&& 0 <= k <= a.len()
                        &&& k < b.len()
                        &&& #[trigger] a.take(k) == b.take(k)
                        &&& k < a.len() ==> a[k] < b[k]
                    };
                assert(k > 0);
                assert(c.take(k - 1) =~= a.take(k).drop_first());
                assert(d.take(k - 1) =~= b.take(k).drop_first());
                assert(c.take(k - 1) == d.take(k - 1));
            }
        } else {
            if a[0] < b[0] {
                assert(a.take(0) =~= b.take(0));
            }
            if is_smaller(a, b) {
                let k = choose|k: int|
                    {
                        &&& 0 <= k <= a.len()
                        &&& k < b.len()
                        &&& #[trigger] a.take(k) == b.take(k)
                        &&& k < a.len() ==> a[k] < b[k]
                    };
                if k > 0 {
                    assert(a.take(k)[0] == b.take(k)[0]);
                }
            }
        }
    } else if a.len() == 0 && b.len() > 0 {
        assert(a.take(0) =~= b.take(0));
    }
}

proof fn lemma_same_beginning(front: Seq<Seq<char>>, a: Seq<char>, b: Seq<char>)
    ensures
        path_before(front.push(a), front.push(b)) <==> a != b && part_before(a, b),
    decreases front.len(),
{
    reveal_with_fuel(path_before, 2);
    let (x, y) = (front.push(a), front.push(b));
    if front.len() == 0 {
        assert(x[0] == a && y[0] == b);
        assert(x.drop_first().len() == 0 && y.drop_first().len() == 0);
    } else {
        assert(x[0] == front[0] && y[0] == front[0]);
        assert(x.drop_first() =~= front.drop_first().push(a));
        assert(y.drop_first() =~= front.drop_first().push(b));
        lemma_same_beginning(front.drop_first(), a, b);
    }
}

/// Of two entries of a directory the one with the smaller name comes first.
pub proof fn law_entries_are_ordered_by_name(dir: Seq<char>, a: Seq<char>, b: Seq<char>)
    requires
        dir.len() > 0,
        is_plain_name(a),
        is_plain_name(b),
    ensures
        path_before(components(dir + seq!['/'] + a), components(dir + seq!['/'] + b))
            <==> is_smaller(a, b),
{
    law_components_stand_between_slashes(dir, a);
    law_components_stand_between_slashes(dir, b);
    lemma_same_beginning(components(dir), a, b);
    assert(a != root() && b != root()) by {
        assert(root()[0] == '/');
    }
    lemma_smaller(a, b);
    lemma_text_order(a, b);
}

} // verus!
