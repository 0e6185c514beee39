//! Text as sequences of characters: splitting, trimming and line breaking.
use crate::path::{lemma_split_concat, lemma_split_single};
use vstd::prelude::*;

verus! {

/// `String::push` appends the given character to the end of the string.
pub assume_specification[ String::push ](s: &mut String, ch: char)
    ensures
        final(s)@ == old(s)@.push(ch),
;

/// The characters of each string of a list.
pub open spec fn texts(list: Seq<String>) -> Seq<Seq<char>> {
    list.map_values(|s: String| s@)
}

/// The parts of `s` between the occurrences of `sep`, in order. There is one
/// part more than there are separators.
pub open spec fn split_on(s: Seq<char>, sep: char) -> Seq<Seq<char>>
    decreases s.len(),
{
    if s.len() == 0 {
        seq![Seq::empty()]
    } else {
        let before = split_on(s.drop_last(), sep);
        if s.last() == sep {
            before.push(Seq::empty())
        } else {
            before.drop_last().push(before.last().push(s.last()))
        }
    }
}

/// Splits a text at every occurrence of a separator.
pub fn split(s: &str, sep: char) -> (parts: Vec<String>)
    ensures
        texts(parts@) == split_on(s@, sep),
{
    let mut parts: Vec<String> = Vec::new();
    let mut current = String::new();
    for c in it: s.chars()
        invariant
            it.seq() == s@,
            texts(parts@).push(current@) == split_on(s@.take(it.index()), sep),
    {
        proof {
            assert(s@.take(it.index() + 1).drop_last() == s@.take(it.index()));
        }
        let ghost before = texts(parts@);
        if c == sep {
            parts.push(current);
            current = String::new();
            proof {
                assert(texts(parts@) == before.push(parts@.last()@));
            }
        } else {
            let ghost current_before = current@;
            current.push(c);
            proof {
                assert(before.push(current_before).drop_last() == before);
            }
        }
    }
    proof {
        assert(s@.take(s@.len() as int) == s@);
        assert(texts(parts@.push(current)) == texts(parts@).push(current@));
    }
    parts.push(current);
    parts
}

/// The characters of a text.
pub fn chars_of(s: &str) -> (chars: Vec<char>)
    ensures
        chars@ == s@,
{
    let mut chars: Vec<char> = Vec::new();
    for c in it: s.chars()
        invariant
            it.seq() == s@,
            chars@ == s@.take(it.index()),
    {
        chars.push(c);
    }
    chars
}

/// The text made of the characters from `from` up to, not including, `to`.
pub fn text_of(chars: &Vec<char>, from: usize, to: usize) -> (s: String)
    requires
        from <= to <= chars@.len(),
    ensures
        s@ == chars@.subrange(from as int, to as int),
{
    let mut s = String::new();
    let mut i: usize = from;
    while i < to
        invariant
            from <= i <= to <= chars@.len(),
            s@ == chars@.subrange(from as int, i as int),
        decreases to - i,
    {
        s.push(chars[i]);
        i += 1;
    }
    s
}

/// Whether two texts are the same.
pub fn same_text(a: &str, b: &str) -> (same: bool)
    ensures
        same == (a@ == b@),
{
    a.to_owned() == b.to_owned()
}

/// Whether `s` begins with the character `first`.
pub fn begins_with(s: &str, first: char) -> (yes: bool)
    ensures
        yes == (s@.len() > 0 && s@[0] == first),
{
    let mut chars = s.chars();
    match chars.next() {
        Some(c) => c == first,
        None => false,
    }
}

/// Whether `s` ends with `tail`.
pub open spec fn has_suffix(s: Seq<char>, tail: Seq<char>) -> bool {
    tail.len() <= s.len() && s.skip(s.len() - tail.len()) == tail
}

/// Whether `s` ends with `tail`.
pub fn ends_with(s: &str, tail: &str) -> (yes: bool)
    ensures
        yes == has_suffix(s@, tail@),
{
    let all = chars_of(s);
    let end = chars_of(tail);
    if end.len() > all.len() {
        return false;
    }
    let offset: usize = all.len() - end.len();
    let mut i: usize = 0;
    while i < end.len()
        invariant
            i <= end@.len() <= all@.len(),
            offset == all@.len() - end@.len(),
            all@ == s@,
            end@ == tail@,
            offset + end@.len() <= usize::MAX,
            s@.skip(offset as int).take(i as int) == tail@.take(i as int),
        decreases end@.len() - i,
    {
        if all[offset + i] != end[i] {
            proof {
                assert(s@.skip(offset as int)[i as int] != tail@[i as int]);
            }
            return false;
        }
        proof {
            let tail_of_s = s@.skip(offset as int);
            assert(tail_of_s.take(i + 1) == tail_of_s.take(i as int).push(tail_of_s[i as int]));
            assert(tail@.take(i + 1) == tail@.take(i as int).push(tail@[i as int]));
        }
        i += 1;
    }
    proof {
        assert(s@.skip(offset as int).take(i as int) == s@.skip(offset as int));
        assert(tail@.take(i as int) == tail@);
    }
    true
}

/// Whether `s` holds the character `wanted`.
pub fn holds_char(s: &str, wanted: char) -> (yes: bool)
    ensures
        yes == s@.contains(wanted),
{
    for c in it: s.chars()
        invariant
            it.seq() == s@,
            forall|j: int| 0 <= j < it.index() ==> s@[j] != wanted,
    {
        if c == wanted {
            return true;
        }
    }
    false
}

/// The characters with the Unicode property `White_Space`.
pub open spec fn is_white(c: char) -> bool {
    ||| 0x09 <= c as u32 <= 0x0D
    ||| c as u32 == 0x20
    ||| c as u32 == 0x85
    ||| c as u32 == 0xA0
    ||| c as u32 == 0x1680
    ||| 0x2000 <= c as u32 <= 0x200A
    ||| c as u32 == 0x2028
    ||| c as u32 == 0x2029
    ||| c as u32 == 0x202F
    ||| c as u32 == 0x205F
    ||| c as u32 == 0x3000
}

/// Whether a character is white space.
pub fn white(c: char) -> (yes: bool)
    ensures
        yes == is_white(c),
{
    let n: u32 = c as u32;
    (0x09 <= n && n <= 0x0D) || n == 0x20 || n == 0x85 || n == 0xA0 || n == 0x1680 || (0x2000 <= n
        && n <= 0x200A) || n == 0x2028 || n == 0x2029 || n == 0x202F || n == 0x205F || n == 0x3000
}

/// `s` without the white space at its beginning.
pub open spec fn trimmed_start(s: Seq<char>) -> Seq<char>
    decreases s.len(),
{
    if s.len() > 0 && is_white(s[0]) {
        trimmed_start(s.drop_first())
    } else {
        s
    }
}

/// `s` without the white space at its end.
pub open spec fn trimmed_end(s: Seq<char>) -> Seq<char>
    decreases s.len(),
{
    if s.len() > 0 && is_white(s.last()) {
        trimmed_end(s.drop_last())
    } else {
        s
    }
}

/// `s` without the white space at its two ends.
pub open spec fn trimmed(s: Seq<char>) -> Seq<char> {
    trimmed_end(trimmed_start(s))
}

/// Removes the white space at the two ends of a text.
pub fn trim(s: &str) -> (t: String)
    ensures
        t@ == trimmed(s@),
{
    let chars = chars_of(s);
    let mut from: usize = 0;
    proof {
        assert(s@.skip(0) == s@);
    }
    while from < chars.len() && white(chars[from])
        invariant
            from <= chars@.len(),
            chars@ == s@,
            trimmed_start(s@) == trimmed_start(s@.skip(from as int)),
        decreases chars@.len() - from,
    {
        proof {
            assert(s@.skip(from as int).drop_first() == s@.skip(from + 1));
        }
        from += 1;
    }
    let mut to: usize = chars.len();
    proof {
        assert(trimmed_start(s@) == s@.skip(from as int));
        assert(s@.subrange(from as int, to as int) == s@.skip(from as int));
    }
    while to > from && white(chars[to - 1])
        invariant
            from <= to <= chars@.len(),
            chars@ == s@,
            trimmed(s@) == trimmed_end(s@.subrange(from as int, to as int)),
        decreases to,
    {
        proof {
            assert(s@.subrange(from as int, to as int).drop_last() == s@.subrange(
                from as int,
                to - 1,
            ));
        }
        to -= 1;
    }
    text_of(&chars, from, to)
}

/// A line without the carriage return that precedes its line feed.
pub open spec fn without_return(line: Seq<char>) -> Seq<char> {
    if line.len() > 0 && line.last() == '\r' {
        line.drop_last()
    } else {
        line
    }
}

/// The lines of `s`: each ends at a line feed, or at a carriage return and a
/// line feed, and the last may end without either.
pub open spec fn lines_of(s: Seq<char>) -> Seq<Seq<char>> {
    let parts = split_on(s, '\n');
    let ended = parts.drop_last().map_values(|line: Seq<char>| without_return(line));
    if parts.last().len() == 0 {
        ended
    } else {
        ended.push(parts.last())
    }
}

/// Every text has at least one part.
pub proof fn lemma_split_not_empty(s: Seq<char>, sep: char)
    ensures
        split_on(s, sep).len() > 0,
    decreases s.len(),
{
    if s.len() > 0 {
        lemma_split_not_empty(s.drop_last(), sep);
    }
}

/// Breaks a text into its lines.
pub fn lines(s: &str) -> (list: Vec<String>)
    ensures
        texts(list@) == lines_of(s@),
{
    let parts = split(s, '\n');
    let ghost whole = texts(parts@);
    proof {
        lemma_split_not_empty(s@, '\n');
        assert(whole.len() == parts@.len());
    }
    let mut list: Vec<String> = Vec::new();
    let count: usize = parts.len() - 1;
    let mut i: usize = 0;
    while i < count
        invariant
            i <= count,
            count == parts@.len() - 1,
            whole == texts(parts@),
            texts(list@) == whole.take(i as int).map_values(
                |line: Seq<char>| without_return(line),
            ),
        decreases count - i,
    {
        let chars = chars_of(parts[i].as_str());
        let n: usize = chars.len();
        let line = if n > 0 && chars[n - 1] == '\r' {
            text_of(&chars, 0, n - 1)
        } else {
            text_of(&chars, 0, n)
        };
        proof {
            assert(whole[i as int] == chars@);
            assert(line@ == without_return(whole[i as int]));
            assert(texts(list@.push(line)) == texts(list@).push(line@));
            assert(whole.take(i + 1) == whole.take(i as int).push(whole[i as int]));
        }
        list.push(line);
        i += 1;
    }
    proof {
        assert(whole.take(count as int) == whole.drop_last());
        assert(whole.last() == parts@[count as int]@);
    }
    if !parts[count].as_str().is_empty() {
        let last = parts[count].clone();
        proof {
            assert(texts(list@.push(last)) == texts(list@).push(last@));
        }
        list.push(last);
    }
    list
}

/// White space is: the tabulators, the line breaks and the blanks of Unicode,
/// and nothing else.
pub proof fn law_white_space(c: char, yes: bool)
    requires
        call_ensures(white, (c,), yes),
    ensures
        yes <==> {
            ||| c == '\t' || c == '\n' || c == '\u{b}' || c == '\u{c}' || c == '\r' || c == ' '
            ||| c == '\u{85}' || c == '\u{a0}' || c == '\u{1680}' || c == '\u{2000}'
            ||| c == '\u{2001}' || c == '\u{2002}' || c == '\u{2003}' || c == '\u{2004}'
            ||| c == '\u{2005}' || c == '\u{2006}' || c == '\u{2007}' || c == '\u{2008}'
            ||| c == '\u{2009}' || c == '\u{200a}' || c == '\u{2028}' || c == '\u{2029}'
            ||| c == '\u{202f}' || c == '\u{205f}' || c == '\u{3000}'
        },
{
}

/// Whether a text consists of white space.
pub open spec fn is_blank(s: Seq<char>) -> bool {
    forall|i: int| 0 <= i < s.len() ==> is_white(#[trigger] s[i])
}

/// Whether a text neither begins nor ends with white space.
pub open spec fn is_tight(s: Seq<char>) -> bool {
    s.len() > 0 ==> !is_white(s[0]) && !is_white(s[s.len() - 1])
}

proof fn lemma_trimmed_start(blank: Seq<char>, s: Seq<char>)
    requires
        is_blank(blank),
    ensures
        trimmed_start(blank + s) == trimmed_start(s),
    decreases blank.len(),
{
    if blank.len() == 0 {
        assert(blank + s =~= s);
    } else {
        let rest = blank.drop_first();
        assert forall|i: int| 0 <= i < rest.len() implies is_white(#[trigger] rest[i]) by {
            assert(is_white(blank[i + 1]));
        }
        lemma_trimmed_start(rest, s);
        assert((blank + s)[0] == blank[0]);
        assert((blank + s).drop_first() =~= rest + s);
    }
}

/// White space at the end of a text is trimmed away with the rest of it.
pub proof fn lemma_trimmed_end(s: Seq<char>, blank: Seq<char>)
    requires
        is_blank(blank),
    ensures
        trimmed_end(s + blank) == trimmed_end(s),
    decreases blank.len(),
{
    if blank.len() == 0 {
        assert(s + blank =~= s);
    } else {
        let rest = blank.drop_last();
        assert forall|i: int| 0 <= i < rest.len() implies is_white(#[trigger] rest[i]) by {
            assert(is_white(blank[i]));
        }
        lemma_trimmed_end(s, rest);
        assert(is_white(blank[blank.len() - 1]));
        assert((s + blank).last() == blank.last());
        assert((s + blank).drop_last() =~= s + rest);
    }
}

/// Trimming takes the white space at the two ends of a text away, all of it
/// and nothing else.
pub proof fn law_trimming_takes_blanks(before: Seq<char>, s: Seq<char>, after: Seq<char>)
    requires
        is_blank(before),
        is_blank(after),
        is_tight(s),
    ensures
        trimmed(before + s + after) == s,
{
    assert(before + s + after =~= before + (s + after));
    lemma_trimmed_start(before, s + after);
    if s.len() == 0 {
        assert(s + after =~= after);
        assert(after + s =~= after);
        lemma_trimmed_start(after, s);
    } else {
        assert((s + after)[0] == s[0]);
        lemma_trimmed_end(s, after);
    }
}

/// A text that was trimmed is what remains of it between white space.
pub proof fn law_blanks_were_trimmed(s: Seq<char>) -> (ends: (Seq<char>, Seq<char>))
    ensures
        is_blank(ends.0),
        is_blank(ends.1),
        is_tight(trimmed(s)),
        s == ends.0 + trimmed(s) + ends.1,
{
    let before = lemma_blank_start(s);
    let t = trimmed_start(s);
    let after = lemma_blank_end(t);
    assert(s =~= before + trimmed(s) + after);
    if trimmed(s).len() > 0 {
        assert(trimmed(s)[0] == t[0]);
    }
    (before, after)
}

proof fn lemma_blank_start(s: Seq<char>) -> (blank: Seq<char>)
    ensures
        is_blank(blank),
        s == blank + trimmed_start(s),
        trimmed_start(s).len() > 0 ==> !is_white(trimmed_start(s)[0]),
    decreases s.len(),
{
    if s.len() > 0 && is_white(s[0]) {
        let rest = lemma_blank_start(s.drop_first());
        let blank = seq![s[0]] + rest;
        assert(s =~= seq![s[0]] + s.drop_first());
        assert(s =~= blank + trimmed_start(s));
        assert forall|i: int| 0 <= i < blank.len() implies is_white(#[trigger] blank[i]) by {
            if i > 0 {
                assert(blank[i] == rest[i - 1]);
            }
        }
        blank
    } else {
        assert(s =~= Seq::<char>::empty() + s);
        Seq::empty()
    }
}

/// What is trimmed from the end of a text is white space.
pub proof fn lemma_blank_end(s: Seq<char>) -> (blank: Seq<char>)
    ensures
        is_blank(blank),
        s == trimmed_end(s) + blank,
        trimmed_end(s).len() > 0 ==> !is_white(trimmed_end(s).last()),
    decreases s.len(),
{
    if s.len() > 0 && is_white(s.last()) {
        let rest = lemma_blank_end(s.drop_last());
        let blank = rest.push(s.last());
        assert(s =~= s.drop_last().push(s.last()));
        assert(s =~= trimmed_end(s) + blank);
        blank
    } else {
        assert(s =~= s + Seq::<char>::empty());
        Seq::empty()
    }
}

/// The parts with a separator between each two.
pub open spec fn spliced(parts: Seq<Seq<char>>, sep: char) -> Seq<char>
    decreases parts.len(),
{
    if parts.len() == 0 {
        Seq::empty()
    } else if parts.len() == 1 {
        parts[0]
    } else {
        spliced(parts.drop_last(), sep).push(sep) + parts.last()
    }
}

/// Whether no part holds the separator.
pub open spec fn are_parts(parts: Seq<Seq<char>>, sep: char) -> bool {
    forall|i: int| 0 <= i < parts.len() ==> !(#[trigger] parts[i]).contains(sep)
}

/// Splitting undoes what puts parts together: parts without the separator come
/// out as they went in, the empty ones too.
pub proof fn law_splitting_undoes_splicing(parts: Seq<Seq<char>>, sep: char)
    requires
        parts.len() > 0,
        are_parts(parts, sep),
    ensures
        split_on(spliced(parts, sep), sep) == parts,
    decreases parts.len(),
{
    let last = parts[parts.len() - 1];
    lemma_split_single(last, sep);
    if parts.len() == 1 {
        assert(parts =~= seq![last]);
    } else {
        let before = parts.drop_last();
        assert forall|i: int| 0 <= i < before.len() implies !(#[trigger] before[i]).contains(
            sep,
        ) by {
            assert(!parts[i].contains(sep));
        }
        law_splitting_undoes_splicing(before, sep);
        lemma_split_concat(spliced(before, sep), last, sep);
        assert(before + seq![last] =~= parts);
    }
}

/// A line ends at a line feed, with or without a carriage return before it;
/// what follows the last line feed is a line where it is not empty.
pub proof fn law_lines_end_at_line_feeds(line: Seq<char>, rest: Seq<char>)
    requires
        !line.contains('\n'),
    ensures
        line.len() > 0 ==> lines_of(line) == seq![line],
        line.len() == 0 ==> lines_of(line) == Seq::<Seq<char>>::empty(),
        lines_of(line + seq!['\r', '\n'] + rest) == seq![line] + lines_of(rest),
        line.len() == 0 || line[line.len() - 1] != '\r' ==> lines_of(line + seq!['\n'] + rest)
            == seq![line] + lines_of(rest),
{
    lemma_split_single(line, '\n');
    assert(seq![line].drop_last() =~= Seq::<Seq<char>>::empty());
    if line.len() > 0 {
        assert(lines_of(line) =~= seq![line]);
    } else {
        assert(lines_of(line) =~= Seq::<Seq<char>>::empty());
    }
    let returned = line.push('\r');
    assert(!returned.contains('\n')) by {
        if returned.contains('\n') {
            let i = choose|i: int| 0 <= i < returned.len() && returned[i] == '\n';
            assert(line[i] == '\n');
        }
    }
    lemma_first_line(line, rest);
    lemma_first_line(returned, rest);
    assert(line + seq!['\n'] + rest =~= line.push('\n') + rest);
    assert(line + seq!['\r', '\n'] + rest =~= returned.push('\n') + rest);
    assert(returned.drop_last() =~= line);
}

proof fn lemma_first_line(line: Seq<char>, rest: Seq<char>)
    requires
        !line.contains('\n'),
    ensures
        lines_of(line.push('\n') + rest) == seq![without_return(line)] + lines_of(rest),
{
    lemma_split_single(line, '\n');
    lemma_split_concat(line, rest, '\n');
    lemma_split_not_empty(rest, '\n');
    let (first, more) = (seq![line], split_on(rest, '\n'));
    let cut = |line: Seq<char>| without_return(line);
    assert((first + more).last() == more.last());
    assert((first + more).drop_last() =~= first + more.drop_last());
    assert((first + more.drop_last()).map_values(cut) =~= seq![without_return(line)]
        + more.drop_last().map_values(cut));
    assert(lines_of(line.push('\n') + rest) =~= seq![without_return(line)] + lines_of(rest));
}

/// A text ends in another where it is some text followed by the other.
pub proof fn law_endings(front: Seq<char>, s: Seq<char>, tail: Seq<char>)
    ensures
        has_suffix(front + tail, tail),
        has_suffix(s, tail) ==> s == s.take(s.len() - tail.len()) + tail,
{
    assert((front + tail).skip(front.len() as int) =~= tail);
    if has_suffix(s, tail) {
        assert(s =~= s.take(s.len() - tail.len()) + s.skip(s.len() - tail.len()));
    }
}

} // verus!
