//! Regular expressions, matched by the `regex` crate.
use crate::error::PatternError;
use crate::text::{
    is_blank, is_tight, is_white, law_blanks_were_trimmed, law_trimming_takes_blanks,
    lemma_blank_end, lemma_trimmed_end, trimmed, trimmed_end,
};
use regex::Regex;
use vstd::prelude::*;

verus! {

/// `regex::Regex`, a compiled regular expression.
#[verifier::external_type_specification]
#[verifier::external_body]
pub struct ExRegex(Regex);

/// The pattern that a compiled regular expression stands for: it matches what
/// `Regex::new` on that pattern would make match.
pub uninterp spec fn regex_source(re: Regex) -> Seq<char>;

/// The message of the syntax error with which `Regex::new` refuses a pattern,
/// where it refuses it so.
pub uninterp spec fn pattern_fault(pattern: Seq<char>) -> Option<Seq<char>>;

/// Whether `Regex::is_match` finds a match of a pattern in a text.
pub uninterp spec fn pattern_matches(pattern: Seq<char>, text: Seq<char>) -> bool;

/// The text of the first group of the match that `Regex::captures` finds,
/// where there is a match and the group takes part in it.
pub uninterp spec fn pattern_group(pattern: Seq<char>, text: Seq<char>) -> Option<Seq<char>>;

/// The pattern of a line that opens the section of an architecture.
pub const SECTION_START: &'static str = r"^\s*<(\w+)\s*>\s*$";

/// The pattern of a line that closes a section.
pub const SECTION_END: &'static str = r"^\s*</\w+\s*>\s*$";

/// Whether a text is a word: one or more letters, digits and underscores of
/// ASCII.
pub open spec fn is_word(text: Seq<char>) -> bool {
    &&& text.len() > 0
    &&& forall|i: int|
        0 <= i < text.len() ==> {
            let c = #[trigger] text[i];
            'a' <= c <= 'z' || 'A' <= c <= 'Z' || '0' <= c <= '9' || c == '_'
        }
}

/// Whether a text stands in angle brackets.
pub open spec fn in_brackets(text: Seq<char>) -> bool {
    text.len() > 2 && text[0] == '<' && text.last() == '>'
}

/// The word in an opening tag: the line is `<`, the word and `>`, with white
/// space around the tag and before its end.
pub open spec fn opened_section(line: Seq<char>) -> Option<Seq<char>> {
    let tag = trimmed(line);
    let name = trimmed_end(tag.subrange(1, tag.len() - 1));
    if in_brackets(tag) && is_word(name) {
        Some(name)
    } else {
        None
    }
}

/// Whether a line is a closing tag: it is `</`, a word and `>`, with white
/// space around the tag and before its end.
pub open spec fn closes_section(line: Seq<char>) -> bool {
    let tag = trimmed(line);
    in_brackets(tag) && tag[1] == '/' && is_word(trimmed_end(tag.subrange(2, tag.len() - 1)))
}

/// Whether all characters of a text are ASCII.
pub open spec fn is_plain_ascii(text: Seq<char>) -> bool {
    forall|i: int| 0 <= i < text.len() ==> (#[trigger] text[i]) <= '\u{7f}'
}

/// `Regex::new` compiles a pattern. It refuses one that breaks the syntax of
/// regular expressions, with a message that the pattern alone decides, and one
/// that takes more memory than 10 MiB when it is compiled; what that takes
/// depends on the machine, so which patterns are too big is left unsaid. The
/// two patterns of section lines are neither.
#[verifier::external_body]
pub(crate) fn compile(pattern: &str) -> (res: Result<Regex, PatternError>)
    ensures
        res matches Ok(re) ==> regex_source(re) == pattern@ && pattern_fault(pattern@) is None,
        res matches Err(PatternError::Syntax(message)) ==> pattern_fault(pattern@) == Some(message@),
        res matches Err(PatternError::CompiledTooBig(limit)) ==> pattern_fault(pattern@) is None
            && limit == 10485760,
        pattern@ == SECTION_START@ || pattern@ == SECTION_END@ ==> res is Ok,
{
    match Regex::new(pattern) {
        Ok(re) => Ok(re),
        Err(regex::Error::CompiledTooBig(limit)) => Err(PatternError::CompiledTooBig(limit)),
        Err(regex::Error::Syntax(message)) => Err(PatternError::Syntax(message)),
        Err(other) => Err(PatternError::Syntax(other.to_string())),
    }
}

/// What became of a pattern when it was compiled.
pub type Compiled = Result<Regex, PatternError>;

/// Whether `outcome` is what a call of `Regex::new` on the pattern gave.
pub closed spec fn compiled_to(pattern: Seq<char>, outcome: Compiled) -> bool {
    exists|text: &str| text@ == pattern && #[trigger] call_ensures(compile, (text,), outcome)
}

/// What can become of a pattern: it is compiled, it breaks the syntax, or it
/// is too big.
pub open spec fn is_outcome(pattern: Seq<char>, outcome: Compiled) -> bool {
    match outcome {
        Ok(re) => regex_source(re) == pattern && pattern_fault(pattern) is None,
        Err(PatternError::Syntax(message)) => pattern_fault(pattern) == Some(message@),
        Err(PatternError::CompiledTooBig(limit)) => pattern_fault(pattern) is None && limit
            == 10485760,
    }
}

/// What became of a pattern is one of the things that can.
pub proof fn lemma_compiled_to(pattern: Seq<char>, outcome: Compiled)
    requires
        compiled_to(pattern, outcome),
    ensures
        is_outcome(pattern, outcome),
{
}

/// Compiles a pattern.
pub fn compile_pattern(pattern: &str) -> (outcome: Compiled)
    ensures
        compiled_to(pattern@, outcome),
        is_outcome(pattern@, outcome),
{
    let outcome = compile(pattern);
    proof {
        assert(call_ensures(compile, (pattern,), outcome));
    }
    outcome
}

/// `Regex::is_match` says whether the pattern matches anywhere in the text.
/// The pattern of a line that closes a section matches every closing tag with
/// an ASCII word in it; among ASCII lines it matches nothing else, and among
/// all lines nothing that does not stand in angle brackets.
#[verifier::external_body]
pub(crate) fn is_match(re: &Regex, text: &str) -> (res: bool)
    ensures
        res == pattern_matches(regex_source(*re), text@),
        regex_source(*re) == SECTION_END@ && closes_section(text@) ==> res,
        regex_source(*re) == SECTION_END@ && is_plain_ascii(text@) ==> res == closes_section(text@),
        regex_source(*re) == SECTION_END@ && res ==> in_brackets(trimmed(text@)),
{
    re.is_match(text)
}

/// The characters of a group, where there is one.
pub open spec fn group_text(group: Option<String>) -> Option<Seq<char>> {
    match group {
        Some(text) => Some(text@),
        None => None,
    }
}

/// `Regex::captures` finds the first match of the pattern in the text; the
/// first group of that match is handed out. For the pattern of a line that
/// opens a section, that is the word in an opening tag. Among ASCII lines the
/// pattern matches nothing else, and among all lines nothing that does not
/// stand in angle brackets, and no closing tag.
#[verifier::external_body]
pub(crate) fn first_group(re: &Regex, text: &str) -> (res: Option<String>)
    ensures
        group_text(res) == pattern_group(regex_source(*re), text@),
        regex_source(*re) == SECTION_START@ && opened_section(text@) is Some ==> group_text(res)
            == opened_section(text@),
        regex_source(*re) == SECTION_START@ && is_plain_ascii(text@) ==> group_text(res)
            == opened_section(text@),
        regex_source(*re) == SECTION_START@ && res is Some ==> in_brackets(trimmed(text@))
            && trimmed(text@)[1] != '/',
{
    re.captures(text).and_then(|found| found.get(1).map(|group| group.as_str().to_string()))
}

/// The patterns that a list of compiled patterns was made from.
pub open spec fn sources(list: Seq<Regex>) -> Seq<Seq<char>> {
    list.map_values(|re: Regex| regex_source(re))
}

/// Whether one of the patterns matches the text.
pub open spec fn any_pattern_matches(patterns: Seq<Seq<char>>, text: Seq<char>) -> bool {
    exists|i: int| 0 <= i < patterns.len() && pattern_matches(#[trigger] patterns[i], text)
}

/// Whether one of the compiled patterns matches the text.
pub fn any_match(list: &Vec<Regex>, text: &str) -> (yes: bool)
    ensures
        yes == any_pattern_matches(sources(list@), text@),
{
    let ghost patterns = sources(list@);
    let mut i: usize = 0;
    while i < list.len()
        invariant
            i <= list@.len(),
            patterns == sources(list@),
            forall|j: int| 0 <= j < i ==> !pattern_matches(#[trigger] patterns[j], text@),
        decreases list@.len() - i,
    {
        if is_match(&list[i], text) {
            proof {
                assert(pattern_matches(patterns[i as int], text@));
            }
            return true;
        }
        proof {
            assert(patterns[i as int] == regex_source(list@[i as int]));
        }
        i += 1;
    }
    false
}

/// A list of patterns matches a text where one of its patterns does.
pub proof fn law_one_match_is_enough(list: &Vec<Regex>, text: &str, yes: bool)
    requires
        call_ensures(any_match, (list, text), yes),
    ensures
        yes <==> exists|k: int|
            0 <= k < list@.len() && pattern_matches(regex_source(#[trigger] list@[k]), text@),
{
    let patterns = sources(list@);
    if yes {
        let k = choose|k: int|
            0 <= k < patterns.len() && pattern_matches(#[trigger] patterns[k], text@);
        assert(patterns[k] == regex_source(list@[k]));
    }
    if exists|k: int|
        0 <= k < list@.len() && pattern_matches(regex_source(#[trigger] list@[k]), text@) {
        let k = choose|k: int|
            0 <= k < list@.len() && pattern_matches(regex_source(#[trigger] list@[k]), text@);
        assert(patterns[k] == regex_source(list@[k]));
    }
}

/// A word consists of the letters, the digits and the underscore of ASCII.
pub proof fn law_words(text: Seq<char>)
    ensures
        is_word(text) <==> text.len() > 0 && forall|i: int|
            0 <= i < text.len() ==> {
                ||| 'a' <= #[trigger] text[i] && text[i] <= 'z'
                ||| 'A' <= text[i] && text[i] <= 'Z'
                ||| '0' <= text[i] && text[i] <= '9'
                ||| text[i] == '_'
            },
{
}

/// A tag in angle brackets, with white space around it and before its end.
pub open spec fn tag_line(
    before: Seq<char>,
    inside: Seq<char>,
    gap: Seq<char>,
    after: Seq<char>,
) -> Seq<char> {
    before + (seq!['<'] + inside + gap + seq!['>']) + after
}

proof fn lemma_tag(before: Seq<char>, inside: Seq<char>, gap: Seq<char>, after: Seq<char>)
    requires
        is_blank(before),
        is_blank(gap),
        is_blank(after),
        inside.len() > 0,
        !is_white(inside[inside.len() - 1]),
    ensures
        ({
            let tag = trimmed(tag_line(before, inside, gap, after));
            &&& in_brackets(tag)
            &&& tag[1] == inside[0]
            &&& trimmed_end(tag.subrange(1, tag.len() - 1)) == inside
            &&& inside.len() > 1 ==> trimmed_end(tag.subrange(2, tag.len() - 1))
                == inside.drop_first()
        }),
{
    let tag = seq!['<'] + inside + gap + seq!['>'];
    assert(tag[0] == '<' && tag[tag.len() - 1] == '>');
    assert(is_tight(tag));
    law_trimming_takes_blanks(before, tag, after);
    assert(tag.subrange(1, tag.len() - 1) =~= inside + gap);
    lemma_trimmed_end(inside, gap);
    if inside.len() > 1 {
        let rest = inside.drop_first();
        assert(rest.last() == inside[inside.len() - 1]);
        assert(tag.subrange(2, tag.len() - 1) =~= rest + gap);
        lemma_trimmed_end(rest, gap);
    }
}

/// A word in angle brackets opens a section, and with a slash before it closes
/// one, whatever white space stands around the tag and before its end.
pub proof fn law_tags_open_and_close(
    before: Seq<char>,
    word: Seq<char>,
    gap: Seq<char>,
    after: Seq<char>,
)
    requires
        is_blank(before),
        is_blank(gap),
        is_blank(after),
        is_word(word),
    ensures
        opened_section(tag_line(before, word, gap, after)) == Some(word),
        !closes_section(tag_line(before, word, gap, after)),
        closes_section(tag_line(before, seq!['/'] + word, gap, after)),
        opened_section(tag_line(before, seq!['/'] + word, gap, after)) is None,
{
    let slashed = seq!['/'] + word;
    assert(slashed[0] == '/');
    assert(slashed[slashed.len() - 1] == word[word.len() - 1]);
    assert(slashed.drop_first() =~= word);
    lemma_tag(before, word, gap, after);
    lemma_tag(before, slashed, gap, after);
}

/// A line that opens a section is such a tag, and so is one that closes one.
pub proof fn law_sections_open_and_close_with_tags(line: Seq<char>) -> (res: (
    Seq<char>,
    Seq<char>,
    Seq<char>,
    Seq<char>,
))
    ensures
        is_blank(res.0),
        is_blank(res.2),
        is_blank(res.3),
        opened_section(line) is Some || closes_section(line) ==> is_word(res.1),
        opened_section(line) matches Some(word) ==> word == res.1 && line == tag_line(
            res.0,
            word,
            res.2,
            res.3,
        ),
        closes_section(line) ==> line == tag_line(res.0, seq!['/'] + res.1, res.2, res.3),
{
    let (before, after) = law_blanks_were_trimmed(line);
    let tag = trimmed(line);
    if opened_section(line) is Some {
        let inner = tag.subrange(1, tag.len() - 1);
        let gap = lemma_blank_end(inner);
        let word = trimmed_end(inner);
        assert(tag =~= seq!['<'] + inner + seq!['>']);
        assert(seq!['<'] + (word + gap) + seq!['>'] =~= seq!['<'] + word + gap + seq!['>']);
        if closes_section(line) {
            assert(inner[0] == tag[1]);
            assert(word[0] == inner[0]);
        }
        (before, word, gap, after)
    } else if closes_section(line) {
        let inner = tag.subrange(2, tag.len() - 1);
        let gap = lemma_blank_end(inner);
        let word = trimmed_end(inner);
        assert(tag =~= seq!['<', '/'] + inner + seq!['>']);
        assert(seq!['<', '/'] + (word + gap) + seq!['>'] =~= seq!['<'] + (seq!['/'] + word) + gap
            + seq!['>']);
        (before, word, gap, after)
    } else {
        (Seq::empty(), Seq::empty(), Seq::empty(), Seq::empty())
    }
}

} // verus!
