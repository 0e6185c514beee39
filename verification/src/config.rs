//! The configuration: which paths to keep, and which to delete.
//!
//! A configuration file holds one pattern per line. A line that begins with
//! `-` holds a pattern of paths to delete, any other line one of paths to
//! keep. Empty lines and lines that begin with `#` say nothing. Between a line
//! `<arch>` and a line `</arch>` stand lines for that architecture alone.
use crate::command::{replied, CommandRunner};
use crate::error::{JanitorError, PatternError};
use crate::pattern::{
    closes_section, compile, compile_pattern, compiled_to, first_group, in_brackets, is_match,
    is_outcome, is_plain_ascii, is_word, law_sections_open_and_close_with_tags,
    law_tags_open_and_close, lemma_compiled_to, opened_section, pattern_fault, pattern_group,
    pattern_matches, regex_source, sources, tag_line, Compiled, SECTION_END, SECTION_START,
};
use crate::text::{
    begins_with, chars_of, is_blank, law_blanks_were_trimmed, lines, lines_of, same_text, text_of,
    texts, trimmed,
};
use regex::Regex;
use vstd::prelude::*;

verus! {

/// A configuration file: its path, and its content where it could be read.
#[derive(Debug)]
pub struct ConfigFile {
    pub path: String,
    pub content: Result<String, std::io::Error>,
}

/// Whether a line says something.
pub open spec fn is_significant(line: Seq<char>) -> bool {
    line.len() > 0 && line[0] != '#'
}

/// The lines that say something.
pub open spec fn significant(list: Seq<Seq<char>>) -> Seq<Seq<char>> {
    list.filter(|line: Seq<char>| is_significant(line))
}

/// The lines of the first `n` files.
pub open spec fn file_lines(files: Seq<ConfigFile>, n: int) -> Seq<Seq<char>>
    decreases n,
{
    if n <= 0 {
        Seq::empty()
    } else {
        file_lines(files, n - 1) + lines_of(files[n - 1].content->Ok_0@)
    }
}

/// Whether every file could be read.
pub open spec fn all_readable(files: Seq<ConfigFile>) -> bool {
    forall|i: int| 0 <= i < files.len() ==> (#[trigger] files[i]).content is Ok
}

/// Whether `e` names the first of the files that could not be read, and why.
pub open spec fn first_unreadable(files: Seq<ConfigFile>, e: JanitorError) -> bool {
    exists|i: int|
        {
            &&& 0 <= i < files.len()
            &&& (#[trigger] files[i]).content is Err
            &&& forall|j: int| 0 <= j < i ==> (#[trigger] files[j]).content is Ok
            &&& e matches JanitorError::ConfigRead(path, cause)
            &&& path@ == files[i].path@
            &&& cause == files[i].content->Err_0
        }
}

/// Gathers the lines that say something, or says which file could not be
/// read first.
pub fn gather_lines(files: Vec<ConfigFile>) -> (res: Result<Vec<String>, JanitorError>)
    ensures
        match res {
            Ok(list) => all_readable(files@) && texts(list@) == significant(
                file_lines(files@, files@.len() as int),
            ),
            Err(e) => first_unreadable(files@, e),
        },
{
    let ghost given = files@;
    let mut rest = files;
    let mut list: Vec<String> = Vec::new();
    let count: usize = rest.len();
    let mut n: usize = 0;
    proof {
        reveal(Seq::filter);
        assert(significant(file_lines(given, 0)) =~= Seq::<Seq<char>>::empty());
    }
    while n < count
        invariant
            given == files@,
            n <= count == given.len(),
            rest@ == given.skip(n as int),
            forall|i: int| 0 <= i < n ==> (#[trigger] given[i]).content is Ok,
            texts(list@) == significant(file_lines(given, n as int)),
        decreases count - n,
    {
        let file = rest.remove(0);
        proof {
            assert(file == given[n as int]);
            assert(rest@ =~= given.skip(n + 1));
        }
        match file.content {
            Ok(content) => {
                let added = lines(content.as_str());
                push_significant(&mut list, &added);
                proof {
                    lemma_significant_concat(file_lines(given, n as int), lines_of(content@));
                }
            },
            Err(cause) => {
                let e = JanitorError::ConfigRead(file.path, cause);
                proof {
                    assert(given[n as int].content is Err);
                }
                return Err(e);
            },
        }
        n += 1;
    }
    Ok(list)
}

/// What says something in two lists, says it in their concatenation.
proof fn lemma_significant_concat(a: Seq<Seq<char>>, b: Seq<Seq<char>>)
    ensures
        significant(a + b) == significant(a) + significant(b),
{
    Seq::filter_distributes_over_add(a, b, |line: Seq<char>| is_significant(line));
}

/// Appends the lines of `added` that say something to `list`.
fn push_significant(list: &mut Vec<String>, added: &Vec<String>)
    ensures
        texts(final(list)@) == texts(old(list)@) + significant(texts(added@)),
{
    let ghost all = texts(added@);
    let ghost before = texts(list@);
    proof {
        reveal(Seq::filter);
        assert(all.take(0) =~= Seq::<Seq<char>>::empty());
        assert(before + significant(all.take(0)) =~= before);
    }
    let mut i: usize = 0;
    while i < added.len()
        invariant
            i <= added@.len(),
            all == texts(added@),
            texts(list@) == before + significant(all.take(i as int)),
        decreases added@.len() - i,
    {
        proof {
            reveal(Seq::filter);
            assert(all.take(i + 1).drop_last() == all.take(i as int));
            assert(all.take(i + 1).last() == added@[i as int]@);
        }
        if !added[i].as_str().is_empty() && !begins_with(added[i].as_str(), '#') {
            let line = added[i].clone();
            proof {
                assert(texts(list@.push(line)) =~= texts(list@).push(line@));
                assert((before + significant(all.take(i as int))).push(line@) =~= before
                    + significant(all.take(i as int)).push(line@));
            }
            list.push(line);
        }
        i += 1;
    }
    proof {
        assert(all.take(added@.len() as int) == all);
    }
}

/// What a line is to the architecture sections.
pub enum LineMark {
    /// It opens the section of an architecture.
    Open(Seq<char>),
    /// It closes a section.
    Close,
    /// It is a line with a pattern.
    Plain,
}

/// What a line is, as the two tag patterns match it: the name in an opening
/// tag is the first group of the match.
pub open spec fn line_mark(line: Seq<char>) -> LineMark {
    match pattern_group(SECTION_START@, line) {
        Some(tag) => LineMark::Open(tag),
        None => if pattern_matches(SECTION_END@, line) {
            LineMark::Close
        } else {
            LineMark::Plain
        },
    }
}

/// Whether `mark` reads a line as it is written: a tag with an ASCII word in
/// it opens or closes a section, any other line of ASCII is plain, and so is
/// every line that does not stand in angle brackets.
pub open spec fn reads_plainly(line: Seq<char>, mark: LineMark) -> bool {
    &&& opened_section(line) matches Some(tag) ==> mark == LineMark::Open(tag)
    &&& closes_section(line) ==> mark is Close
    &&& is_plain_ascii(line) && opened_section(line) is None && !closes_section(line)
        ==> mark is Plain
    &&& !in_brackets(trimmed(line)) ==> mark is Plain
}

/// What each line is.
pub open spec fn line_marks(list: Seq<Seq<char>>) -> Seq<LineMark> {
    list.map_values(|line: Seq<char>| line_mark(line))
}

/// Whether the line after these stands in the section of another
/// architecture.
pub open spec fn is_skipping(marks: Seq<LineMark>, arch: Seq<char>) -> bool
    decreases marks.len(),
{
    if marks.len() == 0 {
        false
    } else {
        match marks.last() {
            LineMark::Open(tag) => tag != arch,
            LineMark::Close => false,
            LineMark::Plain => is_skipping(marks.drop_last(), arch),
        }
    }
}

/// The plain lines that stand in no section of another architecture.
pub open spec fn selected(
    list: Seq<Seq<char>>,
    marks: Seq<LineMark>,
    arch: Seq<char>,
) -> Seq<Seq<char>>
    decreases list.len(),
{
    if list.len() == 0 {
        Seq::empty()
    } else {
        let before = selected(list.drop_last(), marks.drop_last(), arch);
        if marks.last() is Plain && !is_skipping(marks.drop_last(), arch) {
            before.push(list.last())
        } else {
            before
        }
    }
}

/// What a line was found to be.
#[derive(Debug)]
pub enum LineKind {
    Open(String),
    Close,
    Plain,
}

impl View for LineKind {
    type V = LineMark;

    open spec fn view(&self) -> LineMark {
        match self {
            LineKind::Open(tag) => LineMark::Open(tag@),
            LineKind::Close => LineMark::Close,
            LineKind::Plain => LineMark::Plain,
        }
    }
}

/// The kinds of lines as mathematical values.
pub open spec fn kind_marks(kinds: Seq<LineKind>) -> Seq<LineMark> {
    kinds.map_values(|kind: LineKind| kind@)
}

/// Selects the plain lines that stand in no section of another architecture.
pub fn select_lines(list: Vec<String>, kinds: &Vec<LineKind>, arch: &str) -> (res: Vec<String>)
    requires
        list@.len() == kinds@.len(),
    ensures
        texts(res@) == selected(texts(list@), kind_marks(kinds@), arch@),
{
    let ghost all = texts(list@);
    let ghost marks = kind_marks(kinds@);
    let mut res: Vec<String> = Vec::new();
    let mut skipping = false;
    let mut i: usize = 0;
    while i < list.len()
        invariant
            i <= list@.len() == kinds@.len(),
            all == texts(list@),
            marks == kind_marks(kinds@),
            skipping == is_skipping(marks.take(i as int), arch@),
            texts(res@) == selected(all.take(i as int), marks.take(i as int), arch@),
        decreases list@.len() - i,
    {
        proof {
            assert(all.take(i + 1).drop_last() == all.take(i as int));
            assert(marks.take(i + 1).drop_last() == marks.take(i as int));
            assert(all.take(i + 1).last() == list@[i as int]@);
            assert(marks.take(i + 1).last() == kinds@[i as int]@);
        }
        match &kinds[i] {
            LineKind::Open(tag) => {
                skipping = !same_text(tag.as_str(), arch);
            },
            LineKind::Close => {
                skipping = false;
            },
            LineKind::Plain => {
                if !skipping {
                    let line = list[i].clone();
                    proof {
                        assert(texts(res@.push(line)) =~= texts(res@).push(line@));
                    }
                    res.push(line);
                }
            },
        }
        i += 1;
    }
    proof {
        assert(all.take(list@.len() as int) == all);
        assert(marks.take(list@.len() as int) == marks);
    }
    res
}

/// Selects the lines that hold for an architecture.
pub fn arch_filter(list: Vec<String>, arch: &str) -> (res: Vec<String>)
    ensures
        texts(res@) == selected(texts(list@), line_marks(texts(list@)), arch@),
        forall|i: int|
            0 <= i < list@.len() ==> reads_plainly(
                (#[trigger] list@[i])@,
                line_mark(list@[i]@),
            ),
{
    let ghost all = texts(list@);
    let start = compile(SECTION_START);
    let end = compile(SECTION_END);
    let mut kinds: Vec<LineKind> = Vec::new();
    if let (Ok(start), Ok(end)) = (start, end) {
        let mut i: usize = 0;
        while i < list.len()
            invariant
                i <= list@.len(),
                all == texts(list@),
                kind_marks(kinds@) == line_marks(all).take(i as int),
                regex_source(start) == SECTION_START@,
                regex_source(end) == SECTION_END@,
                forall|j: int|
                    0 <= j < i ==> reads_plainly((#[trigger] list@[j])@, line_mark(list@[j]@)),
            decreases list@.len() - i,
        {
            let line = list[i].as_str();
            let kind = match first_group(&start, line) {
                Some(tag) => LineKind::Open(tag),
                None => if is_match(&end, line) {
                    LineKind::Close
                } else {
                    LineKind::Plain
                },
            };
            proof {
                assert(all[i as int] == line@);
                assert(kind@ == line_mark(line@));
                assert(kind_marks(kinds@.push(kind)) =~= kind_marks(kinds@).push(kind@));
                assert(line_marks(all).take(i + 1) =~= line_marks(all).take(i as int).push(kind@));
            }
            kinds.push(kind);
            i += 1;
        }
        proof {
            assert(line_marks(all).take(list@.len() as int) =~= line_marks(all));
            assert(kind_marks(kinds@).len() == kinds@.len());
        }
    }
    select_lines(list, &kinds, arch)
}

/// Whether a line holds a pattern of paths to delete.
pub open spec fn is_deletion(line: Seq<char>) -> bool {
    line.len() > 0 && line[0] == '-'
}

/// The patterns of paths to keep.
pub open spec fn keep_patterns(list: Seq<Seq<char>>) -> Seq<Seq<char>> {
    list.filter(|line: Seq<char>| !is_deletion(line))
}

/// The patterns of paths to delete, without the `-` before them.
pub open spec fn delete_patterns(list: Seq<Seq<char>>) -> Seq<Seq<char>> {
    list.filter(|line: Seq<char>| is_deletion(line)).map_values(|line: Seq<char>| line.drop_first())
}

/// Parts the lines into the patterns of paths to keep and those of paths to
/// delete.
pub fn part_patterns(list: &Vec<String>) -> (res: (Vec<String>, Vec<String>))
    ensures
        texts(res.0@) == keep_patterns(texts(list@)),
        texts(res.1@) == delete_patterns(texts(list@)),
{
    let ghost all = texts(list@);
    let mut keep: Vec<String> = Vec::new();
    let mut delete: Vec<String> = Vec::new();
    proof {
        reveal(Seq::filter);
        assert(all.take(0) =~= Seq::<Seq<char>>::empty());
        assert(texts(keep@) =~= keep_patterns(all.take(0)));
        assert(texts(delete@) =~= delete_patterns(all.take(0)));
    }
    let mut i: usize = 0;
    while i < list.len()
        invariant
            i <= list@.len(),
            all == texts(list@),
            texts(keep@) == keep_patterns(all.take(i as int)),
            texts(delete@) == delete_patterns(all.take(i as int)),
        decreases list@.len() - i,
    {
        let ghost line = all[i as int];
        proof {
            reveal(Seq::filter);
            assert(line == list@[i as int]@);
            assert(all.take(i + 1).drop_last() == all.take(i as int));
            assert(all.take(i + 1).last() == line);
        }
        if begins_with(list[i].as_str(), '-') {
            let chars = chars_of(list[i].as_str());
            let pattern = text_of(&chars, 1, chars.len());
            proof {
                assert(pattern@ =~= line.drop_first());
                assert(texts(delete@.push(pattern)) =~= texts(delete@).push(pattern@));
                let before = all.take(i as int).filter(|line: Seq<char>| is_deletion(line));
                assert(delete_patterns(all.take(i + 1)) =~= before.map_values(
                    |line: Seq<char>| line.drop_first(),
                ).push(pattern@));
            }
            delete.push(pattern);
        } else {
            let pattern = list[i].clone();
            proof {
                assert(texts(keep@.push(pattern)) =~= texts(keep@).push(pattern@));
            }
            keep.push(pattern);
        }
        i += 1;
    }
    proof {
        assert(all.take(list@.len() as int) == all);
    }
    (keep, delete)
}

/// Whether `outcomes` is what became of `patterns`, one by one.
pub open spec fn are_outcomes(patterns: Seq<Seq<char>>, outcomes: Seq<Compiled>) -> bool {
    &&& outcomes.len() == patterns.len()
    &&& forall|i: int| 0 <= i < outcomes.len() ==> compiled_to(patterns[i], #[trigger] outcomes[i])
}

/// Compiles every pattern, in order.
pub fn compile_all(patterns: &Vec<String>) -> (outcomes: Vec<Compiled>)
    ensures
        are_outcomes(texts(patterns@), outcomes@),
{
    let mut outcomes: Vec<Compiled> = Vec::new();
    let mut i: usize = 0;
    while i < patterns.len()
        invariant
            i <= patterns@.len(),
            are_outcomes(texts(patterns@).take(i as int), outcomes@),
        decreases patterns@.len() - i,
    {
        let outcome = compile_pattern(patterns[i].as_str());
        let ghost before = outcomes@;
        outcomes.push(outcome);
        proof {
            let all = texts(patterns@);
            assert(all[i as int] == patterns@[i as int]@);
            assert forall|j: int| 0 <= j < outcomes@.len() implies compiled_to(
                all.take(i + 1)[j],
                #[trigger] outcomes@[j],
            ) by {
                if j < i {
                    assert(outcomes@[j] == before[j]);
                    assert(all.take(i + 1)[j] == all.take(i as int)[j]);
                }
            }
        }
        i += 1;
    }
    proof {
        assert(texts(patterns@).take(patterns@.len() as int) =~= texts(patterns@));
    }
    outcomes
}

/// Whether `e` is the first failure among the outcomes.
pub open spec fn is_first_fault(outcomes: Seq<Compiled>, e: JanitorError) -> bool {
    exists|k: int|
        {
            &&& 0 <= k < outcomes.len()
            &&& (#[trigger] outcomes[k]) is Err
            &&& forall|j: int| 0 <= j < k ==> (#[trigger] outcomes[j]) is Ok
            &&& e == JanitorError::Regex(outcomes[k]->Err_0)
        }
}

/// Whether `list` holds the compiled patterns of the outcomes, none of which
/// is a failure.
pub open spec fn are_all_compiled(outcomes: Seq<Compiled>, list: Seq<Regex>) -> bool {
    &&& list.len() == outcomes.len()
    &&& forall|i: int|
        0 <= i < outcomes.len() ==> #[trigger] outcomes[i] == Ok::<Regex, PatternError>(list[i])
}

/// The compiled patterns, or the first failure.
pub fn collect_patterns(outcomes: Vec<Compiled>) -> (res: Result<Vec<Regex>, JanitorError>)
    ensures
        match res {
            Ok(list) => are_all_compiled(outcomes@, list@),
            Err(e) => is_first_fault(outcomes@, e),
        },
{
    let mut list: Vec<Regex> = Vec::new();
    for outcome in it: outcomes
        invariant
            it.seq() == outcomes@,
            list@.len() == it.index(),
            forall|i: int|
                0 <= i < it.index() ==> #[trigger] outcomes@[i] == Ok::<Regex, PatternError>(
                    list@[i],
                ),
    {
        match outcome {
            Ok(re) => {
                list.push(re);
            },
            Err(fault) => {
                proof {
                    assert(outcomes@[it.index() as int] is Err);
                }
                return Err(JanitorError::Regex(fault));
            },
        }
    }
    Ok(list)
}

/// Whether `res` is what two lists of outcomes come to, those of the patterns
/// of paths to keep and those of the patterns of paths to delete: the patterns
/// of both, or the first failure, where the first list precedes the second.
pub open spec fn is_parted(
    keep: Seq<Compiled>,
    delete: Seq<Compiled>,
    res: Result<(Vec<Regex>, Vec<Regex>), JanitorError>,
) -> bool {
    match res {
        Ok((to_keep, to_delete)) => are_all_compiled(keep, to_keep@) && are_all_compiled(
            delete,
            to_delete@,
        ),
        Err(e) => is_first_fault(keep + delete, e),
    }
}

/// The compiled patterns of paths to keep and of paths to delete, or the first
/// failure.
pub fn collect_parts(keep: Vec<Compiled>, delete: Vec<Compiled>) -> (res: Result<
    (Vec<Regex>, Vec<Regex>),
    JanitorError,
>)
    ensures
        is_parted(keep@, delete@, res),
{
    let ghost (k, d) = (keep@, delete@);
    let to_keep = match collect_patterns(keep) {
        Ok(to_keep) => to_keep,
        Err(e) => {
            proof {
                let at = choose|at: int|
                    {
                        &&& 0 <= at < k.len()
                        &&& (#[trigger] k[at]) is Err
                        &&& forall|j: int| 0 <= j < at ==> (#[trigger] k[j]) is Ok
                        &&& e == JanitorError::Regex(k[at]->Err_0)
                    };
                assert((k + d)[at] == k[at]);
                assert forall|j: int| 0 <= j < at implies (#[trigger] (k + d)[j]) is Ok by {
                    assert(k[j] is Ok);
                }
            }
            return Err(e);
        },
    };
    match collect_patterns(delete) {
        Ok(to_delete) => Ok((to_keep, to_delete)),
        Err(e) => {
            proof {
                let at = choose|at: int|
                    {
                        &&& 0 <= at < d.len()
                        &&& (#[trigger] d[at]) is Err
                        &&& forall|j: int| 0 <= j < at ==> (#[trigger] d[j]) is Ok
                        &&& e == JanitorError::Regex(d[at]->Err_0)
                    };
                let n = k.len() + at;
                assert((k + d)[n] == d[at]);
                assert forall|j: int| 0 <= j < n implies (#[trigger] (k + d)[j]) is Ok by {
                    if j < k.len() {
                        assert(k[j] is Ok);
                    } else {
                        assert(d[j - k.len()] is Ok);
                    }
                }
            }
            Err(e)
        },
    }
}

/// Whether `res` can be the outcome of compiling the patterns of the lines.
pub open spec fn is_compiled(
    list: Seq<Seq<char>>,
    res: Result<(Vec<Regex>, Vec<Regex>), JanitorError>,
) -> bool {
    exists|keep: Seq<Compiled>, delete: Seq<Compiled>|
        {
            &&& are_outcomes(keep_patterns(list), keep)
            &&& are_outcomes(delete_patterns(list), delete)
            &&& #[trigger] is_parted(keep, delete, res)
        }
}

/// Compiles the patterns of the lines: those of paths to keep, and those of
/// paths to delete.
pub fn compile_lines(list: &Vec<String>) -> (res: Result<(Vec<Regex>, Vec<Regex>), JanitorError>)
    ensures
        is_compiled(texts(list@), res),
{
    let (keep, delete) = part_patterns(list);
    collect_parts(compile_all(&keep), compile_all(&delete))
}

/// A configuration is accepted only as a whole: where it is, every pattern
/// was compiled, in order, and none breaks the syntax of regular expressions.
pub proof fn law_accepted_patterns_are_all_in_use(
    list: Seq<Seq<char>>,
    to_keep: Vec<Regex>,
    to_delete: Vec<Regex>,
)
    requires
        is_compiled(list, Ok((to_keep, to_delete))),
    ensures
        sources(to_keep@) == keep_patterns(list),
        sources(to_delete@) == delete_patterns(list),
        forall|i: int|
            0 <= i < keep_patterns(list).len() ==> pattern_fault(
                #[trigger] keep_patterns(list)[i],
            ) is None,
        forall|i: int|
            0 <= i < delete_patterns(list).len() ==> pattern_fault(
                #[trigger] delete_patterns(list)[i],
            ) is None,
{
    let res = Ok::<(Vec<Regex>, Vec<Regex>), JanitorError>((to_keep, to_delete));
    let (keep, delete) = choose|keep: Seq<Compiled>, delete: Seq<Compiled>|
        {
            &&& are_outcomes(keep_patterns(list), keep)
            &&& are_outcomes(delete_patterns(list), delete)
            &&& #[trigger] is_parted(keep, delete, res)
        };
    lemma_compiled_sources(keep_patterns(list), keep, to_keep@);
    lemma_compiled_sources(delete_patterns(list), delete, to_delete@);
}

proof fn lemma_compiled_sources(
    patterns: Seq<Seq<char>>,
    outcomes: Seq<Compiled>,
    list: Seq<Regex>,
)
    requires
        are_outcomes(patterns, outcomes),
        are_all_compiled(outcomes, list),
    ensures
        sources(list) == patterns,
        forall|i: int|
            0 <= i < patterns.len() ==> pattern_fault(#[trigger] patterns[i]) is None,
{
    assert forall|i: int| 0 <= i < patterns.len() implies sources(list)[i] == patterns[i]
        && pattern_fault(#[trigger] patterns[i]) is None by {
        assert(outcomes[i] == Ok::<Regex, PatternError>(list[i]));
        assert(compiled_to(patterns[i], outcomes[i]));
        lemma_compiled_to(patterns[i], outcomes[i]);
    }
    assert(sources(list) =~= patterns);
}

/// Asks for the architecture of the system.
pub fn get_arch<R: CommandRunner>(runner: &R) -> (reply: Result<String, JanitorError>)
    ensures
        replied(runner, "arch", Seq::empty(), reply),
{
    let args: [&str; 0] = [];
    let list: &[&str] = &args;
    let reply = runner.run("arch", list);
    proof {
        assert(crate::command::argument_texts(list@) =~= Seq::<Seq<char>>::empty());
        assert(call_ensures(R::run, (runner, "arch", list), reply));
    }
    reply
}

/// Whether `res` is the configuration that the files hold, when `reply` was
/// the answer to the question for the architecture.
pub open spec fn is_config(
    files: Seq<ConfigFile>,
    reply: Result<String, JanitorError>,
    res: Result<(Vec<Regex>, Vec<Regex>), JanitorError>,
) -> bool {
    match reply {
        Ok(arch) => {
            let list = significant(file_lines(files, files.len() as int));
            &&& is_compiled(selected(list, line_marks(list), arch@), res)
            &&& forall|i: int|
                0 <= i < list.len() ==> reads_plainly(#[trigger] list[i], line_mark(list[i]))
        },
        Err(e) => res == Err::<(Vec<Regex>, Vec<Regex>), JanitorError>(e),
    }
}

/// Reads the configuration: the patterns of paths to keep, and those of paths
/// to delete, that hold for the architecture of the system.
pub fn read_config<R: CommandRunner>(files: Vec<ConfigFile>, runner: &R) -> (res: Result<
    (Vec<Regex>, Vec<Regex>),
    JanitorError,
>)
    ensures
        !all_readable(files@) ==> (res matches Err(e) && first_unreadable(files@, e)),
        all_readable(files@) ==> exists|reply: Result<String, JanitorError>| #[trigger]
            replied(runner, "arch", Seq::empty(), reply) && is_config(files@, reply, res),
{
    let list = match gather_lines(files) {
        Ok(list) => list,
        Err(e) => {
            return Err(e);
        },
    };
    let ghost lines = texts(list@);
    match get_arch(runner) {
        Ok(arch) => {
            let chosen = arch_filter(list, arch.as_str());
            proof {
                assert forall|i: int| 0 <= i < lines.len() implies reads_plainly(
                    #[trigger] lines[i],
                    line_mark(lines[i]),
                ) by {
                    assert(lines[i] == list@[i]@);
                }
            }
            compile_lines(&chosen)
        },
        Err(e) => Err(e),
    }
}

/// As `is_skipping`, for lines that follow others: `start` is whether the
/// first of them stands in the section of another architecture.
spec fn skipping_from(marks: Seq<LineMark>, arch: Seq<char>, start: bool) -> bool
    decreases marks.len(),
{
    if marks.len() == 0 {
        start
    } else {
        match marks.last() {
            LineMark::Open(tag) => tag != arch,
            LineMark::Close => false,
            LineMark::Plain => skipping_from(marks.drop_last(), arch, start),
        }
    }
}

/// As `selected`, for lines that follow others.
spec fn selected_from(
    list: Seq<Seq<char>>,
    marks: Seq<LineMark>,
    arch: Seq<char>,
    start: bool,
) -> Seq<Seq<char>>
    decreases list.len(),
{
    if list.len() == 0 {
        Seq::empty()
    } else {
        let before = selected_from(list.drop_last(), marks.drop_last(), arch, start);
        if marks.last() is Plain && !skipping_from(marks.drop_last(), arch, start) {
            before.push(list.last())
        } else {
            before
        }
    }
}

proof fn lemma_skipping_concat(a: Seq<LineMark>, b: Seq<LineMark>, arch: Seq<char>)
    ensures
        is_skipping(a + b, arch) == skipping_from(b, arch, is_skipping(a, arch)),
    decreases b.len(),
{
    if b.len() == 0 {
        assert(a + b =~= a);
    } else {
        lemma_skipping_concat(a, b.drop_last(), arch);
        assert((a + b).drop_last() =~= a + b.drop_last());
        assert((a + b).last() == b.last());
    }
}

proof fn lemma_selected_concat(
    a: Seq<Seq<char>>,
    a_marks: Seq<LineMark>,
    b: Seq<Seq<char>>,
    b_marks: Seq<LineMark>,
    arch: Seq<char>,
)
    requires
        a.len() == a_marks.len(),
        b.len() == b_marks.len(),
    ensures
        selected(a + b, a_marks + b_marks, arch) == selected(a, a_marks, arch) + selected_from(
            b,
            b_marks,
            arch,
            is_skipping(a_marks, arch),
        ),
    decreases b.len(),
{
    let start = is_skipping(a_marks, arch);
    let front = selected(a, a_marks, arch);
    if b.len() == 0 {
        assert(a + b =~= a);
        assert(a_marks + b_marks =~= a_marks);
        assert(front + selected_from(b, b_marks, arch, start) =~= front);
    } else {
        let (c, c_marks) = (b.drop_last(), b_marks.drop_last());
        lemma_selected_concat(a, a_marks, c, c_marks, arch);
        lemma_skipping_concat(a_marks, c_marks, arch);
        assert((a + b).drop_last() =~= a + c);
        assert((a_marks + b_marks).drop_last() =~= a_marks + c_marks);
        assert((a + b).last() == b.last());
        assert((a_marks + b_marks).last() == b_marks.last());
        let rest = selected_from(c, c_marks, arch, start);
        assert((front + rest).push(b.last()) =~= front + rest.push(b.last()));
    }
}

/// Whether no line opens or closes a section.
pub open spec fn all_plain(marks: Seq<LineMark>) -> bool {
    forall|i: int| 0 <= i < marks.len() ==> (#[trigger] marks[i]) is Plain
}

proof fn lemma_plain_lines(
    list: Seq<Seq<char>>,
    marks: Seq<LineMark>,
    arch: Seq<char>,
    start: bool,
)
    requires
        list.len() == marks.len(),
        all_plain(marks),
    ensures
        skipping_from(marks, arch, start) == start,
        selected_from(list, marks, arch, start) == if start {
            Seq::<Seq<char>>::empty()
        } else {
            list
        },
    decreases list.len(),
{
    if list.len() > 0 {
        assert(marks[marks.len() - 1] is Plain);
        assert forall|i: int| 0 <= i < marks.drop_last().len() implies (
        #[trigger] marks.drop_last()[i]) is Plain by {
            assert(marks[i] is Plain);
        }
        lemma_plain_lines(list.drop_last(), marks.drop_last(), arch, start);
        assert(list.drop_last().push(list.last()) =~= list);
    } else {
        assert(list =~= Seq::<Seq<char>>::empty());
    }
}

/// Lines outside all sections hold for every architecture.
pub proof fn law_common_lines_hold_everywhere(
    list: Seq<Seq<char>>,
    marks: Seq<LineMark>,
    arch: Seq<char>,
)
    requires
        list.len() == marks.len(),
        all_plain(marks),
    ensures
        selected(list, marks, arch) == list,
{
    let (none, no_marks) = (Seq::<Seq<char>>::empty(), Seq::<LineMark>::empty());
    lemma_selected_concat(none, no_marks, list, marks, arch);
    lemma_plain_lines(list, marks, arch, false);
    assert(none + list =~= list);
    assert(no_marks + marks =~= marks);
}

proof fn lemma_selected_are_plain(list: Seq<Seq<char>>, arch: Seq<char>)
    ensures
        all_plain(line_marks(selected(list, line_marks(list), arch))),
    decreases list.len(),
{
    if list.len() > 0 {
        let (shorter, marks) = (list.drop_last(), line_marks(list));
        lemma_selected_are_plain(shorter, arch);
        assert(marks.drop_last() =~= line_marks(shorter));
        let before = selected(shorter, line_marks(shorter), arch);
        let after = selected(list, marks, arch);
        assert forall|i: int| 0 <= i < line_marks(after).len() implies (#[trigger] line_marks(
            after,
        )[i]) is Plain by {
            if i < before.len() {
                assert(line_marks(before)[i] is Plain);
                assert(after[i] == before[i]);
            } else {
                assert(marks.last() == line_mark(list.last()));
            }
        }
    }
}

/// Lines that were selected are selected again, for whatever architecture.
pub proof fn law_selecting_again_changes_nothing(
    list: Seq<Seq<char>>,
    arch: Seq<char>,
    other: Seq<char>,
)
    ensures
        ({
            let once = selected(list, line_marks(list), arch);
            selected(once, line_marks(once), other) == once
        }),
{
    lemma_selected_are_plain(list, arch);
    let once = selected(list, line_marks(list), arch);
    law_common_lines_hold_everywhere(once, line_marks(once), other);
}

/// The lines of a section with what stands around it.
pub open spec fn with_section<A>(
    before: Seq<A>,
    open: A,
    body: Seq<A>,
    close: A,
    after: Seq<A>,
) -> Seq<A> {
    before + (seq![open] + (body + (seq![close] + after)))
}

/// Of a section, the lines of its architecture remain, and those of any other
/// disappear; the lines around it are selected as if it were not there. No
/// section of another architecture may be open before it.
pub proof fn law_sections_hold_for_their_architecture(
    before: (Seq<Seq<char>>, Seq<LineMark>),
    open: Seq<char>,
    tag: Seq<char>,
    body: (Seq<Seq<char>>, Seq<LineMark>),
    close: Seq<char>,
    after: (Seq<Seq<char>>, Seq<LineMark>),
    arch: Seq<char>,
)
    requires
        before.0.len() == before.1.len(),
        body.0.len() == body.1.len(),
        after.0.len() == after.1.len(),
        all_plain(body.1),
        !is_skipping(before.1, arch),
    ensures
        selected(
            with_section(before.0, open, body.0, close, after.0),
            with_section(before.1, LineMark::Open(tag), body.1, LineMark::Close, after.1),
            arch,
        ) == if tag == arch {
            selected(before.0 + (body.0 + after.0), before.1 + (body.1 + after.1), arch)
        } else {
            selected(before.0 + after.0, before.1 + after.1, arch)
        },
{
    let foreign = tag != arch;
    let (opened, open_mark) = (seq![open], seq![LineMark::Open(tag)]);
    let (closed, close_mark) = (seq![close], seq![LineMark::Close]);
    let tail = (closed + after.0, close_mark + after.1);
    let inner = (body.0 + tail.0, body.1 + tail.1);
    let whole = (opened + inner.0, open_mark + inner.1);
    lemma_selected_concat(before.0, before.1, whole.0, whole.1, arch);
    lemma_from_concat(opened, open_mark, inner.0, inner.1, arch, false);
    lemma_from_concat(body.0, body.1, tail.0, tail.1, arch, foreign);
    lemma_from_concat(closed, close_mark, after.0, after.1, arch, foreign);
    lemma_plain_lines(body.0, body.1, arch, foreign);
    lemma_plain_lines(body.0, body.1, arch, false);
    lemma_tag_line(opened, open_mark, arch, false);
    lemma_tag_line(closed, close_mark, arch, foreign);
    let front = selected(before.0, before.1, arch);
    let rest = selected_from(after.0, after.1, arch, false);
    let none = Seq::<Seq<char>>::empty();
    assert(none + rest =~= rest);
    assert(none + (body.0 + rest) =~= body.0 + rest);
    if foreign {
        lemma_selected_concat(before.0, before.1, after.0, after.1, arch);
    } else {
        lemma_selected_concat(before.0, before.1, body.0 + after.0, body.1 + after.1, arch);
        lemma_from_concat(body.0, body.1, after.0, after.1, arch, false);
    }
}

/// A line that opens or closes a section is not selected.
proof fn lemma_tag_line(
    line: Seq<Seq<char>>,
    mark: Seq<LineMark>,
    arch: Seq<char>,
    start: bool,
)
    requires
        line.len() == 1,
        mark.len() == 1,
        !(mark[0] is Plain),
    ensures
        selected_from(line, mark, arch, start) == Seq::<Seq<char>>::empty(),
        skipping_from(mark, arch, start) == match mark[0] {
            LineMark::Open(tag) => tag != arch,
            _ => false,
        },
{
    reveal_with_fuel(selected_from, 2);
    assert(line.drop_last() =~= Seq::<Seq<char>>::empty());
}

proof fn lemma_from_concat(
    a: Seq<Seq<char>>,
    a_marks: Seq<LineMark>,
    b: Seq<Seq<char>>,
    b_marks: Seq<LineMark>,
    arch: Seq<char>,
    start: bool,
)
    requires
        a.len() == a_marks.len(),
        b.len() == b_marks.len(),
    ensures
        skipping_from(a_marks + b_marks, arch, start) == skipping_from(
            b_marks,
            arch,
            skipping_from(a_marks, arch, start),
        ),
        selected_from(a + b, a_marks + b_marks, arch, start) == selected_from(
            a,
            a_marks,
            arch,
            start,
        ) + selected_from(b, b_marks, arch, skipping_from(a_marks, arch, start)),
    decreases b.len(),
{
    let middle = skipping_from(a_marks, arch, start);
    let front = selected_from(a, a_marks, arch, start);
    if b.len() == 0 {
        assert(a + b =~= a);
        assert(a_marks + b_marks =~= a_marks);
        assert(front + selected_from(b, b_marks, arch, middle) =~= front);
    } else {
        let (c, c_marks) = (b.drop_last(), b_marks.drop_last());
        lemma_from_concat(a, a_marks, c, c_marks, arch, start);
        assert((a + b).drop_last() =~= a + c);
        assert((a_marks + b_marks).drop_last() =~= a_marks + c_marks);
        assert((a + b).last() == b.last());
        assert((a_marks + b_marks).last() == b_marks.last());
        let rest = selected_from(c, c_marks, arch, middle);
        assert((front + rest).push(b.last()) =~= front + rest.push(b.last()));
    }
}

/// A comment or an empty line has no effect, wherever it stands.
pub proof fn law_silent_lines_have_no_effect(
    before: Seq<Seq<char>>,
    line: Seq<char>,
    after: Seq<Seq<char>>,
)
    requires
        !is_significant(line),
    ensures
        significant(before.push(line) + after) == significant(before + after),
    decreases after.len(),
{
    reveal(Seq::filter);
    if after.len() == 0 {
        assert(before.push(line) + after =~= before.push(line));
        assert(before.push(line).drop_last() =~= before);
        assert(before + after =~= before);
    } else {
        let shorter = after.drop_last();
        law_silent_lines_have_no_effect(before, line, shorter);
        assert((before.push(line) + after).drop_last() =~= before.push(line) + shorter);
        assert((before + after).drop_last() =~= before + shorter);
        assert((before.push(line) + after).last() == after.last());
        assert((before + after).last() == after.last());
    }
}

/// Every line gives one pattern, either of paths to keep or of paths to
/// delete.
pub proof fn law_every_line_gives_one_pattern(list: Seq<Seq<char>>)
    ensures
        keep_patterns(list).len() + delete_patterns(list).len() == list.len(),
        forall|line: Seq<char>| #[trigger]
            list.contains(line) ==> if is_deletion(line) {
                delete_patterns(list).contains(line.drop_first())
            } else {
                keep_patterns(list).contains(line)
            },
    decreases list.len(),
{
    reveal(Seq::filter);
    if list.len() > 0 {
        let shorter = list.drop_last();
        law_every_line_gives_one_pattern(shorter);
        let deletions = list.filter(|line: Seq<char>| is_deletion(line));
        let (keep, delete) = (keep_patterns(shorter), delete_patterns(shorter));
        assert forall|line: Seq<char>| #[trigger] list.contains(line) implies if is_deletion(
            line,
        ) {
            delete_patterns(list).contains(line.drop_first())
        } else {
            keep_patterns(list).contains(line)
        } by {
            let i = choose|i: int| 0 <= i < list.len() && list[i] == line;
            if i < shorter.len() {
                assert(shorter[i] == line);
                assert(shorter.contains(line));
                if is_deletion(line) {
                    let k = choose|k: int|
                        0 <= k < delete.len() && delete[k] == line.drop_first();
                    assert(delete_patterns(list)[k] == delete[k]);
                } else {
                    let k = choose|k: int| 0 <= k < keep.len() && keep[k] == line;
                    assert(keep_patterns(list)[k] == keep[k]);
                }
            } else if is_deletion(line) {
                assert(deletions.last() == line);
                assert(delete_patterns(list)[deletions.len() - 1] == line.drop_first());
            } else {
                assert(keep_patterns(list).last() == line);
            }
        }
    }
}

/// Whether compiling a pattern once more accepts it where it was accepted
/// before.
pub open spec fn compiles_alike() -> bool {
    forall|pattern: Seq<char>, a: Compiled, b: Compiled|
        #![trigger compiled_to(pattern, a), compiled_to(pattern, b)]
        compiled_to(pattern, a) && compiled_to(pattern, b) ==> (a is Ok <==> b is Ok)
}

/// Of two readings of the same patterns, where one accepts them the other
/// does too or finds one of them too big, and accepted they are the same.
proof fn lemma_compiled_twice(
    list: Seq<Seq<char>>,
    a: Result<(Vec<Regex>, Vec<Regex>), JanitorError>,
    b: Result<(Vec<Regex>, Vec<Regex>), JanitorError>,
)
    requires
        is_compiled(list, a),
        is_compiled(list, b),
        a is Ok,
    ensures
        b is Ok ==> sources(a->Ok_0.0@) == sources(b->Ok_0.0@) && sources(a->Ok_0.1@) == sources(
            b->Ok_0.1@,
        ),
        b is Err ==> is_too_big(b->Err_0),
        compiles_alike() ==> b is Ok,
{
    let (a_keep, a_delete) = choose|keep: Seq<Compiled>, delete: Seq<Compiled>|
        {
            &&& are_outcomes(keep_patterns(list), keep)
            &&& are_outcomes(delete_patterns(list), delete)
            &&& #[trigger] is_parted(keep, delete, a)
        };
    let (b_keep, b_delete) = choose|keep: Seq<Compiled>, delete: Seq<Compiled>|
        {
            &&& are_outcomes(keep_patterns(list), keep)
            &&& are_outcomes(delete_patterns(list), delete)
            &&& #[trigger] is_parted(keep, delete, b)
        };
    if let Err(e) = b {
        let (a_all, b_all) = (a_keep + a_delete, b_keep + b_delete);
        let k = choose|k: int|
            {
                &&& 0 <= k < b_all.len()
                &&& (#[trigger] b_all[k]) is Err
                &&& forall|j: int| 0 <= j < k ==> (#[trigger] b_all[j]) is Ok
                &&& e == JanitorError::Regex(b_all[k]->Err_0)
            };
        let pattern = if k < b_keep.len() {
            keep_patterns(list)[k]
        } else {
            delete_patterns(list)[k - b_keep.len()]
        };
        if k < b_keep.len() {
            assert(compiled_to(pattern, b_keep[k]));
            assert(compiled_to(pattern, a_keep[k]));
            assert(a_all[k] == a_keep[k] && a_keep[k] is Ok);
        } else {
            let m = k - b_keep.len();
            assert(compiled_to(pattern, b_delete[m]));
            assert(compiled_to(pattern, a_delete[m]));
            assert(a_all[k] == a_delete[m] && a_delete[m] is Ok);
        }
        lemma_compiled_to(pattern, a_all[k]);
        lemma_compiled_to(pattern, b_all[k]);
    } else {
        law_accepted_patterns_are_all_in_use(list, a->Ok_0.0, a->Ok_0.1);
        law_accepted_patterns_are_all_in_use(list, b->Ok_0.0, b->Ok_0.1);
    }
}

/// Whether an error says that a pattern is too big.
pub open spec fn is_too_big(e: JanitorError) -> bool {
    e matches JanitorError::Regex(PatternError::CompiledTooBig(_))
}

/// Two configuration files are read as one file that holds the lines of the
/// first and then those of the second: readings that succeed give the same
/// patterns, and where just one fails a pattern is too big. If a pattern is
/// found too big always or never, both fail or both succeed. A section that
/// the first file leaves open goes on into the second.
pub proof fn law_files_are_read_as_one(
    two: Seq<ConfigFile>,
    one: Seq<ConfigFile>,
    reply: Result<String, JanitorError>,
    a: Result<(Vec<Regex>, Vec<Regex>), JanitorError>,
    b: Result<(Vec<Regex>, Vec<Regex>), JanitorError>,
)
    requires
        two.len() == 2,
        one.len() == 1,
        lines_of(one[0].content->Ok_0@) == lines_of(two[0].content->Ok_0@) + lines_of(
            two[1].content->Ok_0@,
        ),
        is_config(two, reply, a),
        is_config(one, reply, b),
    ensures
        a is Ok && b is Ok ==> sources(a->Ok_0.0@) == sources(b->Ok_0.0@) && sources(a->Ok_0.1@)
            == sources(b->Ok_0.1@),
        a is Ok && b is Err ==> is_too_big(b->Err_0),
        a is Err && b is Ok ==> is_too_big(a->Err_0),
        compiles_alike() ==> (a is Ok <==> b is Ok),
{
    reveal_with_fuel(file_lines, 3);
    assert(file_lines(two, 2) =~= file_lines(one, 1));
    if let Ok(arch) = reply {
        let list = significant(file_lines(two, 2));
        let chosen = selected(list, line_marks(list), arch@);
        if a is Ok {
            lemma_compiled_twice(chosen, a, b);
        }
        if b is Ok {
            lemma_compiled_twice(chosen, b, a);
        }
    }
}

/// A configuration is accepted where each of its patterns is: it fails only
/// with the failure of one of them.
pub proof fn law_acceptable_patterns_are_accepted(
    list: Seq<Seq<char>>,
    res: Result<(Vec<Regex>, Vec<Regex>), JanitorError>,
)
    requires
        is_compiled(list, res),
        forall|pattern: Seq<char>, outcome: Compiled|
            (keep_patterns(list) + delete_patterns(list)).contains(pattern)
                && #[trigger] compiled_to(pattern, outcome) ==> outcome is Ok,
    ensures
        res is Ok,
{
    let (keep, delete) = choose|keep: Seq<Compiled>, delete: Seq<Compiled>|
        {
            &&& are_outcomes(keep_patterns(list), keep)
            &&& are_outcomes(delete_patterns(list), delete)
            &&& #[trigger] is_parted(keep, delete, res)
        };
    if let Err(e) = res {
        let all = keep + delete;
        let patterns = keep_patterns(list) + delete_patterns(list);
        let k = choose|k: int|
            {
                &&& 0 <= k < all.len()
                &&& (#[trigger] all[k]) is Err
                &&& forall|j: int| 0 <= j < k ==> (#[trigger] all[j]) is Ok
                &&& e == JanitorError::Regex(all[k]->Err_0)
            };
        assert(patterns.contains(patterns[k]));
        if k < keep.len() {
            assert(compiled_to(keep_patterns(list)[k], keep[k]));
        } else {
            assert(compiled_to(delete_patterns(list)[k - keep.len()], delete[k - keep.len()]));
        }
    }
}

/// One more line gives one more pattern, at the end: a line of `-` and a
/// pattern gives that pattern to delete, a line that does not begin with `-`
/// gives itself as a pattern to keep. The other patterns stay as they are.
pub proof fn law_each_line_gives_its_pattern(
    list: &Vec<String>,
    longer: &Vec<String>,
    line: Seq<char>,
    pattern: Seq<char>,
    parts: (Vec<String>, Vec<String>),
    more: (Vec<String>, Vec<String>),
)
    requires
        call_ensures(part_patterns, (list,), parts),
        call_ensures(part_patterns, (longer,), more),
        texts(longer@) == texts(list@).push(line),
    ensures
        list@.len() == 0 ==> parts.0@.len() == 0 && parts.1@.len() == 0,
        line == seq!['-'] + pattern ==> texts(more.0@) == texts(parts.0@) && texts(more.1@)
            == texts(parts.1@).push(pattern),
        !(line.len() > 0 && line[0] == '-') ==> texts(more.0@) == texts(parts.0@).push(line)
            && texts(more.1@) == texts(parts.1@),
{
    lemma_one_more_line(texts(list@), line);
    reveal(Seq::filter);
    assert(texts(list@).len() == list@.len());
    assert(texts(parts.0@).len() == parts.0@.len());
    assert(texts(parts.1@).len() == parts.1@.len());
    if line == seq!['-'] + pattern {
        assert(line[0] == '-');
        assert(line.drop_first() =~= pattern);
    }
}

proof fn lemma_one_more_line(list: Seq<Seq<char>>, line: Seq<char>)
    ensures
        line.len() > 0 && line[0] == '-' ==> keep_patterns(list.push(line)) == keep_patterns(list)
            && delete_patterns(list.push(line)) == delete_patterns(list).push(line.drop_first()),
        !(line.len() > 0 && line[0] == '-') ==> keep_patterns(list.push(line)) == keep_patterns(
            list,
        ).push(line) && delete_patterns(list.push(line)) == delete_patterns(list),
{
    reveal(Seq::filter);
    assert(list.push(line).drop_last() =~= list);
    let deletions = list.filter(|line: Seq<char>| is_deletion(line));
    assert(deletions.push(line).map_values(|line: Seq<char>| line.drop_first())
        =~= deletions.map_values(|line: Seq<char>| line.drop_first()).push(line.drop_first()));
}

/// Where the lines are accepted, each pattern that they give was compiled, as
/// it is written and in order, and no other.
pub proof fn law_patterns_are_compiled_as_written(
    list: &Vec<String>,
    parts: (Vec<String>, Vec<String>),
    to_keep: Vec<Regex>,
    to_delete: Vec<Regex>,
)
    requires
        call_ensures(part_patterns, (list,), parts),
        call_ensures(compile_lines, (list,), Ok((to_keep, to_delete))),
    ensures
        to_keep@.len() == parts.0@.len(),
        to_delete@.len() == parts.1@.len(),
        forall|i: int|
            0 <= i < to_keep@.len() ==> regex_source(#[trigger] to_keep@[i]) == parts.0@[i]@,
        forall|i: int|
            0 <= i < to_delete@.len() ==> regex_source(#[trigger] to_delete@[i]) == parts.1@[i]@,
{
    law_accepted_patterns_are_all_in_use(texts(list@), to_keep, to_delete);
    let (keep, delete) = (sources(to_keep@), sources(to_delete@));
    assert(keep.len() == texts(parts.0@).len() && delete.len() == texts(parts.1@).len());
    assert forall|i: int| 0 <= i < to_keep@.len() implies regex_source(#[trigger] to_keep@[i])
        == parts.0@[i]@ by {
        assert(keep[i] == texts(parts.0@)[i]);
    }
    assert forall|i: int| 0 <= i < to_delete@.len() implies regex_source(#[trigger] to_delete@[i])
        == parts.1@[i]@ by {
        assert(delete[i] == texts(parts.1@)[i]);
    }
}

/// Empty lines and lines that begin with `#` are left out, wherever they
/// stand; every other line is left in, in its place.
pub proof fn law_comments_are_left_out(
    before: Seq<Seq<char>>,
    line: Seq<char>,
    after: Seq<Seq<char>>,
)
    ensures
        significant(Seq::empty()) == Seq::<Seq<char>>::empty(),
        significant(before + after) == significant(before) + significant(after),
        line.len() == 0 || line[0] == '#' ==> significant(before + seq![line] + after)
            == significant(before) + significant(after),
        !(line.len() == 0 || line[0] == '#') ==> significant(before + seq![line] + after)
            == significant(before) + seq![line] + significant(after),
{
    reveal(Seq::filter);
    let one = seq![line];
    assert(significant(Seq::empty()) =~= Seq::<Seq<char>>::empty());
    assert(one.drop_last() =~= Seq::<Seq<char>>::empty());
    lemma_significant_concat(before, after);
    lemma_significant_concat(before + one, after);
    lemma_significant_concat(before, one);
    if line.len() == 0 || line[0] == '#' {
        assert(significant(one) =~= Seq::<Seq<char>>::empty());
        assert(significant(before) + significant(one) =~= significant(before));
    } else {
        assert(significant(one) =~= one);
    }
}

proof fn lemma_lines_of_more(files: Seq<ConfigFile>, more: Seq<ConfigFile>, n: int)
    requires
        0 <= n <= files.len() <= more.len(),
        more.take(files.len() as int) == files,
    ensures
        file_lines(more, n) == file_lines(files, n),
    decreases n,
{
    if n > 0 {
        lemma_lines_of_more(files, more, n - 1);
        assert(more.take(files.len() as int)[n - 1] == more[n - 1]);
    }
}

/// One more file adds its lines after those of the others, but for what is
/// left out.
pub proof fn law_files_are_gathered_in_order(
    files: Vec<ConfigFile>,
    more: Vec<ConfigFile>,
    file: ConfigFile,
    list: Vec<String>,
    longer: Vec<String>,
)
    requires
        call_ensures(gather_lines, (files,), Ok(list)),
        call_ensures(gather_lines, (more,), Ok(longer)),
        more@ == files@.push(file),
    ensures
        files@.len() == 0 ==> list@.len() == 0,
        file.content matches Ok(content) && texts(longer@) == texts(list@) + significant(
            lines_of(content@),
        ),
{
    let n = files@.len() as int;
    assert(more@.take(n) =~= files@);
    assert(more@[n] == file);
    assert(more@[n].content is Ok);
    lemma_lines_of_more(files@, more@, n);
    lemma_significant_concat(file_lines(files@, n), lines_of(file.content->Ok_0@));
    if n == 0 {
        reveal(Seq::filter);
        assert(texts(list@).len() == list@.len());
    }
}

/// Whether the section of another architecture is open after these lines: one
/// was opened, and only plain lines followed.
pub open spec fn other_section_is_open(marks: Seq<LineMark>, arch: Seq<char>) -> bool {
    exists|k: int|
        {
            &&& 0 <= k < marks.len()
            &&& #[trigger] marks[k] matches LineMark::Open(tag)
            &&& tag != arch
            &&& forall|j: int| k < j < marks.len() ==> (#[trigger] marks[j]) is Plain
        }
}

proof fn lemma_open_section(marks: Seq<LineMark>, arch: Seq<char>)
    ensures
        is_skipping(marks, arch) <==> other_section_is_open(marks, arch),
    decreases marks.len(),
{
    if marks.len() > 0 {
        let (before, n) = (marks.drop_last(), marks.len() - 1);
        lemma_open_section(before, arch);
        assert(marks.last() == marks[n]);
        if marks[n] is Plain {
            if other_section_is_open(before, arch) {
                let k = choose|k: int|
                    {
                        &&& 0 <= k < before.len()
                        &&& #[trigger] before[k] matches LineMark::Open(tag)
                        &&& tag != arch
                        &&& forall|j: int| k < j < before.len() ==> (#[trigger] before[j]) is Plain
                    };
                assert(marks[k] == before[k]);
                assert forall|j: int| k < j < marks.len() implies (#[trigger] marks[j]) is Plain by {
                    if j < n {
                        assert(before[j] is Plain);
                    }
                }
            }
            if other_section_is_open(marks, arch) {
                let k = choose|k: int|
                    {
                        &&& 0 <= k < marks.len()
                        &&& #[trigger] marks[k] matches LineMark::Open(tag)
                        &&& tag != arch
                        &&& forall|j: int| k < j < marks.len() ==> (#[trigger] marks[j]) is Plain
                    };
                assert(before[k] == marks[k]);
                assert forall|j: int| k < j < before.len() implies (
                #[trigger] before[j]) is Plain by {
                    assert(marks[j] is Plain);
                }
            }
        } else {
            if let LineMark::Open(tag) = marks[n] {
                if tag != arch {
                    assert(other_section_is_open(marks, arch));
                }
            }
            if other_section_is_open(marks, arch) {
                let k = choose|k: int|
                    {
                        &&& 0 <= k < marks.len()
                        &&& #[trigger] marks[k] matches LineMark::Open(tag)
                        &&& tag != arch
                        &&& forall|j: int| k < j < marks.len() ==> (#[trigger] marks[j]) is Plain
                    };
                if k < n {
                    assert(marks[n] is Plain);
                }
            }
        }
    }
}

/// One more line is selected, after the others, where it is plain and the
/// section of no other architecture is open; else the lines selected are the
/// same.
pub proof fn law_lines_are_selected_one_by_one(
    list: Vec<String>,
    kinds: &Vec<LineKind>,
    longer: Vec<String>,
    more: &Vec<LineKind>,
    arch: &str,
    line: Seq<char>,
    kind: LineKind,
    res: Vec<String>,
    extended: Vec<String>,
)
    requires
        list@.len() == kinds@.len(),
        texts(longer@) == texts(list@).push(line),
        more@ == kinds@.push(kind),
        call_ensures(select_lines, (list, kinds, arch), res),
        call_ensures(select_lines, (longer, more, arch), extended),
    ensures
        list@.len() == 0 ==> res@.len() == 0,
        texts(extended@) == if kind is Plain && !other_section_is_open(
            kind_marks(kinds@),
            arch@,
        ) {
            texts(res@).push(line)
        } else {
            texts(res@)
        },
{
    let (marks, after) = (kind_marks(kinds@), kind_marks(more@));
    assert(texts(longer@).len() == longer@.len() && texts(list@).len() == list@.len());
    assert(after =~= marks.push(kind@));
    assert(after.drop_last() =~= marks);
    assert(texts(longer@).drop_last() =~= texts(list@));
    lemma_open_section(marks, arch@);
    assert(texts(res@).len() == res@.len());
}

/// A line without an opening or a closing angle bracket is plain.
proof fn lemma_no_bracket(line: Seq<char>)
    requires
        !line.contains('<') || !line.contains('>'),
        reads_plainly(line, line_mark(line)),
    ensures
        line_mark(line) is Plain,
{
    let (before, after) = law_blanks_were_trimmed(line);
    let tag = trimmed(line);
    if in_brackets(tag) {
        assert(line[before.len() as int] == tag[0]);
        assert(line[before.len() + tag.len() - 1] == tag[tag.len() - 1]);
        assert(line.contains('<') && line.contains('>'));
    }
}

/// Whether no line has both angle brackets.
pub open spec fn have_no_tags(list: Seq<Seq<char>>) -> bool {
    forall|i: int|
        0 <= i < list.len() ==> !(#[trigger] list[i]).contains('<') || !list[i].contains('>')
}

/// Lines between the tag of an architecture and a closing tag are selected for
/// that architecture and for no other; lines without tags around them are
/// selected for all.
#[verifier::spinoff_prover]
#[verifier::rlimit(50)]
pub proof fn law_sections_are_for_their_architecture(
    list: Vec<String>,
    arch: &str,
    res: Vec<String>,
    before: Seq<Seq<char>>,
    word: Seq<char>,
    open: (Seq<char>, Seq<char>, Seq<char>),
    body: Seq<Seq<char>>,
    other: Seq<char>,
    close: (Seq<char>, Seq<char>, Seq<char>),
    after: Seq<Seq<char>>,
)
    requires
        call_ensures(arch_filter, (list, arch), res),
        have_no_tags(before),
        have_no_tags(body),
        have_no_tags(after),
        is_word(word),
        is_word(other),
        is_blank(open.0) && is_blank(open.1) && is_blank(open.2),
        is_blank(close.0) && is_blank(close.1) && is_blank(close.2),
        texts(list@) == before || texts(list@) == before + (seq![
            tag_line(open.0, word, open.1, open.2),
        ] + (body + (seq![tag_line(close.0, seq!['/'] + other, close.1, close.2)] + after))),
    ensures
        texts(list@) == before ==> texts(res@) == before,
        texts(list@) != before ==> texts(res@) == if word == arch@ {
            before + (body + after)
        } else {
            before + after
        },
{
    let lines = texts(list@);
    assert forall|i: int| 0 <= i < lines.len() implies reads_plainly(
        #[trigger] lines[i],
        line_mark(lines[i]),
    ) by {
        assert(lines[i] == list@[i]@);
        assert(reads_plainly(list@[i]@, line_mark(list@[i]@)));
    }
    if lines == before {
        lemma_plain_marks(lines, lines, 0);
        assert(line_marks(before) =~= line_marks(lines));
        law_common_lines_hold_everywhere(lines, line_marks(lines), arch@);
    } else {
        let opening = tag_line(open.0, word, open.1, open.2);
        let closing = tag_line(close.0, seq!['/'] + other, close.1, close.2);
        law_tags_open_and_close(open.0, word, open.1, open.2);
        law_tags_open_and_close(close.0, other, close.1, close.2);
        let (n, m) = (before.len() as int, body.len() as int);
        assert(lines[n] == opening);
        assert(lines[n + 1 + m] == closing);
        lemma_plain_marks(lines, before, 0);
        lemma_plain_marks(lines, body, n + 1);
        lemma_plain_marks(lines, after, n + m + 2);
        assert(line_marks(lines) =~= with_section(
            line_marks(before),
            LineMark::Open(word),
            line_marks(body),
            LineMark::Close,
            line_marks(after),
        ));
        let (none, no_marks) = (Seq::<Seq<char>>::empty(), Seq::<LineMark>::empty());
        lemma_selected_concat(none, no_marks, before, line_marks(before), arch@);
        assert(no_marks + line_marks(before) =~= line_marks(before));
        lemma_skipping_concat(no_marks, line_marks(before), arch@);
        lemma_plain_lines(before, line_marks(before), arch@, false);
        law_sections_hold_for_their_architecture(
            (before, line_marks(before)),
            opening,
            word,
            (body, line_marks(body)),
            closing,
            (after, line_marks(after)),
            arch@,
        );
        let (inner, around) = (before + (body + after), before + after);
        lemma_plain_concat(body, after);
        lemma_plain_concat(before, body + after);
        lemma_plain_concat(before, after);
        law_common_lines_hold_everywhere(inner, line_marks(inner), arch@);
        law_common_lines_hold_everywhere(around, line_marks(around), arch@);
    }
}

proof fn lemma_plain_concat(a: Seq<Seq<char>>, b: Seq<Seq<char>>)
    requires
        all_plain(line_marks(a)),
        all_plain(line_marks(b)),
    ensures
        line_marks(a + b) == line_marks(a) + line_marks(b),
        all_plain(line_marks(a + b)),
{
    assert(line_marks(a + b) =~= line_marks(a) + line_marks(b));
    assert forall|i: int| 0 <= i < line_marks(a + b).len() implies (#[trigger] line_marks(
        a + b,
    )[i]) is Plain by {
        if i < a.len() {
            assert(line_marks(a)[i] is Plain);
        } else {
            assert(line_marks(b)[i - a.len()] is Plain);
        }
    }
}

proof fn lemma_plain_marks(lines: Seq<Seq<char>>, part: Seq<Seq<char>>, from: int)
    requires
        0 <= from,
        from + part.len() <= lines.len(),
        lines.subrange(from, from + part.len()) =~= part,
        have_no_tags(part),
        forall|i: int|
            0 <= i < lines.len() ==> reads_plainly(#[trigger] lines[i], line_mark(lines[i])),
    ensures
        all_plain(line_marks(part)),
{
    assert forall|i: int| 0 <= i < line_marks(part).len() implies (#[trigger] line_marks(
        part,
    )[i]) is Plain by {
        assert(lines.subrange(from, from + part.len())[i] == lines[from + i]);
        assert(reads_plainly(lines[from + i], line_mark(lines[from + i])));
        assert(!part[i].contains('<') || !part[i].contains('>'));
        lemma_no_bracket(part[i]);
    }
}

/// A configuration that is accepted holds the patterns of the lines of its
/// files that are selected for the architecture that the system answers with:
/// those that parting these lines gives, compiled, in order.
pub proof fn law_configuration_is_read_from_its_files<R: CommandRunner>(
    files: Vec<ConfigFile>,
    runner: &R,
    to_keep: Vec<Regex>,
    to_delete: Vec<Regex>,
) -> (arch: String)
    requires
        call_ensures(read_config::<R>, (files, runner), Ok((to_keep, to_delete))),
    ensures
        all_readable(files@),
        replied(runner, "arch", Seq::empty(), Ok(arch)),
        forall|
            list: Vec<String>,
            text: &str,
            chosen: Vec<String>,
            parts: (Vec<String>, Vec<String>),
        |
            text@ == arch@ && #[trigger] call_ensures(gather_lines, (files,), Ok(list))
                && #[trigger] call_ensures(arch_filter, (list, text), chosen)
                && #[trigger] call_ensures(part_patterns, (&chosen,), parts) ==> sources(to_keep@)
                == texts(parts.0@) && sources(to_delete@) == texts(parts.1@),
{
    let res = Ok::<(Vec<Regex>, Vec<Regex>), JanitorError>((to_keep, to_delete));
    let reply = choose|reply: Result<String, JanitorError>| #[trigger]
        replied(runner, "arch", Seq::empty(), reply) && is_config(files@, reply, res);
    let arch = reply->Ok_0;
    let lines = significant(file_lines(files@, files@.len() as int));
    let picked = selected(lines, line_marks(lines), arch@);
    law_accepted_patterns_are_all_in_use(picked, to_keep, to_delete);
    arch
}

/// Where no line of the files has a tag, each line that is not left out is
/// read: a line of `-` and a pattern as that pattern to delete, any other as a
/// pattern to keep. No pattern comes from anywhere else.
#[verifier::spinoff_prover]
#[verifier::rlimit(50)]
pub proof fn law_every_line_is_read<R: CommandRunner>(
    files: Vec<ConfigFile>,
    runner: &R,
    to_keep: Vec<Regex>,
    to_delete: Vec<Regex>,
    text: Seq<char>,
)
    requires
        call_ensures(read_config::<R>, (files, runner), Ok((to_keep, to_delete))),
        forall|f: int|
            0 <= f < files@.len() ==> have_no_tags(
                lines_of((#[trigger] files@[f]).content->Ok_0@),
            ),
    ensures
        sources(to_keep@).contains(text) <==> {
            &&& text.len() > 0 && text[0] != '#' && text[0] != '-'
            &&& exists|f: int|
                0 <= f < files@.len() && lines_of((#[trigger] files@[f]).content->Ok_0@).contains(
                    text,
                )
        },
        sources(to_delete@).contains(text) <==> exists|f: int|
            0 <= f < files@.len() && lines_of((#[trigger] files@[f]).content->Ok_0@).contains(
                seq!['-'] + text,
            ),
{
    let res = Ok::<(Vec<Regex>, Vec<Regex>), JanitorError>((to_keep, to_delete));
    let reply = choose|reply: Result<String, JanitorError>| #[trigger]
        replied(runner, "arch", Seq::empty(), reply) && is_config(files@, reply, res);
    let arch = reply->Ok_0;
    let all = file_lines(files@, files@.len() as int);
    let lines = significant(all);
    assert(have_no_tags(lines)) by {
        assert forall|i: int| 0 <= i < lines.len() implies !(#[trigger] lines[i]).contains('<')
            || !lines[i].contains('>') by {
            assert(lines.contains(lines[i]));
            lemma_filtered(all, |line: Seq<char>| is_significant(line), lines[i]);
            lemma_file_lines(files@, files@.len() as int, lines[i]);
            let f = choose|f: int|
                0 <= f < files@.len() && lines_of(
                    (#[trigger] files@[f]).content->Ok_0@,
                ).contains(lines[i]);
            let own = lines_of(files@[f].content->Ok_0@);
            let k = choose|k: int| 0 <= k < own.len() && own[k] == lines[i];
            assert(!own[k].contains('<') || !own[k].contains('>'));
        }
    }
    assert(lines.subrange(0, lines.len() as int) =~= lines);
    lemma_plain_marks(lines, lines, 0);
    law_common_lines_hold_everywhere(lines, line_marks(lines), arch@);
    law_accepted_patterns_are_all_in_use(lines, to_keep, to_delete);
    let dashed = seq!['-'] + text;
    assert(dashed[0] == '-' && dashed.drop_first() =~= text);
    lemma_filtered(lines, |line: Seq<char>| !is_deletion(line), text);
    lemma_filtered(lines, |line: Seq<char>| is_deletion(line), dashed);
    lemma_filtered(all, |line: Seq<char>| is_significant(line), text);
    lemma_filtered(all, |line: Seq<char>| is_significant(line), dashed);
    lemma_file_lines(files@, files@.len() as int, text);
    lemma_file_lines(files@, files@.len() as int, dashed);
    let deletions = lines.filter(|line: Seq<char>| is_deletion(line));
    let patterns = delete_patterns(lines);
    if patterns.contains(text) {
        let k = choose|k: int| 0 <= k < patterns.len() && patterns[k] == text;
        assert(deletions.contains(deletions[k]));
        lemma_filtered(lines, |line: Seq<char>| is_deletion(line), deletions[k]);
        assert(deletions[k] =~= dashed) by {
            assert(deletions[k].drop_first() == text);
            assert(deletions[k][0] == '-');
            assert(deletions[k] =~= seq![deletions[k][0]] + deletions[k].drop_first());
        }
    }
    if deletions.contains(dashed) {
        let k = choose|k: int| 0 <= k < deletions.len() && deletions[k] == dashed;
        assert(patterns[k] == text);
    }
}

proof fn lemma_filtered<A>(list: Seq<A>, pred: spec_fn(A) -> bool, item: A)
    ensures
        list.filter(pred).contains(item) <==> list.contains(item) && pred(item),
    decreases list.len(),
{
    reveal(Seq::filter);
    if list.len() > 0 {
        let shorter = list.drop_last();
        lemma_filtered(shorter, pred, item);
        let (before, after) = (shorter.filter(pred), list.filter(pred));
        if after.contains(item) {
            let k = choose|k: int| 0 <= k < after.len() && after[k] == item;
            if k < before.len() {
                assert(before[k] == item);
                assert(before.contains(item));
                let j = choose|j: int| 0 <= j < shorter.len() && shorter[j] == item;
                assert(list[j] == item);
            } else {
                assert(list[list.len() - 1] == item);
            }
        }
        if list.contains(item) && pred(item) {
            let j = choose|j: int| 0 <= j < list.len() && list[j] == item;
            if j < shorter.len() {
                assert(shorter[j] == item);
                assert(shorter.contains(item));
                let k = choose|k: int| 0 <= k < before.len() && before[k] == item;
                assert(after[k] == item);
            } else {
                assert(after[before.len() as int] == item);
            }
        }
    }
}

/// Every line of the files is a line of one of them.
proof fn lemma_line_is_in_file(files: Seq<ConfigFile>, n: int, line: Seq<char>) -> (f: int)
    requires
        0 <= n <= files.len(),
        file_lines(files, n).contains(line),
    ensures
        0 <= f < n,
        lines_of(files[f].content->Ok_0@).contains(line),
    decreases n,
{
    let whole = file_lines(files, n);
    let k = choose|k: int| 0 <= k < whole.len() && whole[k] == line;
    assert(n > 0);
    let (before, own) = (file_lines(files, n - 1), lines_of(files[n - 1].content->Ok_0@));
    if k < before.len() {
        assert(before[k] == line);
        lemma_line_is_in_file(files, n - 1, line)
    } else {
        assert(own[k - before.len()] == line);
        n - 1
    }
}

/// Every line of a file is a line of the files.
proof fn lemma_files_hold_line(files: Seq<ConfigFile>, n: int, f: int, line: Seq<char>)
    requires
        0 <= f < n <= files.len(),
        lines_of(files[f].content->Ok_0@).contains(line),
    ensures
        file_lines(files, n).contains(line),
    decreases n,
{
    let (before, own) = (file_lines(files, n - 1), lines_of(files[n - 1].content->Ok_0@));
    let whole = file_lines(files, n);
    if f == n - 1 {
        let k = choose|k: int| 0 <= k < own.len() && own[k] == line;
        assert(whole[before.len() + k] == line);
    } else {
        lemma_files_hold_line(files, n - 1, f, line);
        let k = choose|k: int| 0 <= k < before.len() && before[k] == line;
        assert(whole[k] == line);
    }
}

/// The lines of the files are those of each of them.
proof fn lemma_file_lines(files: Seq<ConfigFile>, n: int, line: Seq<char>)
    requires
        0 <= n <= files.len(),
    ensures
        file_lines(files, n).contains(line) <==> exists|f: int|
            0 <= f < n && lines_of((#[trigger] files[f]).content->Ok_0@).contains(line),
{
    if file_lines(files, n).contains(line) {
        let f = lemma_line_is_in_file(files, n, line);
        assert(lines_of(files[f].content->Ok_0@).contains(line));
    }
    if exists|f: int| 0 <= f < n && lines_of((#[trigger] files[f]).content->Ok_0@).contains(line) {
        let f = choose|f: int|
            0 <= f < n && lines_of((#[trigger] files[f]).content->Ok_0@).contains(line);
        lemma_files_hold_line(files, n, f, line);
    }
}

/// Among lines of ASCII, only a word in angle brackets opens a section, that of
/// the word, and only one with a slash before it closes one.
pub proof fn law_other_lines_are_plain(
    list: Vec<String>,
    arch: &str,
    res: Vec<String>,
    i: int,
) -> (tag: (Seq<char>, Seq<char>, Seq<char>, Seq<char>))
    requires
        call_ensures(arch_filter, (list, arch), res),
        0 <= i < list@.len(),
        forall|k: int| 0 <= k < list@[i]@.len() ==> #[trigger] list@[i]@[k] <= '\u{7f}',
    ensures
        texts(res@) == selected(texts(list@), line_marks(texts(list@)), arch@),
        line_marks(texts(list@))[i] matches LineMark::Open(word) ==> is_word(word) && list@[i]@
            == tag_line(tag.0, word, tag.2, tag.3),
        line_marks(texts(list@))[i] is Close ==> is_word(tag.1) && list@[i]@ == tag_line(
            tag.0,
            seq!['/'] + tag.1,
            tag.2,
            tag.3,
        ),
        is_blank(tag.0) && is_blank(tag.2) && is_blank(tag.3),
{
    let line = list@[i]@;
    assert(texts(list@)[i] == line);
    assert(reads_plainly(line, line_mark(line)));
    assert(is_plain_ascii(line));
    law_sections_open_and_close_with_tags(line)
}

/// The configuration is read where all its files can be; else the error names
/// the first that cannot, and why.
pub proof fn law_unreadable_files_are_named(
    files: Vec<ConfigFile>,
    res: Result<Vec<String>, JanitorError>,
) -> (i: int)
    requires
        call_ensures(gather_lines, (files,), res),
    ensures
        res is Ok <==> forall|j: int|
            0 <= j < files@.len() ==> (#[trigger] files@[j]).content is Ok,
        res matches Err(e) ==> {
            &&& 0 <= i < files@.len()
            &&& forall|j: int| 0 <= j < i ==> (#[trigger] files@[j]).content is Ok
            &&& e matches JanitorError::ConfigRead(path, cause)
            &&& path@ == files@[i].path@
            &&& files@[i].content == Err::<String, std::io::Error>(cause)
        },
{
    match res {
        Ok(_) => 0,
        Err(e) => {
            let i = choose|i: int|
                {
                    &&& 0 <= i < files@.len()
                    &&& (#[trigger] files@[i]).content is Err
                    &&& forall|j: int| 0 <= j < i ==> (#[trigger] files@[j]).content is Ok
                    &&& e matches JanitorError::ConfigRead(path, cause)
                    &&& path@ == files@[i].path@
                    &&& cause == files@[i].content->Err_0
                };
            assert(files@[i].content is Err);
            i
        },
    }
}

/// Lines that are not accepted have a pattern that is not: the first one, where
/// the patterns to keep come before those to delete. The error is the one that
/// compiling it gave, and no pattern before it breaks the syntax.
pub proof fn law_first_bad_pattern_is_reported(
    list: &Vec<String>,
    parts: (Vec<String>, Vec<String>),
    e: JanitorError,
) -> (k: int)
    requires
        call_ensures(part_patterns, (list,), parts),
        call_ensures(compile_lines, (list,), Err(e)),
    ensures
        0 <= k < parts.0@.len() + parts.1@.len(),
        ({
            let patterns = texts(parts.0@) + texts(parts.1@);
            &&& forall|j: int| 0 <= j < k ==> pattern_fault(#[trigger] patterns[j]) is None
            &&& match e {
                JanitorError::Regex(PatternError::Syntax(message)) => pattern_fault(patterns[k])
                    == Some(message@),
                JanitorError::Regex(PatternError::CompiledTooBig(_)) => pattern_fault(
                    patterns[k],
                ) is None,
                _ => false,
            }
        }),
{
    let lines = texts(list@);
    let res = Err::<(Vec<Regex>, Vec<Regex>), JanitorError>(e);
    let (keep, delete) = choose|keep: Seq<Compiled>, delete: Seq<Compiled>|
        {
            &&& are_outcomes(keep_patterns(lines), keep)
            &&& are_outcomes(delete_patterns(lines), delete)
            &&& #[trigger] is_parted(keep, delete, res)
        };
    let all = keep + delete;
    let patterns = texts(parts.0@) + texts(parts.1@);
    let k = choose|k: int|
        {
            &&& 0 <= k < all.len()
            &&& (#[trigger] all[k]) is Err
            &&& forall|j: int| 0 <= j < k ==> (#[trigger] all[j]) is Ok
            &&& e == JanitorError::Regex(all[k]->Err_0)
        };
    assert forall|j: int| 0 <= j < all.len() implies is_outcome(
        #[trigger] patterns[j],
        all[j],
    ) by {
        if j < keep.len() {
            assert(compiled_to(keep_patterns(lines)[j], keep[j]));
        } else {
            assert(compiled_to(delete_patterns(lines)[j - keep.len()], delete[j - keep.len()]));
        }
        lemma_compiled_to(patterns[j], all[j]);
    }
    assert(is_outcome(patterns[k], all[k]));
    assert forall|j: int| 0 <= j < k implies pattern_fault(#[trigger] patterns[j]) is None by {
        assert(all[j] is Ok);
        assert(is_outcome(patterns[j], all[j]));
    }
    k
}

} // verus!
