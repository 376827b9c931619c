//! Weaving a statement into the program, and digesting what the compiler
//! says when the program does not build.
//!
//! A program is a sequence of lines. One of them carries a marker comment:
//! the insertion point, before which the statements of the body enter one
//! after the other. A statement that is a preprocessor directive goes to the
//! top of the file instead. Lines that call the output function are dropped
//! on the way, so that each round prints only what its own statement prints.
//!
//! The compiler reports an error as a head line, which holds the error
//! marker and the message, and two lines that quote the source behind a
//! gutter. `format_error` reduces the report to these three texts per error,
//! each error once.
use crate::text::{
    chars_of, contains, find_from, first_occurrence, has_substring, lines_of, split_lines,
};
use vstd::prelude::*;
use vstd::string::StrSliceExecFns;

verus! {

/// A statement that holds a macro definition goes to the top of the file.
pub open spec fn define_directive() -> Seq<char> {
    "#define"@
}

/// A statement that pulls in a header goes to the top of the file.
pub open spec fn header_directive() -> Seq<char> {
    "#include"@
}

/// A line that calls the output function printed something in an earlier
/// round.
pub open spec fn output_call() -> Seq<char> {
    "printf"@
}

/// The comment that marks where statements enter the body of the program.
pub open spec fn insertion_marker() -> Seq<char> {
    "// write here"@
}

/// The statement belongs at file scope, not in the body.
pub open spec fn is_declaration(statement: Seq<char>) -> bool {
    has_substring(statement, define_directive()) || has_substring(statement, header_directive())
}

/// The line printed something in an earlier round.
pub open spec fn is_output(line: Seq<char>) -> bool {
    has_substring(line, output_call())
}

/// New statements enter right before this line.
pub open spec fn is_insertion_point(line: Seq<char>) -> bool {
    has_substring(line, insertion_marker())
}

/// Some line that stays for the next round is an insertion point.
pub open spec fn has_insertion_point(lines: Seq<Seq<char>>) -> bool {
    exists|at: int|
        0 <= at < lines.len() && is_insertion_point(#[trigger] lines[at]) && !is_output(lines[at])
}

/// The lines that stay from one round to the next: all but those that
/// printed something.
pub open spec fn kept(lines: Seq<Seq<char>>) -> Seq<Seq<char>> {
    lines.filter(|line: Seq<char>| !is_output(line))
}

/// `lines` with `statement` put in front of every insertion point.
pub open spec fn woven(lines: Seq<Seq<char>>, statement: Seq<char>) -> Seq<Seq<char>> {
    lines.flat_map(
        |line: Seq<char>|
            if is_insertion_point(line) {
                seq![statement, line]
            } else {
                seq![line]
            },
    )
}

/// The program that follows from `lines` once `statement` has been taken
/// in. Lines that printed something are dropped. A declaration becomes the
/// first line and the insertion points are left alone; any other statement
/// enters before each insertion point, which stays for the next round.
pub open spec fn accumulate(lines: Seq<Seq<char>>, statement: Seq<char>) -> Seq<Seq<char>> {
    if is_declaration(statement) {
        seq![statement] + kept(lines)
    } else {
        woven(kept(lines), statement)
    }
}

/// One more line at the end of the program adds what that line gives: the
/// line itself, with the statement before it where the line is an
/// insertion point.
pub proof fn lemma_woven_push(lines: Seq<Seq<char>>, line: Seq<char>, statement: Seq<char>)
    ensures
        woven(lines.push(line), statement) == woven(lines, statement) + if is_insertion_point(line) {
            seq![statement, line]
        } else {
            seq![line]
        },
{
    let each = |line: Seq<char>|
        if is_insertion_point(line) {
            seq![statement, line]
        } else {
            seq![line]
        };
    lines.lemma_push_map_commute(each, line);
    lines.map_values(each).lemma_flatten_push(each(line));
}

/// Tells whether `command` belongs at file scope.
pub fn declares(command: &str) -> (declaration: bool)
    ensures
        declaration == is_declaration(command@),
{
    let statement = chars_of(command);
    contains(&statement, &chars_of("#define")) || contains(&statement, &chars_of("#include"))
}

/// Tells whether `lines` has a place for a statement of the body.
pub fn insertion_available(lines: &Vec<&str>) -> (available: bool)
    ensures
        available == has_insertion_point(lines.deep_view()),
{
    let output = chars_of("printf");
    let marker = chars_of("// write here");
    let mut at: usize = 0;
    while at < lines.len()
        invariant
            at <= lines.len(),
            output@ == output_call(),
            marker@ == insertion_marker(),
            forall|j: int|
                0 <= j < at ==> !(is_insertion_point(#[trigger] lines.deep_view()[j]) && !is_output(
                    lines.deep_view()[j],
                )),
        decreases lines.len() - at,
    {
        let chars = chars_of(lines[at]);
        assert(lines.deep_view()[at as int] == chars@);
        if contains(&chars, &marker) && !contains(&chars, &output) {
            return true;
        }
        at += 1;
    }
    false
}

/// Takes `command` into the program `file_lines` and gives the new program.
///
/// Lines that call the output function are left out. A command that holds
/// a preprocessor directive becomes the first line, and nothing enters at
/// the insertion points. Any other command enters before every line that
/// holds the marker comment; where no line holds it, the command does not
/// enter at all.
pub fn add_command<'a>(file_lines: Vec<&'a str>, command: &'a String) -> (res: Vec<&'a str>)
    ensures
        res.deep_view() == accumulate(file_lines.deep_view(), command@),
        is_declaration(command@) ==> res.deep_view() == seq![command@] + kept(
            file_lines.deep_view(),
        ),
        !is_declaration(command@) ==> res.deep_view() == woven(
            kept(file_lines.deep_view()),
            command@,
        ),
{
    let output = chars_of("printf");
    let marker = chars_of("// write here");
    let mut res: Vec<&'a str> = Vec::new();
    let mut preprocessor = false;

    if declares(command.as_str()) {
        res.push(command.as_str());
        preprocessor = true;
    }
    let ghost lines = file_lines.deep_view();
    assert(res.deep_view() =~= if preprocessor {
        seq![command@]
    } else {
        Seq::empty()
    });

    let mut i: usize = 0;
    while i < file_lines.len()
        invariant
            i <= file_lines.len(),
            lines == file_lines.deep_view(),
            output@ == output_call(),
            marker@ == insertion_marker(),
            preprocessor == is_declaration(command@),
            preprocessor ==> res.deep_view() == seq![command@] + kept(lines.take(i as int)),
            !preprocessor ==> res.deep_view() == woven(kept(lines.take(i as int)), command@),
        decreases file_lines.len() - i,
    {
        let line: &'a str = file_lines[i];
        let chars = chars_of(line);
        let ghost before = res.deep_view();
        proof {
            assert(lines.take(i + 1) =~= lines.take(i as int).push(line@));
            lines.take(i as int).lemma_filter_push(line@, |line: Seq<char>| !is_output(line));
        }
        if !contains(&chars, &output) {
            let enters = contains(&chars, &marker) && !preprocessor;
            if enters {
                res.push(command.as_str());
            }
            res.push(line);
            proof {
                lemma_woven_push(kept(lines.take(i as int)), line@, command@);
                if !enters {
                    assert(res.deep_view() =~= before + seq![line@]);
                }
            }
        }
        i += 1;
    }
    assert(lines.take(i as int) =~= lines);
    res
}

/// A declaration becomes the first line of the new program, and the rest of
/// the new program is the old one without the lines that printed something:
/// the declaration enters at no insertion point.
pub proof fn lemma_declaration_goes_first(lines: Seq<Seq<char>>, statement: Seq<char>)
    requires
        is_declaration(statement),
    ensures
        accumulate(lines, statement).len() == kept(lines).len() + 1,
        accumulate(lines, statement)[0] == statement,
        accumulate(lines, statement).skip(1) == kept(lines),
{
}

/// Where no line printed anything, all lines stay.
pub proof fn lemma_kept_all(lines: Seq<Seq<char>>)
    requires
        forall|i: int| 0 <= i < lines.len() ==> !is_output(#[trigger] lines[i]),
    ensures
        kept(lines) == lines,
    decreases lines.len(),
{
    if lines.len() > 0 {
        lemma_kept_all(lines.drop_last());
        assert(lines =~= lines.drop_last().push(lines.last()));
        lines.drop_last().lemma_filter_push(lines.last(), |line: Seq<char>| !is_output(line));
    }
}

/// Where the program has no insertion point, weaving changes nothing.
pub proof fn lemma_woven_without_insertion_point(lines: Seq<Seq<char>>, statement: Seq<char>)
    requires
        forall|i: int| 0 <= i < lines.len() ==> !is_insertion_point(#[trigger] lines[i]),
    ensures
        woven(lines, statement) == lines,
    decreases lines.len(),
{
    if lines.len() > 0 {
        lemma_woven_without_insertion_point(lines.drop_last(), statement);
        assert(lines =~= lines.drop_last().push(lines.last()));
        lemma_woven_push(lines.drop_last(), lines.last(), statement);
    }
}

/// Where the line at `at` is the only insertion point, weaving puts the
/// statement at `at` and moves that line and all after it one place on.
pub proof fn lemma_woven_at_single_insertion_point(
    lines: Seq<Seq<char>>,
    statement: Seq<char>,
    at: int,
)
    requires
        0 <= at < lines.len(),
        forall|i: int| 0 <= i < lines.len() ==> (is_insertion_point(#[trigger] lines[i]) <==> i == at),
    ensures
        woven(lines, statement) == lines.insert(at, statement),
    decreases lines.len(),
{
    let front = lines.drop_last();
    assert(lines =~= front.push(lines.last()));
    lemma_woven_push(front, lines.last(), statement);
    if at == lines.len() - 1 {
        lemma_woven_without_insertion_point(front, statement);
    } else {
        lemma_woven_at_single_insertion_point(front, statement, at);
    }
}

/// A statement for the body, taken into a program with one insertion point
/// and no line that printed something, becomes one new line right before
/// the insertion point. Nothing else changes.
pub proof fn lemma_statement_enters_at_insertion_point(
    lines: Seq<Seq<char>>,
    statement: Seq<char>,
    at: int,
)
    requires
        !is_declaration(statement),
        0 <= at < lines.len(),
        forall|i: int| 0 <= i < lines.len() ==> (is_insertion_point(#[trigger] lines[i]) <==> i == at),
        forall|i: int| 0 <= i < lines.len() ==> !is_output(#[trigger] lines[i]),
    ensures
        accumulate(lines, statement) == lines.insert(at, statement),
{
    lemma_kept_all(lines);
    lemma_woven_at_single_insertion_point(lines, statement, at);
}

/// The empty statement is a statement for the body. Taken into a program
/// with one insertion point and no line that printed something, it makes
/// the program one line longer: a blank line stands where the insertion
/// point was, the insertion point stands one line further down, and
/// without the blank line the program is what it was.
pub proof fn lemma_empty_statement_adds_a_blank_line(lines: Seq<Seq<char>>, at: int)
    requires
        0 <= at < lines.len(),
        forall|i: int| 0 <= i < lines.len() ==> (is_insertion_point(#[trigger] lines[i]) <==> i == at),
        forall|i: int| 0 <= i < lines.len() ==> !is_output(#[trigger] lines[i]),
    ensures
        !is_declaration(Seq::empty()),
        accumulate(lines, Seq::empty()).len() == lines.len() + 1,
        accumulate(lines, Seq::empty())[at] == Seq::<char>::empty(),
        accumulate(lines, Seq::empty())[at + 1] == lines[at],
        accumulate(lines, Seq::empty()).remove(at) == lines,
{
    reveal_strlit("#define");
    reveal_strlit("#include");
    lemma_statement_enters_at_insertion_point(lines, Seq::empty(), at);
}

/// Every line of the program is still there after weaving.
pub proof fn lemma_woven_holds_every_line(lines: Seq<Seq<char>>, statement: Seq<char>, at: int)
    requires
        0 <= at < lines.len(),
    ensures
        woven(lines, statement).contains(lines[at]),
    decreases lines.len(),
{
    let front = lines.drop_last();
    assert(lines =~= front.push(lines.last()));
    lemma_woven_push(front, lines.last(), statement);
    let before = woven(front, statement);
    if at == lines.len() - 1 {
        let piece = if is_insertion_point(lines.last()) {
            seq![statement, lines.last()]
        } else {
            seq![lines.last()]
        };
        let place = before.len() + piece.len() - 1;
        assert((before + piece)[place] == lines[at]);
    } else {
        lemma_woven_holds_every_line(front, statement, at);
        let place = choose|place: int| 0 <= place < before.len() && before[place] == front[at];
        assert(woven(lines, statement)[place] == lines[at]);
    }
}

/// A line that did not print anything is still in the program after a
/// statement has been taken in.
pub proof fn lemma_accumulate_holds_kept_line(
    lines: Seq<Seq<char>>,
    statement: Seq<char>,
    at: int,
)
    requires
        0 <= at < lines.len(),
        !is_output(lines[at]),
    ensures
        accumulate(lines, statement).contains(lines[at]),
{
    let line = lines[at];
    let stay = kept(lines);
    lines.lemma_filter_contains(|line: Seq<char>| !is_output(line), at);
    let k = choose|k: int| 0 <= k < stay.len() && stay[k] == line;
    if is_declaration(statement) {
        assert(accumulate(lines, statement)[k + 1] == line);
    } else {
        lemma_woven_holds_every_line(stay, statement, k);
    }
}

/// A program that has an insertion point still has one after a statement
/// has been taken in, whatever the statement.
pub proof fn lemma_insertion_point_stays(lines: Seq<Seq<char>>, statement: Seq<char>)
    requires
        has_insertion_point(lines),
    ensures
        has_insertion_point(accumulate(lines, statement)),
{
    let at = choose|at: int|
        0 <= at < lines.len() && is_insertion_point(#[trigger] lines[at]) && !is_output(lines[at]);
    lemma_accumulate_holds_kept_line(lines, statement, at);
}

/// The outcome of building and running the program.
pub enum CommandExecuteResult {
    /// The program built; this is what it printed.
    Success(String),
    /// The program did not build; this is what the compiler said.
    Fail(String),
}

/// The words with which the compiler opens an error.
pub open spec fn error_marker() -> Seq<char> {
    "error: "@
}

/// The end of the gutter that the compiler draws before quoted source.
pub open spec fn column_marker() -> Seq<char> {
    "| "@
}

/// Where `needle` first stands in `haystack` once a leading span as long as
/// `needle` itself has been passed over. The span keeps a marker from
/// being found in the very first characters of a line, where the compiler
/// writes the name of the file.
pub open spec fn marker_position(haystack: Seq<char>, needle: Seq<char>) -> Option<int> {
    first_occurrence(haystack, needle, needle.len() as int)
}

/// What follows the marker in `line`, up to the end of the line.
pub open spec fn after_marker(line: Seq<char>, marker: Seq<char>) -> Seq<char>
    recommends
        marker_position(line, marker) is Some,
{
    line.skip(marker_position(line, marker)->0 + marker.len())
}

/// The line opens an error.
pub open spec fn is_head(line: Seq<char>) -> bool {
    has_substring(line, error_marker())
}

/// The head at `at` has the shape the compiler gives an error: the message
/// behind the error marker, then two lines of quoted source, each behind
/// a column marker.
pub open spec fn has_shape(lines: Seq<Seq<char>>, at: int) -> bool {
    &&& at + 2 < lines.len()
    &&& marker_position(lines[at], error_marker()) is Some
    &&& marker_position(lines[at + 1], column_marker()) is Some
    &&& marker_position(lines[at + 2], column_marker()) is Some
}

/// Every error in the diagnostics has the shape the compiler gives it.
pub open spec fn well_formed(diagnostics: Seq<char>) -> bool {
    let lines = lines_of(diagnostics);
    forall|at: int| 0 <= at < lines.len() && is_head(#[trigger] lines[at]) ==> has_shape(lines, at)
}

/// The error that opens at line `at`: its message and its two lines of
/// quoted source.
pub open spec fn group_at(lines: Seq<Seq<char>>, at: int) -> Seq<Seq<char>> {
    seq![
        after_marker(lines[at], error_marker()),
        after_marker(lines[at + 1], column_marker()),
        after_marker(lines[at + 2], column_marker()),
    ]
}

/// The errors that open in the first `upto` lines, in the order of their heads.
pub open spec fn groups_upto(lines: Seq<Seq<char>>, upto: int) -> Seq<Seq<Seq<char>>> {
    Seq::new(upto as nat, |at: int| at).filter(|at: int| is_head(lines[at])).map_values(
        |at: int| group_at(lines, at),
    )
}

/// All errors in the diagnostics, in the order of their heads.
pub open spec fn groups(diagnostics: Seq<char>) -> Seq<Seq<Seq<char>>> {
    groups_upto(lines_of(diagnostics), lines_of(diagnostics).len() as int)
}

/// `items` without repetitions: of equal items the first stays.
pub open spec fn distinct<A>(items: Seq<A>) -> Seq<A>
    decreases items.len(),
{
    if items.len() == 0 {
        items
    } else {
        let before = distinct(items.drop_last());
        if before.contains(items.last()) {
            before
        } else {
            before.push(items.last())
        }
    }
}

/// `distinct` holds nothing twice, holds exactly what `items` holds, and
/// is as long as `items` has different items.
pub proof fn lemma_distinct_is_a_set<A>(items: Seq<A>)
    ensures
        distinct(items).no_duplicates(),
        distinct(items).to_set() == items.to_set(),
        distinct(items).len() == items.to_set().len(),
    decreases items.len(),
{
    if items.len() > 0 {
        let before = distinct(items.drop_last());
        lemma_distinct_is_a_set(items.drop_last());
        assert(items =~= items.drop_last().push(items.last()));
        items.drop_last().lemma_push_to_set_commute(items.last());
        if !before.contains(items.last()) {
            before.lemma_push_to_set_commute(items.last());
        }
    }
    distinct(items).unique_seq_to_set();
}

/// Of items that are all the same, one stays.
pub proof fn lemma_all_same_are_one<A>(items: Seq<A>)
    requires
        items.len() > 0,
        forall|i: int| 0 <= i < items.len() ==> #[trigger] items[i] == items[0],
    ensures
        distinct(items) == seq![items[0]],
    decreases items.len(),
{
    if items.len() == 1 {
        assert(distinct(items.drop_last()) =~= Seq::empty());
    } else {
        lemma_all_same_are_one(items.drop_last());
        assert(seq![items[0]][0] == items.last());
    }
}

/// Where all errors in the diagnostics are the same, one is reported.
pub proof fn lemma_identical_errors_are_one(diagnostics: Seq<char>)
    requires
        groups(diagnostics).len() > 0,
        forall|i: int|
            0 <= i < groups(diagnostics).len() ==> #[trigger] groups(diagnostics)[i] == groups(
                diagnostics,
            )[0],
    ensures
        distinct(groups(diagnostics)) == seq![groups(diagnostics)[0]],
{
    lemma_all_same_are_one(groups(diagnostics));
}

/// Adding one more line to the lines looked at adds its error, if it opens one.
pub proof fn lemma_groups_upto_next(lines: Seq<Seq<char>>, upto: int)
    requires
        0 <= upto,
    ensures
        groups_upto(lines, upto + 1) == if is_head(lines[upto]) {
            groups_upto(lines, upto).push(group_at(lines, upto))
        } else {
            groups_upto(lines, upto)
        },
{
    let positions = Seq::new(upto as nat, |at: int| at);
    let heads = |at: int| is_head(lines[at]);
    let group = |at: int| group_at(lines, at);
    assert(Seq::new((upto + 1) as nat, |at: int| at) =~= positions.push(upto));
    positions.lemma_filter_push(upto, heads);
    if is_head(lines[upto]) {
        positions.filter(heads).lemma_push_map_commute(group, upto);
    }
}

/// Finds `needle` in `haystack` once a leading span as long as `needle`
/// itself has been passed over, and gives the position of the leftmost
/// such occurrence. Positions count characters.
pub fn find_substring_index(haystack: &str, needle: &str) -> (index: Option<usize>)
    ensures
        match index {
            Some(at) => marker_position(haystack@, needle@) == Some(at as int),
            None => marker_position(haystack@, needle@) is None,
        },
{
    let hay = chars_of(haystack);
    let pin = chars_of(needle);
    find_from(&hay, &pin, pin.len())
}

/// What follows `marker` in `line`, where the line holds the marker past a
/// leading span of the marker's length.
pub fn strip_marker<'a>(line: &'a str, marker: &str) -> (rest: Option<&'a str>)
    ensures
        match rest {
            Some(tail) => marker_position(line@, marker@) is Some && tail@ == after_marker(
                line@,
                marker@,
            ),
            None => marker_position(line@, marker@) is None,
        },
{
    match find_substring_index(line, marker) {
        Some(at) => {
            let width: usize = marker.unicode_len();
            let end: usize = line.unicode_len();
            Some(line.substring_char(at + width, end))
        },
        None => None,
    }
}

/// Tells whether two groups hold the same texts in the same order.
fn same_group(left: &Vec<String>, right: &Vec<String>) -> (same: bool)
    ensures
        same == (left.deep_view() == right.deep_view()),
{
    if left.len() != right.len() {
        assert(left.deep_view().len() != right.deep_view().len());
        return false;
    }
    let mut i: usize = 0;
    while i < left.len()
        invariant
            i <= left.len(),
            left.len() == right.len(),
            forall|j: int| 0 <= j < i ==> left@[j]@ == right@[j]@,
        decreases left.len() - i,
    {
        if left[i] != right[i] {
            assert(left.deep_view()[i as int] != right.deep_view()[i as int]);
            return false;
        }
        i += 1;
    }
    assert(left.deep_view() =~= right.deep_view());
    true
}

/// Tells whether `group` is already among `known`.
fn is_known(known: &Vec<Vec<String>>, group: &Vec<String>) -> (found: bool)
    ensures
        found == known.deep_view().contains(group.deep_view()),
{
    let mut i: usize = 0;
    while i < known.len()
        invariant
            i <= known.len(),
            forall|j: int| 0 <= j < i ==> known.deep_view()[j] != group.deep_view(),
        decreases known.len() - i,
    {
        if same_group(&known[i], group) {
            assert(known.deep_view()[i as int] == group.deep_view());
            return true;
        }
        i += 1;
    }
    false
}

/// Tells whether every error in the diagnostics has the shape that
/// `format_error` relies on.
pub fn is_well_formed(error_msg: &str) -> (ok: bool)
    ensures
        ok == well_formed(error_msg@),
{
    let splitted = split_lines(error_msg);
    let needle = chars_of("error: ");
    let ghost lines = lines_of(error_msg@);
    let mut idx: usize = 0;
    while idx < splitted.len()
        invariant
            idx <= splitted.len(),
            lines == lines_of(error_msg@),
            lines == splitted.deep_view(),
            needle@ == error_marker(),
            forall|at: int| 0 <= at < idx && is_head(#[trigger] lines[at]) ==> has_shape(lines, at),
        decreases splitted.len() - idx,
    {
        let chars = chars_of(splitted[idx]);
        assert(lines[idx as int] == splitted@[idx as int]@);
        if contains(&chars, &needle) {
            if splitted.len() - idx <= 2 {
                return false;
            }
            let shaped = find_substring_index(splitted[idx], "error: ").is_some()
                && find_substring_index(splitted[idx + 1], "| ").is_some()
                && find_substring_index(splitted[idx + 2], "| ").is_some();
            if !shaped {
                return false;
            }
        }
        idx += 1;
    }
    true
}

/// Digests what the compiler said into its errors: for each, the message
/// and the two lines of quoted source. Every error is reported once, in
/// the order in which the errors first appear.
///
/// The diagnostics have to be well formed; `is_well_formed` tells.
pub fn format_error(error_msg: String) -> (formatted: Vec<Vec<String>>)
    requires
        well_formed(error_msg@),
    ensures
        formatted.deep_view() == distinct(groups(error_msg@)),
        formatted.deep_view().no_duplicates(),
        formatted.deep_view().to_set() == groups(error_msg@).to_set(),
        formatted.len() == groups(error_msg@).to_set().len(),
        forall|i: int| 0 <= i < formatted.len() ==> (#[trigger] formatted[i]).len() == 3,
{
    let splitted = split_lines(error_msg.as_str());
    let needle = chars_of("error: ");
    let mut formatted: Vec<Vec<String>> = Vec::new();
    let ghost lines = lines_of(error_msg@);
    let mut idx: usize = 0;
    while idx < splitted.len()
        invariant
            idx <= splitted.len(),
            lines == lines_of(error_msg@),
            lines == splitted.deep_view(),
            well_formed(error_msg@),
            needle@ == error_marker(),
            formatted.deep_view() == distinct(groups_upto(lines, idx as int)),
            forall|i: int| 0 <= i < formatted.len() ==> (#[trigger] formatted[i]).len() == 3,
        decreases splitted.len() - idx,
    {
        let chars = chars_of(splitted[idx]);
        proof {
            lemma_groups_upto_next(lines, idx as int);
            if is_head(lines[idx as int]) {
                assert(groups_upto(lines, idx + 1).drop_last() =~= groups_upto(lines, idx as int));
            }
        }
        if contains(&chars, &needle) {
            let message = strip_marker(splitted[idx], "error: ").unwrap();
            let first = strip_marker(splitted[idx + 1], "| ").unwrap();
            let second = strip_marker(splitted[idx + 2], "| ").unwrap();
            let mut msg_vector: Vec<String> = Vec::new();
            msg_vector.push(message.to_owned());
            msg_vector.push(first.to_owned());
            msg_vector.push(second.to_owned());
            assert(msg_vector.deep_view() =~= group_at(lines, idx as int));
            if !is_known(&formatted, &msg_vector) {
                formatted.push(msg_vector);
            }
        }
        idx += 1;
    }
    proof {
        lemma_distinct_is_a_set(groups(error_msg@));
    }
    formatted
}

} // verus!
