//! Text as sequences of characters: where one text occurs inside another,
//! how a text falls into lines, and how lines make up a text again.
use vstd::prelude::*;
use vstd::std_specs::iter::IteratorSpec;
use vstd::string::StrSliceExecFns;
use vstd::string::StringExecFns;

verus! {

/// `needle` stands in `hay` at position `at`, counted in characters.
pub open spec fn occurs_at(hay: Seq<char>, needle: Seq<char>, at: int) -> bool {
    &&& 0 <= at
    &&& at + needle.len() <= hay.len()
    &&& hay.subrange(at, at + needle.len()) == needle
}

/// `needle` stands somewhere in `hay`.
pub open spec fn has_substring(hay: Seq<char>, needle: Seq<char>) -> bool {
    exists|at: int| occurs_at(hay, needle, at)
}

/// `at` is the leftmost position not before `from` at which `needle` stands in `hay`.
pub open spec fn is_first_occurrence(hay: Seq<char>, needle: Seq<char>, from: int, at: int) -> bool {
    &&& from <= at
    &&& occurs_at(hay, needle, at)
    &&& forall|earlier: int| from <= earlier < at ==> !occurs_at(hay, needle, earlier)
}

/// The leftmost position not before `from` at which `needle` stands in `hay`,
/// if there is one.
pub open spec fn first_occurrence(hay: Seq<char>, needle: Seq<char>, from: int) -> Option<int> {
    if exists|at: int| is_first_occurrence(hay, needle, from, at) {
        Some(choose|at: int| is_first_occurrence(hay, needle, from, at))
    } else {
        None
    }
}

/// A leftmost occurrence is the one that `first_occurrence` names.
pub proof fn lemma_first_occurrence_unique(hay: Seq<char>, needle: Seq<char>, from: int, at: int)
    requires
        is_first_occurrence(hay, needle, from, at),
    ensures
        first_occurrence(hay, needle, from) == Some(at),
{
}

/// Where `needle` stands at or after `from`, it has a leftmost such position.
pub proof fn lemma_occurrence_has_first(hay: Seq<char>, needle: Seq<char>, from: int, at: int)
    requires
        from <= at,
        occurs_at(hay, needle, at),
    ensures
        first_occurrence(hay, needle, from) is Some,
        from <= first_occurrence(hay, needle, from)->0 <= at,
    decreases at - from,
{
    if exists|earlier: int| from <= earlier < at && occurs_at(hay, needle, earlier) {
        let earlier = choose|earlier: int| from <= earlier < at && occurs_at(hay, needle, earlier);
        lemma_occurrence_has_first(hay, needle, from, earlier);
    } else {
        lemma_first_occurrence_unique(hay, needle, from, at);
    }
}

/// Where `needle` stands nowhere from `from` on, there is no first occurrence.
pub proof fn lemma_first_occurrence_none(hay: Seq<char>, needle: Seq<char>, from: int)
    requires
        forall|at: int| from <= at ==> !occurs_at(hay, needle, at),
    ensures
        first_occurrence(hay, needle, from) is None,
{
}

/// `at` is the position of the first line break in `text`.
pub open spec fn is_first_break(text: Seq<char>, at: int) -> bool {
    &&& 0 <= at < text.len()
    &&& text[at] == '\n'
    &&& forall|earlier: int| 0 <= earlier < at ==> text[earlier] != '\n'
}

/// The lines of `text`: the pieces between its line breaks, in order. A text
/// without a line break is one line, the empty text included, and a text
/// that ends in a line break ends in an empty line.
pub open spec fn lines_of(text: Seq<char>) -> Seq<Seq<char>>
    decreases text.len(),
{
    if exists|at: int| is_first_break(text, at) {
        let at = choose|at: int| is_first_break(text, at);
        seq![text.take(at)] + lines_of(text.skip(at + 1))
    } else {
        seq![text]
    }
}

/// The text made of `lines` with one line break between each two neighbours.
pub open spec fn joined(lines: Seq<Seq<char>>) -> Seq<char>
    decreases lines.len(),
{
    if lines.len() == 0 {
        Seq::empty()
    } else if lines.len() == 1 {
        lines[0]
    } else {
        lines[0] + seq!['\n'] + joined(lines.drop_first())
    }
}

/// No line break stands in `line`.
pub open spec fn is_unbroken(line: Seq<char>) -> bool {
    forall|at: int| 0 <= at < line.len() ==> line[at] != '\n'
}

/// A text that holds a line break has a first one.
pub proof fn lemma_break_has_first(text: Seq<char>, at: int)
    requires
        0 <= at < text.len(),
        text[at] == '\n',
    ensures
        exists|first: int| is_first_break(text, first),
    decreases at,
{
    if exists|earlier: int| 0 <= earlier < at && text[earlier] == '\n' {
        let earlier = choose|earlier: int| 0 <= earlier < at && text[earlier] == '\n';
        lemma_break_has_first(text, earlier);
    } else {
        assert(is_first_break(text, at));
    }
}

/// A text whose first line break is at `at` has the part before it as its
/// first line, and the lines of the part after it as the others.
pub proof fn lemma_lines_of_broken(text: Seq<char>, at: int)
    requires
        is_first_break(text, at),
    ensures
        lines_of(text) == seq![text.take(at)] + lines_of(text.skip(at + 1)),
{
}

/// A text without a line break is its own single line.
pub proof fn lemma_lines_of_unbroken(text: Seq<char>)
    requires
        is_unbroken(text),
    ensures
        lines_of(text) == seq![text],
{
}

/// Joining one more line onto some lines adds a line break and that line.
pub proof fn lemma_joined_push(lines: Seq<Seq<char>>, line: Seq<char>)
    requires
        lines.len() > 0,
    ensures
        joined(lines.push(line)) == joined(lines) + seq!['\n'] + line,
    decreases lines.len(),
{
    let longer = lines.push(line);
    if lines.len() == 1 {
        assert(joined(longer.drop_first()) == line);
    } else {
        lemma_joined_push(lines.drop_first(), line);
        assert(longer.drop_first() =~= lines.drop_first().push(line));
    }
}

/// Splitting a text into lines and joining them gives the text back.
pub proof fn lemma_joined_lines_of(text: Seq<char>)
    ensures
        joined(lines_of(text)) == text,
        lines_of(text).len() > 0,
    decreases text.len(),
{
    if exists|at: int| is_first_break(text, at) {
        let at = choose|at: int| is_first_break(text, at);
        let rest = lines_of(text.skip(at + 1));
        lemma_joined_lines_of(text.skip(at + 1));
        let all = seq![text.take(at)] + rest;
        assert(all.drop_first() =~= rest);
    }
}

/// No line of a text holds a line break.
pub proof fn lemma_lines_of_are_unbroken(text: Seq<char>)
    ensures
        forall|i: int| 0 <= i < lines_of(text).len() ==> is_unbroken(#[trigger] lines_of(text)[i]),
    decreases text.len(),
{
    if exists|at: int| is_first_break(text, at) {
        let at = choose|at: int| is_first_break(text, at);
        let rest = lines_of(text.skip(at + 1));
        lemma_lines_of_are_unbroken(text.skip(at + 1));
        assert forall|i: int| 0 < i < lines_of(text).len() implies is_unbroken(
            #[trigger] lines_of(text)[i],
        ) by {
            assert(lines_of(text)[i] == rest[i - 1]);
        }
    } else {
        assert forall|at: int| 0 <= at < text.len() implies text[at] != '\n' by {
            if text[at] == '\n' {
                lemma_break_has_first(text, at);
            }
        }
    }
}

/// Joining lines that hold no line break, and splitting the text again,
/// gives the lines back.
pub proof fn lemma_lines_of_joined(lines: Seq<Seq<char>>)
    requires
        lines.len() > 0,
        forall|i: int| 0 <= i < lines.len() ==> is_unbroken(#[trigger] lines[i]),
    ensures
        lines_of(joined(lines)) == lines,
    decreases lines.len(),
{
    if lines.len() == 1 {
        lemma_lines_of_unbroken(lines[0]);
    } else {
        let text = joined(lines);
        let at = lines[0].len() as int;
        let rest = lines.drop_first();
        lemma_lines_of_broken(text, at);
        assert(text.take(at) =~= lines[0]);
        assert(text.skip(at + 1) =~= joined(rest));
        lemma_lines_of_joined(rest);
    }
}

/// The lines of two texts with a line break between them are the lines of
/// the first followed by the lines of the second.
pub proof fn lemma_lines_of_concat(head: Seq<char>, tail: Seq<char>)
    ensures
        lines_of(head + seq!['\n'] + tail) == lines_of(head) + lines_of(tail),
    decreases head.len(),
{
    let text = head + seq!['\n'] + tail;
    if exists|at: int| is_first_break(head, at) {
        let at = choose|at: int| is_first_break(head, at);
        lemma_lines_of_broken(text, at);
        lemma_lines_of_concat(head.skip(at + 1), tail);
        assert(text.take(at) =~= head.take(at));
        assert(text.skip(at + 1) =~= head.skip(at + 1) + seq!['\n'] + tail);
        assert(seq![head.take(at)] + (lines_of(head.skip(at + 1)) + lines_of(tail)) =~= (seq![
            head.take(at),
        ] + lines_of(head.skip(at + 1))) + lines_of(tail));
    } else {
        assert forall|at: int| 0 <= at < head.len() implies head[at] != '\n' by {
            if head[at] == '\n' {
                lemma_break_has_first(head, at);
            }
        }
        let at = head.len() as int;
        lemma_lines_of_broken(text, at);
        assert(text.take(at) =~= head);
        assert(text.skip(at + 1) =~= tail);
    }
}

/// A line without a line break that goes into a joined text is a line of
/// that text.
pub proof fn lemma_joined_holds_unbroken_line(lines: Seq<Seq<char>>, at: int)
    requires
        0 <= at < lines.len(),
        is_unbroken(lines[at]),
    ensures
        lines_of(joined(lines)).contains(lines[at]),
    decreases lines.len(),
{
    if lines.len() == 1 {
        lemma_lines_of_unbroken(lines[0]);
        assert(lines_of(joined(lines))[0] == lines[at]);
    } else {
        let rest = lines.drop_first();
        let first = lines_of(lines[0]);
        let others = lines_of(joined(rest));
        lemma_lines_of_concat(lines[0], joined(rest));
        if at == 0 {
            lemma_lines_of_unbroken(lines[0]);
            assert((first + others)[0] == lines[at]);
        } else {
            lemma_joined_holds_unbroken_line(rest, at - 1);
            let place = choose|place: int| 0 <= place < others.len() && others[place] == lines[at];
            assert((first + others)[first.len() + place] == lines[at]);
        }
    }
}

/// The characters of `s`, in order.
pub fn chars_of(s: &str) -> (chars: Vec<char>)
    ensures
        chars@ == s@,
{
    let mut chars: Vec<char> = Vec::new();
    for c in it: s.chars()
        invariant
            chars@ == it.seq().take(it.index() as int),
            it.seq() == s@,
    {
        chars.push(c);
    }
    chars
}

/// Tells whether `needle` stands in `hay` at position `at`.
pub fn matches_at(hay: &Vec<char>, needle: &Vec<char>, at: usize) -> (found: bool)
    requires
        at + needle.len() <= hay.len(),
    ensures
        found == occurs_at(hay@, needle@, at as int),
{
    let mut k: usize = 0;
    while k < needle.len()
        invariant
            k <= needle.len(),
            at + needle.len() <= hay.len(),
            forall|j: int| 0 <= j < k ==> hay@[at + j] == needle@[j],
        decreases needle.len() - k,
    {
        if hay[at + k] != needle[k] {
            return false;
        }
        k += 1;
    }
    assert(hay@.subrange(at as int, at + needle@.len()) =~= needle@);
    true
}

/// The leftmost position not before `from` at which `needle` stands in `hay`.
pub fn find_from(hay: &Vec<char>, needle: &Vec<char>, from: usize) -> (found: Option<usize>)
    ensures
        match found {
            Some(at) => first_occurrence(hay@, needle@, from as int) == Some(at as int),
            None => first_occurrence(hay@, needle@, from as int) is None,
        },
{
    if needle.len() > hay.len() || from > hay.len() - needle.len() {
        proof {
            lemma_first_occurrence_none(hay@, needle@, from as int);
        }
        return None;
    }
    let last: usize = hay.len() - needle.len();
    let mut at: usize = from;
    loop
        invariant
            from <= at <= last,
            last == hay@.len() - needle@.len(),
            forall|earlier: int| from <= earlier < at ==> !occurs_at(hay@, needle@, earlier),
        decreases last - at,
    {
        if matches_at(hay, needle, at) {
            proof {
                lemma_first_occurrence_unique(hay@, needle@, from as int, at as int);
            }
            return Some(at);
        }
        if at == last {
            proof {
                lemma_first_occurrence_none(hay@, needle@, from as int);
            }
            return None;
        }
        at += 1;
    }
}

/// Tells whether `needle` stands somewhere in `hay`.
pub fn contains(hay: &Vec<char>, needle: &Vec<char>) -> (found: bool)
    ensures
        found == has_substring(hay@, needle@),
{
    let first = find_from(hay, needle, 0);
    proof {
        if has_substring(hay@, needle@) {
            let at = choose|at: int| occurs_at(hay@, needle@, at);
            lemma_occurrence_has_first(hay@, needle@, 0, at);
        }
    }
    first.is_some()
}

/// Splits `text` at its line breaks.
pub fn split_lines<'a>(text: &'a str) -> (lines: Vec<&'a str>)
    ensures
        lines.deep_view() == lines_of(text@),
{
    let chars = chars_of(text);
    let mut lines: Vec<&'a str> = Vec::new();
    let mut start: usize = 0;
    let mut at: usize = 0;
    proof {
        assert(text@.skip(0) =~= text@);
    }
    while at < chars.len()
        invariant
            start <= at <= chars.len(),
            chars@ == text@,
            lines_of(text@) == lines.deep_view() + lines_of(text@.skip(start as int)),
            forall|j: int| start <= j < at ==> text@[j] != '\n',
        decreases chars.len() - at,
    {
        if chars[at] == '\n' {
            let line = text.substring_char(start, at);
            proof {
                let rest = text@.skip(start as int);
                lemma_lines_of_broken(rest, at - start);
                assert(rest.take(at - start) =~= line@);
                assert(rest.skip(at - start + 1) =~= text@.skip(at + 1));
            }
            lines.push(line);
            start = at + 1;
        }
        at += 1;
    }
    let line = text.substring_char(start, at);
    proof {
        let rest = text@.skip(start as int);
        lemma_lines_of_unbroken(rest);
    }
    lines.push(line);
    lines
}

/// Joins `lines` with one line break between each two neighbours.
pub fn join_lines(lines: &Vec<&str>) -> (text: String)
    ensures
        text@ == joined(lines.deep_view()),
{
    let mut text = String::new();
    let mut i: usize = 0;
    while i < lines.len()
        invariant
            i <= lines.len(),
            text@ == joined(lines.deep_view().take(i as int)),
        decreases lines.len() - i,
    {
        proof {
            let done = lines.deep_view().take(i as int);
            assert(lines.deep_view().take(i + 1) =~= done.push(lines@[i as int]@));
            if i > 0 {
                lemma_joined_push(done, lines@[i as int]@);
            }
        }
        if i > 0 {
            text.append("\n");
        }
        text.append(lines[i]);
        proof {
            reveal_strlit("\n");
        }
        i += 1;
    }
    assert(lines.deep_view().take(i as int) =~= lines.deep_view());
    text
}

} // verus!
