//! The session: the program as it stands, the last program that built, and
//! the steps that lead from one round to the next.
//!
//! The session itself neither reads input nor runs a compiler. A round has
//! two halves. [`REPL::submit`] takes the statement and says what is to be
//! done; where that is a build, the caller builds and runs the program and
//! hands the outcome to [`REPL::settle`], which keeps or discards the
//! candidate and says what is to be shown.
use crate::command::{
    accumulate, add_command, declares, distinct, format_error, groups, has_insertion_point,
    insertion_available, insertion_marker, is_declaration, is_insertion_point, is_output,
    lemma_accumulate_holds_kept_line, output_call, well_formed, CommandExecuteResult,
};
use crate::text::{
    join_lines, joined, lemma_joined_holds_unbroken_line, lemma_lines_of_are_unbroken,
    lemma_lines_of_concat, lemma_lines_of_unbroken, lines_of, occurs_at, split_lines,
};
use vstd::prelude::*;

verus! {

/// The program that every session starts from: an empty body that holds
/// nothing but the insertion point.
pub open spec fn skeleton() -> Seq<char> {
    "int main(void) {\n    // write here\n    return 0;\n}"@
}

/// The input that ends the session.
pub open spec fn quit_word() -> Seq<char> {
    ":q"@
}

/// The program text after `statement` has been taken in.
pub open spec fn next_source(source: Seq<char>, statement: Seq<char>) -> Seq<char> {
    joined(accumulate(lines_of(source), statement))
}

/// What a session is, seen from outside: two program texts.
pub struct SessionView {
    /// The program as it stands.
    pub current: Seq<char>,
    /// The last program that built, or the skeleton.
    pub last_good: Seq<char>,
}

impl SessionView {
    /// The session at its start.
    pub open spec fn fresh() -> SessionView {
        SessionView { current: skeleton(), last_good: skeleton() }
    }

    /// The session with `candidate` as its program.
    pub open spec fn commit(self, candidate: Seq<char>) -> SessionView {
        SessionView { current: candidate, last_good: self.last_good }
    }

    /// The session fallen back to the last program that built.
    pub open spec fn rollback(self) -> SessionView {
        SessionView { current: self.last_good, last_good: self.last_good }
    }

    /// The session with its program made the last good one.
    pub open spec fn promote(self) -> SessionView {
        SessionView { current: self.current, last_good: self.current }
    }

    /// `statement` leads to a build: it is not the quit word, and it is a
    /// declaration or the program has a place for it.
    pub open spec fn builds(self, statement: Seq<char>) -> bool {
        &&& statement != quit_word()
        &&& is_declaration(statement) || has_insertion_point(lines_of(self.current))
    }

    /// The session after `statement` has been submitted. The quit word
    /// starts the session afresh; a statement that leads to a build becomes
    /// part of the program; any other leaves the session as it is.
    pub open spec fn submit(self, statement: Seq<char>) -> SessionView {
        if statement == quit_word() {
            SessionView::fresh()
        } else if self.builds(statement) {
            self.commit(next_source(self.current, statement))
        } else {
            self
        }
    }

    /// The session after the build of its program has come back.
    pub open spec fn settle(self, built: bool) -> SessionView {
        if built {
            self.promote()
        } else {
            self.rollback()
        }
    }
}

/// One round of a session: the statement that was entered and, for the case
/// that it led to a build, whether the program built.
pub struct Round {
    /// The statement that was entered.
    pub statement: Seq<char>,
    /// The program with the statement in it built.
    pub compiled: bool,
}

impl SessionView {
    /// The session after one whole round: the statement is submitted, and
    /// where that led to a build, the outcome of the build is settled.
    pub open spec fn after_round(self, round: Round) -> SessionView {
        if self.builds(round.statement) {
            self.submit(round.statement).settle(round.compiled)
        } else {
            self.submit(round.statement)
        }
    }

    /// The session after some rounds, one after the other.
    pub open spec fn after_rounds(self, rounds: Seq<Round>) -> SessionView
        decreases rounds.len(),
    {
        if rounds.len() == 0 {
            self
        } else {
            self.after_rounds(rounds.drop_last()).after_round(rounds.last())
        }
    }
}

/// The session after the first `k + 1` of some rounds is the session after
/// the first `k` of them, taken through round `k`.
pub proof fn lemma_after_rounds_next(start: SessionView, rounds: Seq<Round>, k: int)
    requires
        0 <= k < rounds.len(),
    ensures
        start.after_rounds(rounds.take(k + 1)) == start.after_rounds(rounds.take(k)).after_round(
            rounds[k],
        ),
{
    assert(rounds.take(k + 1).drop_last() =~= rounds.take(k));
}

/// A round whose build fails leaves the session with the last good program
/// of the round before as its program, character for character, and that
/// program is still the last good one.
pub proof fn lemma_failed_round_rolls_back(start: SessionView, rounds: Seq<Round>, k: int)
    requires
        0 <= k < rounds.len(),
        start.after_rounds(rounds.take(k)).builds(rounds[k].statement),
        !rounds[k].compiled,
    ensures
        start.after_rounds(rounds.take(k + 1)).current == start.after_rounds(
            rounds.take(k),
        ).last_good,
        start.after_rounds(rounds.take(k + 1)).last_good == start.after_rounds(
            rounds.take(k),
        ).last_good,
{
    lemma_after_rounds_next(start, rounds, k);
}

/// A round whose build succeeds leaves the session with the program that
/// was just built as the last good one: the program of the round before
/// with the statement taken in.
pub proof fn lemma_built_round_promotes(start: SessionView, rounds: Seq<Round>, k: int)
    requires
        0 <= k < rounds.len(),
        start.after_rounds(rounds.take(k)).builds(rounds[k].statement),
        rounds[k].compiled,
    ensures
        start.after_rounds(rounds.take(k + 1)).last_good == start.after_rounds(
            rounds.take(k + 1),
        ).current,
        start.after_rounds(rounds.take(k + 1)).current == next_source(
            start.after_rounds(rounds.take(k)).current,
            rounds[k].statement,
        ),
{
    lemma_after_rounds_next(start, rounds, k);
}

/// In a session that started afresh, the program and the last good program
/// are the same text between any two rounds.
pub proof fn lemma_texts_agree_between_rounds(rounds: Seq<Round>)
    ensures
        SessionView::fresh().after_rounds(rounds).current == SessionView::fresh().after_rounds(
            rounds,
        ).last_good,
    decreases rounds.len(),
{
    if rounds.len() > 0 {
        lemma_texts_agree_between_rounds(rounds.drop_last());
    }
}

/// The skeleton has an insertion point.
pub proof fn lemma_skeleton_has_insertion_point()
    ensures
        has_insertion_point(lines_of(skeleton())),
{
    let opening = "int main(void) {"@;
    let marked = "    // write here"@;
    let closing = "    return 0;\n}"@;
    reveal_strlit("int main(void) {\n    // write here\n    return 0;\n}");
    reveal_strlit("int main(void) {");
    reveal_strlit("    // write here");
    reveal_strlit("    return 0;\n}");
    reveal_strlit("// write here");
    reveal_strlit("printf");
    assert(skeleton() =~= opening + seq!['\n'] + (marked + seq!['\n'] + closing));
    lemma_lines_of_concat(opening, marked + seq!['\n'] + closing);
    lemma_lines_of_concat(marked, closing);
    lemma_lines_of_unbroken(marked);
    let lines = lines_of(skeleton());
    let at = lines_of(opening).len() as int;
    assert(lines[at] == marked);
    assert(occurs_at(marked, insertion_marker(), 4)) by {
        assert(marked.subrange(4, 17) =~= insertion_marker());
    }
    assert forall|start: int| !occurs_at(
        marked,
        output_call(),
        start,
    ) by {
        if 0 <= start && start + 6 <= marked.len() {
            assert(marked.subrange(start, start + 6)[0] == marked[start]);
        }
    }
}

/// A program text that has an insertion point still has one after a
/// statement has been taken in.
pub proof fn lemma_next_source_has_insertion_point(source: Seq<char>, statement: Seq<char>)
    requires
        has_insertion_point(lines_of(source)),
    ensures
        has_insertion_point(lines_of(next_source(source, statement))),
{
    let lines = lines_of(source);
    let at = choose|at: int|
        0 <= at < lines.len() && is_insertion_point(#[trigger] lines[at]) && !is_output(lines[at]);
    let next = accumulate(lines, statement);
    lemma_lines_of_are_unbroken(source);
    lemma_accumulate_holds_kept_line(lines, statement, at);
    let k = choose|k: int| 0 <= k < next.len() && next[k] == lines[at];
    lemma_joined_holds_unbroken_line(next, k);
}

/// A session that started afresh never runs out of insertion points, so
/// every statement but the quit word leads to a build.
pub proof fn lemma_session_keeps_insertion_point(rounds: Seq<Round>)
    ensures
        has_insertion_point(lines_of(SessionView::fresh().after_rounds(rounds).current)),
        has_insertion_point(lines_of(SessionView::fresh().after_rounds(rounds).last_good)),
        forall|statement: Seq<char>|
            statement != quit_word() ==> #[trigger] SessionView::fresh().after_rounds(
                rounds,
            ).builds(statement),
    decreases rounds.len(),
{
    lemma_skeleton_has_insertion_point();
    if rounds.len() > 0 {
        lemma_session_keeps_insertion_point(rounds.drop_last());
        let before = SessionView::fresh().after_rounds(rounds.drop_last());
        lemma_next_source_has_insertion_point(before.current, rounds.last().statement);
    }
}

/// What is to be done with a statement that was submitted.
pub enum Step {
    /// The statement was the quit word: the session is over.
    Finish,
    /// The statement belongs in the body, and the program has no insertion
    /// point left: nothing was changed, and nothing is to be built.
    NoInsertionPoint,
    /// The statement is in the program: this text is to be built and run.
    Build(String),
}

/// What is to be shown once the outcome of a build is known: the output of
/// the program if it printed any, or the errors of the compiler, text by
/// text.
pub open spec fn report(result: CommandExecuteResult) -> Seq<Seq<char>> {
    match result {
        CommandExecuteResult::Success(output) => if output@.len() == 0 {
            Seq::empty()
        } else {
            seq![output@]
        },
        CommandExecuteResult::Fail(diagnostics) => distinct(groups(diagnostics@)).flatten(),
    }
}

/// An interactive session.
pub struct REPL {
    current: String,
    last_good: String,
}

impl View for REPL {
    type V = SessionView;

    closed spec fn view(&self) -> SessionView {
        SessionView { current: self.current@, last_good: self.last_good@ }
    }
}

/// The text of the skeleton.
pub fn default_setup() -> (text: &'static str)
    ensures
        text@ == skeleton(),
{
    "int main(void) {\n    // write here\n    return 0;\n}"
}

impl REPL {
    /// A session at its start: both texts are the skeleton.
    pub fn new() -> (session: Self)
        ensures
            session@ == SessionView::fresh(),
    {
        REPL { current: default_setup().to_owned(), last_good: default_setup().to_owned() }
    }

    /// The program as it stands.
    pub fn current(&self) -> (text: &str)
        ensures
            text@ == self@.current,
    {
        self.current.as_str()
    }

    /// The last program that built, or the skeleton.
    pub fn last_good(&self) -> (text: &str)
        ensures
            text@ == self@.last_good,
    {
        self.last_good.as_str()
    }

    /// Starts the session afresh: both texts become the skeleton.
    pub fn reset(&mut self)
        ensures
            final(self)@ == SessionView::fresh(),
    {
        self.current = default_setup().to_owned();
        self.last_good = default_setup().to_owned();
    }

    /// Makes `candidate` the program. The last good program stays.
    pub fn commit(&mut self, candidate: String)
        ensures
            final(self)@ == old(self)@.commit(candidate@),
    {
        self.current = candidate;
    }

    /// Discards the program and goes back to the last good one.
    pub fn rollback(&mut self)
        ensures
            final(self)@ == old(self)@.rollback(),
    {
        self.current = self.last_good.clone();
    }

    /// Makes the program the last good one.
    pub fn promote(&mut self)
        ensures
            final(self)@ == old(self)@.promote(),
    {
        self.last_good = self.current.clone();
    }

    /// Takes one statement from the user and says what is to be done.
    pub fn submit(&mut self, statement: &String) -> (step: Step)
        ensures
            final(self)@ == old(self)@.submit(statement@),
            match step {
                Step::Finish => statement@ == quit_word(),
                Step::NoInsertionPoint => statement@ != quit_word() && !old(self)@.builds(
                    statement@,
                ),
                Step::Build(source) => {
                    &&& old(self)@.builds(statement@)
                    &&& source@ == final(self)@.current
                },
            },
    {
        let quit = ":q".to_owned();
        if *statement == quit {
            self.reset();
            return Step::Finish;
        }
        let candidate = {
            let lines = split_lines(self.current.as_str());
            if !declares(statement.as_str()) && !insertion_available(&lines) {
                return Step::NoInsertionPoint;
            }
            join_lines(&add_command(lines, statement))
        };
        let source = candidate.clone();
        self.commit(candidate);
        Step::Build(source)
    }

    /// Takes the outcome of the build and says what is to be shown. A
    /// program that built becomes the last good one; one that did not is
    /// discarded for the last good one.
    ///
    /// The diagnostics of a failed build have to be well formed;
    /// `is_well_formed` tells.
    pub fn settle(&mut self, result: CommandExecuteResult) -> (shown: Vec<String>)
        requires
            result matches CommandExecuteResult::Fail(diagnostics) ==> well_formed(diagnostics@),
        ensures
            final(self)@ == old(self)@.settle(result is Success),
            result is Fail ==> final(self)@.current == old(self)@.last_good,
            result is Fail ==> final(self)@.last_good == old(self)@.last_good,
            result is Success ==> final(self)@.last_good == old(self)@.current,
            result is Success ==> final(self)@.current == old(self)@.current,
            shown.deep_view() == report(result),
    {
        match result {
            CommandExecuteResult::Success(output) => {
                self.promote();
                let mut shown: Vec<String> = Vec::new();
                if !output.as_str().is_empty() {
                    shown.push(output);
                }
                shown
            },
            CommandExecuteResult::Fail(err_msg) => {
                self.rollback();
                all_texts(&format_error(err_msg))
            },
        }
    }
}

/// The texts of all groups, one group after the other.
fn all_texts(formatted: &Vec<Vec<String>>) -> (texts: Vec<String>)
    ensures
        texts.deep_view() == formatted.deep_view().flatten(),
{
    let mut texts: Vec<String> = Vec::new();
    let mut g: usize = 0;
    while g < formatted.len()
        invariant
            g <= formatted.len(),
            texts.deep_view() == formatted.deep_view().take(g as int).flatten(),
        decreases formatted.len() - g,
    {
        let msgs = &formatted[g];
        let ghost before = texts.deep_view();
        let mut m: usize = 0;
        while m < msgs.len()
            invariant
                m <= msgs.len(),
                texts.deep_view() == before + msgs.deep_view().take(m as int),
            decreases msgs.len() - m,
        {
            let ghost sofar = texts.deep_view();
            texts.push(msgs[m].clone());
            assert(texts.deep_view() =~= sofar.push(msgs@[m as int]@));
            assert(msgs.deep_view().take(m + 1) =~= msgs.deep_view().take(m as int).push(
                msgs@[m as int]@,
            ));
            m += 1;
        }
        proof {
            let done = formatted.deep_view().take(g as int);
            assert(formatted.deep_view().take(g + 1) =~= done.push(msgs.deep_view()));
            done.lemma_flatten_push(msgs.deep_view());
        }
        g += 1;
    }
    assert(formatted.deep_view().take(g as int) =~= formatted.deep_view());
    texts
}

} // verus!
