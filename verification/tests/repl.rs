use c_repl::command::CommandExecuteResult;
use c_repl::repl::{default_setup, Step, REPL};

const SKELETON: &str = "int main(void) {\n    // write here\n    return 0;\n}";

fn build_text(step: Step) -> String {
    match step {
        Step::Build(source) => source,
        Step::Finish => panic!("the session finished"),
        Step::NoInsertionPoint => panic!("no insertion point"),
    }
}

#[test]
fn session_starts_from_the_skeleton() {
    assert_eq!(default_setup(), SKELETON);
    let session = REPL::new();
    assert_eq!(session.current(), SKELETON);
    assert_eq!(session.last_good(), SKELETON);
}

#[test]
fn submit_puts_the_statement_into_the_program() {
    let mut session = REPL::new();
    let source = build_text(session.submit(&String::from("int a = 5;")));
    assert_eq!(source, "int main(void) {\nint a = 5;\n    // write here\n    return 0;\n}");
    assert_eq!(session.current(), source);
    assert_eq!(session.last_good(), SKELETON);
}

#[test]
fn failed_build_goes_back_to_the_last_good_program() {
    let mut session = REPL::new();
    build_text(session.submit(&String::from("int a = 5;")));
    session.settle(CommandExecuteResult::Success(String::new()));
    let good = session.last_good().to_string();
    assert_eq!(good, "int main(void) {\nint a = 5;\n    // write here\n    return 0;\n}");

    let candidate = build_text(session.submit(&String::from("b = 1;")));
    assert_ne!(candidate, good);
    let stderr = "repl.c:3:1: error: 'b' undeclared\n    3 | b = 1;\n      | ^\n";
    let shown = session.settle(CommandExecuteResult::Fail(stderr.to_string()));
    assert_eq!(shown, vec!["'b' undeclared", "b = 1;", "^"]);
    assert_eq!(session.current(), good);
    assert_eq!(session.last_good(), good);
}

#[test]
fn successful_build_becomes_the_last_good_program() {
    let mut session = REPL::new();
    let candidate = build_text(session.submit(&String::from("#include <stdio.h>")));
    assert_eq!(candidate, format!("#include <stdio.h>\n{}", SKELETON));
    let shown = session.settle(CommandExecuteResult::Success(String::new()));
    assert!(shown.is_empty());
    assert_eq!(session.last_good(), candidate);
    assert_eq!(session.current(), candidate);
}

#[test]
fn output_of_the_program_is_shown_when_there_is_any() {
    let mut session = REPL::new();
    build_text(session.submit(&String::from("printf(\"hi\");")));
    let shown = session.settle(CommandExecuteResult::Success(String::from("hi")));
    assert_eq!(shown, vec!["hi"]);
}

#[test]
fn only_the_newest_output_statement_stays() {
    let mut session = REPL::new();
    build_text(session.submit(&String::from("printf(\"one\");")));
    session.settle(CommandExecuteResult::Success(String::from("one")));
    let source = build_text(session.submit(&String::from("printf(\"two\");")));
    assert_eq!(source, "int main(void) {\nprintf(\"two\");\n    // write here\n    return 0;\n}");
}

#[test]
fn every_error_is_shown_once() {
    let mut session = REPL::new();
    build_text(session.submit(&String::from("a = b;")));
    let stderr = "repl.c:2:1: error: 'a' undeclared\n    2 | a = b;\n      | ^\n\
                  repl.c:2:5: error: 'b' undeclared\n    2 | a = b;\n      |     ^\n\
                  repl.c:2:1: error: 'a' undeclared\n    2 | a = b;\n      | ^\n";
    let shown = session.settle(CommandExecuteResult::Fail(stderr.to_string()));
    assert_eq!(
        shown,
        vec!["'a' undeclared", "a = b;", "^", "'b' undeclared", "a = b;", "    ^"]
    );
    assert_eq!(session.current(), SKELETON);
}

#[test]
fn quit_word_finishes_and_starts_afresh() {
    let mut session = REPL::new();
    build_text(session.submit(&String::from("int a = 5;")));
    session.settle(CommandExecuteResult::Success(String::new()));
    assert!(matches!(session.submit(&String::from(":q")), Step::Finish));
    assert_eq!(session.current(), SKELETON);
    assert_eq!(session.last_good(), SKELETON);
}

#[test]
fn only_the_exact_quit_word_finishes() {
    let mut session = REPL::new();
    assert!(matches!(session.submit(&String::from(":q ")), Step::Build(_)));
    assert!(matches!(session.submit(&String::from(" :q")), Step::Build(_)));
}

#[test]
fn body_statement_without_insertion_point_is_refused() {
    let mut session = REPL::new();
    session.commit(String::from("int main(void) {\n    return 0;\n}"));
    assert!(matches!(session.submit(&String::from("int a;")), Step::NoInsertionPoint));
    assert_eq!(session.current(), "int main(void) {\n    return 0;\n}");
    let source = build_text(session.submit(&String::from("#define A 1")));
    assert_eq!(source, "#define A 1\nint main(void) {\n    return 0;\n}");
}

#[test]
fn session_goes_through_many_rounds() {
    let mut session = REPL::new();
    let mut good = SKELETON.to_string();
    let rounds = [
        ("#include <stdio.h>", true),
        ("int a = 5;", true),
        ("b = 1;", false),
        ("printf(\"%d\", a);", true),
        ("", true),
        ("a = ;", false),
        ("printf(\"%d\", a + 1);", true),
    ];
    let stderr = "repl.c:3:1: error: bad\n    3 | code\n      | ^\n";
    for (statement, compiles) in rounds {
        let candidate = build_text(session.submit(&statement.to_string()));
        assert_eq!(session.current(), candidate);
        assert_eq!(session.last_good(), good);
        if compiles {
            session.settle(CommandExecuteResult::Success(String::new()));
            good = candidate;
        } else {
            session.settle(CommandExecuteResult::Fail(stderr.to_string()));
        }
        assert_eq!(session.current(), good);
        assert_eq!(session.last_good(), good);
    }
    assert_eq!(
        good,
        "#include <stdio.h>\nint main(void) {\nint a = 5;\n\nprintf(\"%d\", a + 1);\n    // write here\n    return 0;\n}"
    );
}

#[test]
fn commit_rollback_and_promote_move_the_two_texts() {
    let mut session = REPL::new();
    session.commit(String::from("candidate"));
    assert_eq!(session.current(), "candidate");
    assert_eq!(session.last_good(), SKELETON);
    session.rollback();
    assert_eq!(session.current(), SKELETON);
    session.commit(String::from("second"));
    session.promote();
    assert_eq!(session.last_good(), "second");
    assert_eq!(session.current(), "second");
    session.reset();
    assert_eq!(session.current(), SKELETON);
    assert_eq!(session.last_good(), SKELETON);
    session.reset();
    assert_eq!(session.current(), SKELETON);
}
