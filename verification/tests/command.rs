use c_repl::command::{
    add_command, declares, find_substring_index, format_error, insertion_available,
    is_well_formed, strip_marker,
};

fn skeleton_lines() -> Vec<&'static str> {
    vec!["int main(void) {", "    // write here", "    return 0;", "}"]
}

fn strings(texts: &[&str]) -> Vec<String> {
    texts.iter().map(|text| text.to_string()).collect()
}

#[test]
fn directives_are_declarations() {
    assert!(declares("#include <stdio.h>"));
    assert!(declares("#define N 3"));
    assert!(declares("int a; #define N 3"));
    assert!(!declares("# define N 3"));
    assert!(!declares("int a = 5;"));
    assert!(!declares(""));
}

#[test]
fn insertion_point_on_an_output_line_does_not_count() {
    assert!(insertion_available(&vec!["a", "  // write here"]));
    assert!(!insertion_available(&vec!["a", "printf(\"\"); // write here"]));
    assert!(!insertion_available(&vec!["a", "// write  here"]));
    assert!(!insertion_available(&vec![]));
}

#[test]
fn statement_enters_before_the_marker() {
    let command = String::from("int a = 5;");
    let res = add_command(skeleton_lines(), &command);
    assert_eq!(
        res,
        vec!["int main(void) {", "int a = 5;", "    // write here", "    return 0;", "}"]
    );
}

#[test]
fn header_directive_becomes_the_first_line() {
    let command = String::from("#include <stdio.h>");
    let res = add_command(skeleton_lines(), &command);
    assert_eq!(
        res,
        vec![
            "#include <stdio.h>",
            "int main(void) {",
            "    // write here",
            "    return 0;",
            "}"
        ]
    );
}

#[test]
fn macro_definition_becomes_the_first_line() {
    let command = String::from("  #define N 3");
    let lines = vec!["#include <stdio.h>", "int main(void) {", "    // write here", "}"];
    let res = add_command(lines, &command);
    assert_eq!(
        res,
        vec!["  #define N 3", "#include <stdio.h>", "int main(void) {", "    // write here", "}"]
    );
}

#[test]
fn earlier_output_lines_are_dropped() {
    let command = String::from("printf(\"%d\\n\", b);");
    let lines = vec![
        "int main(void) {",
        "int a = 5;",
        "printf(\"%d\\n\", a);",
        "    // write here",
        "    return 0;",
        "}",
    ];
    let res = add_command(lines, &command);
    assert_eq!(
        res,
        vec![
            "int main(void) {",
            "int a = 5;",
            "printf(\"%d\\n\", b);",
            "    // write here",
            "    return 0;",
            "}"
        ]
    );
}

#[test]
fn declaration_drops_output_lines_and_leaves_the_marker() {
    let command = String::from("#include <math.h>");
    let lines = vec!["int main(void) {", "printf(\"x\");", "    // write here", "}"];
    let res = add_command(lines, &command);
    assert_eq!(res, vec!["#include <math.h>", "int main(void) {", "    // write here", "}"]);
}

#[test]
fn empty_statement_adds_one_blank_line() {
    let command = String::new();
    let before = skeleton_lines();
    let res = add_command(before.clone(), &command);
    assert_eq!(res.len(), before.len() + 1);
    assert_eq!(res[1], "");
    assert_eq!(res[2], "    // write here");
    let mut without = res.clone();
    without.remove(1);
    assert_eq!(without, before);
}

#[test]
fn statement_enters_before_every_marker() {
    let command = String::from("x++;");
    let lines = vec!["// write here", "mid", "  // write here  "];
    let res = add_command(lines, &command);
    assert_eq!(res, vec!["x++;", "// write here", "mid", "x++;", "  // write here  "]);
}

#[test]
fn without_a_marker_the_statement_does_not_enter() {
    let command = String::from("int a = 5;");
    let lines = vec!["int main(void) {", "    return 0;", "}"];
    let res = add_command(lines.clone(), &command);
    assert_eq!(res, lines);
}

#[test]
fn marker_on_an_output_line_is_dropped_with_it() {
    let command = String::from("int a;");
    let lines = vec!["printf(\"a\"); // write here", "}"];
    let res = add_command(lines, &command);
    assert_eq!(res, vec!["}"]);
}

#[test]
fn empty_program_stays_empty() {
    let command = String::from("int a;");
    let res = add_command(Vec::new(), &command);
    assert!(res.is_empty());
    let declaration = String::from("#define A");
    let res = add_command(Vec::new(), &declaration);
    assert_eq!(res, vec!["#define A"]);
}

#[test]
fn marker_is_searched_past_its_own_length() {
    assert_eq!(find_substring_index("repl.c:3:5: error: 'a' undeclared", "error: "), Some(12));
    assert_eq!(find_substring_index("error: error: twice", "error: "), Some(7));
    assert_eq!(find_substring_index("error: once", "error: "), None);
    assert_eq!(find_substring_index("x error: late", "error: "), None);
    assert_eq!(find_substring_index("xx| y", "| "), Some(2));
    assert_eq!(find_substring_index("| y", "| "), None);
    assert_eq!(find_substring_index("|", "| "), None);
    assert_eq!(find_substring_index("", "| "), None);
    assert_eq!(find_substring_index("abc", ""), Some(0));
}

#[test]
fn positions_count_characters() {
    assert_eq!(find_substring_index("é é é é error: x", "error: "), Some(8));
    assert_eq!(strip_marker("é é é é error: ‘a’ undeclared", "error: "), Some("‘a’ undeclared"));
}

#[test]
fn strip_marker_gives_the_rest_of_the_line() {
    assert_eq!(strip_marker("    3 |     a = 5;", "| "), Some("    a = 5;"));
    assert_eq!(strip_marker("      | ", "| "), Some(""));
    assert_eq!(strip_marker("no gutter", "| "), None);
}

#[test]
fn one_error_gives_one_group() {
    let stderr = "repl.c:3:5: error: 'a' undeclared\n    3 |     a = 5;\n      |     ^\n";
    assert!(is_well_formed(stderr));
    let groups = format_error(stderr.to_string());
    assert_eq!(groups, vec![strings(&["'a' undeclared", "    a = 5;", "    ^"])]);
}

#[test]
fn identical_errors_are_reported_once() {
    let one = "repl.c:3:5: error: 'a' undeclared\n    3 |     a = 5;\n      |     ^\n";
    let stderr = format!("{}{}", one, one);
    assert!(is_well_formed(&stderr));
    let groups = format_error(stderr);
    assert_eq!(groups.len(), 1);
    assert_eq!(groups[0], strings(&["'a' undeclared", "    a = 5;", "    ^"]));
}

#[test]
fn different_errors_come_in_the_order_of_their_heads() {
    let stderr = "repl.c: In function 'main':\n\
                  repl.c:3:5: error: 'b' undeclared\n    3 |     b = 1;\n      |     ^\n\
                  repl.c:2:5: error: 'a' undeclared\n    2 |     a = 5;\n      |     ^\n\
                  repl.c:3:5: error: 'b' undeclared\n    3 |     b = 1;\n      |     ^\n\
                  repl.c:2:5: note: each undeclared identifier is reported only once";
    assert!(is_well_formed(stderr));
    let groups = format_error(stderr.to_string());
    assert_eq!(
        groups,
        vec![
            strings(&["'b' undeclared", "    b = 1;", "    ^"]),
            strings(&["'a' undeclared", "    a = 5;", "    ^"]),
        ]
    );
}

#[test]
fn errors_that_differ_in_their_source_lines_are_kept_apart() {
    let stderr = "repl.c:3:5: error: 'a' undeclared\n    3 |     a = 5;\n      |     ^\n\
                  repl.c:4:5: error: 'a' undeclared\n    4 |     a = 6;\n      |     ^\n";
    let groups = format_error(stderr.to_string());
    assert_eq!(groups.len(), 2);
}

#[test]
fn text_without_errors_gives_no_group() {
    assert!(is_well_formed(""));
    assert!(format_error(String::new()).is_empty());
    let warning = "repl.c:3:5: warning: unused variable 'a'\n    3 |     int a;\n      |         ^\n";
    assert!(is_well_formed(warning));
    assert!(format_error(warning.to_string()).is_empty());
}

#[test]
fn each_source_line_is_cut_at_its_own_gutter() {
    let stderr = "repl.c:12:5: error: bad\n   12 |     a | b;\n      |       ^";
    assert!(is_well_formed(stderr));
    let groups = format_error(stderr.to_string());
    assert_eq!(groups, vec![strings(&["bad", "    a | b;", "      ^"])]);
}

#[test]
fn head_without_two_following_lines_is_malformed() {
    assert!(!is_well_formed("repl.c:3:5: error: 'a' undeclared"));
    assert!(!is_well_formed("repl.c:3:5: error: 'a' undeclared\n    3 |     a = 5;"));
    assert!(is_well_formed("repl.c:3:5: error: 'a' undeclared\n    3 |     a = 5;\n      | ^"));
}

#[test]
fn head_or_source_line_without_its_marker_is_malformed() {
    assert!(!is_well_formed("error: 'a' undeclared\n    3 |     a = 5;\n      |     ^\n"));
    assert!(!is_well_formed("repl.c:3:5: error: 'a' undeclared\n    a = 5;\n      |     ^\n"));
    assert!(!is_well_formed("repl.c:3:5: error: 'a' undeclared\n    3 |     a = 5;\n    ^\n"));
    assert!(!is_well_formed("repl.c:3:5: error: 'a' undeclared\n| a = 5;\n      |     ^\n"));
}
