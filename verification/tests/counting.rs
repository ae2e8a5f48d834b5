use sloc::tracker::{count_lines_in_content, RegionTracker};

#[test]
fn single_line_marker_and_single_line_body() {
    let content = "#[test]\nfn t() { let x = 1; }\nfn other() {}";
    assert_eq!(count_lines_in_content(content), (3, 2));
}

#[test]
fn marker_with_delayed_brace() {
    let content = "#[cfg(test)]\nmod test {\nfn t() {\nassert!(true);\n}\n}";
    assert_eq!(count_lines_in_content(content), (6, 6));
}

#[test]
fn no_marker_means_no_test_lines() {
    let content = "fn a() {\n}\nfn b() { {} }";
    assert_eq!(count_lines_in_content(content), (3, 0));
}

#[test]
fn marker_without_braces_absorbs_the_rest() {
    let content = "#[test]\nno braces here\nstill counted";
    assert_eq!(count_lines_in_content(content), (3, 3));
}

#[test]
fn empty_file_counts_nothing() {
    assert_eq!(count_lines_in_content(""), (0, 0));
    assert_eq!(count_lines_in_content("\n  \n\t\n"), (0, 0));
}

#[test]
fn blank_lines_change_neither_count() {
    let plain = "#[test]\nfn t() { let x = 1; }\nfn other() {}";
    let padded = "\n#[test]\n   \t\nfn t() { let x = 1; }\n\nfn other() {}\n  ";
    assert_eq!(count_lines_in_content(plain), count_lines_in_content(padded));
    assert_eq!(count_lines_in_content(padded), (3, 2));
}

#[test]
fn recounting_gives_identical_counts() {
    let content = "#[cfg(test)]\nmod test {\nfn t() {\nassert!(true);\n}\n}";
    let first = count_lines_in_content(content);
    let second = count_lines_in_content(content);
    assert_eq!(first, second);
}

#[test]
fn nested_braces_keep_the_region_open() {
    let content = "#[test]\nfn t() {\nif x {\nstuff\n}\n}\nafter";
    assert_eq!(count_lines_in_content(content), (7, 6));
}

#[test]
fn region_can_open_and_close_on_one_line() {
    let content = "#[test] fn t() { x }\nafter";
    assert_eq!(count_lines_in_content(content), (2, 1));
}

#[test]
fn markers_inside_a_region_are_plain_test_lines() {
    let content = "#[test]\n#[test]\nfn t() {\n}\nafter";
    assert_eq!(count_lines_in_content(content), (5, 4));
}

#[test]
fn trimming_covers_unicode_whitespace() {
    let content = "\u{a0}\u{2003}#[test]\u{3000}\nx";
    assert_eq!(count_lines_in_content(content), (2, 2));
}

#[test]
fn marker_must_start_the_trimmed_line() {
    let content = "x #[test]";
    assert_eq!(count_lines_in_content(content), (1, 0));
}

#[test]
fn carriage_returns_are_part_of_the_line_break() {
    let content = "#[test]\r\nfn t() { }\r\nother";
    assert_eq!(count_lines_in_content(content), (3, 2));
}

#[test]
fn unmatched_closers_before_the_first_brace_are_inert() {
    let content = "#[test]\n}\n{\nx";
    assert_eq!(count_lines_in_content(content), (4, 3));
}

#[test]
fn line_splitting_edges() {
    assert_eq!(count_lines_in_content("a"), (1, 0));
    assert_eq!(count_lines_in_content("a\n"), (1, 0));
    assert_eq!(count_lines_in_content("a\nb"), (2, 0));
    // a lone carriage return does not end a line
    assert_eq!(count_lines_in_content("a\rb"), (1, 0));
}

#[test]
fn tracker_streams_lines_one_by_one() {
    let mut tracker = RegionTracker::new();
    tracker.process_line("a");
    tracker.process_line("");
    tracker.process_line("#[test]");
    tracker.process_line("{}");
    tracker.process_line("b");
    assert_eq!(tracker.result(), (4, 2));
}
