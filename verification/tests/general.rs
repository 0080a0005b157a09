use structurer::general::{
    add_element_to_line, delete_all_mentions_from_file, delete_line_from_file, move_line_to,
    replace_line,
};

#[test]
fn element_added_to_the_line_of_its_identifier() {
    assert_eq!(
        add_element_to_line("t1@Title@p1\nt2@Other", "t1", "p2"),
        "t1@Title@p1@p2\nt2@Other"
    );
}

#[test]
fn element_added_to_every_line_of_its_identifier() {
    assert_eq!(add_element_to_line("a@1\nb@2\na@3", "a", "x"), "a@1@x\nb@2\na@3@x");
}

#[test]
fn element_added_drops_the_final_newline() {
    assert_eq!(add_element_to_line("a@x\n", "a", "y"), "a@x@y");
}

#[test]
fn element_added_nowhere_for_an_unknown_identifier() {
    assert_eq!(add_element_to_line("a@1\nb@2", "c", "x"), "a@1\nb@2");
}

#[test]
fn element_added_to_an_empty_text() {
    assert_eq!(add_element_to_line("", "a", "x"), "");
}

#[test]
fn line_deleted_by_first_field() {
    assert_eq!(delete_line_from_file("a@1\nb@2\nc@3", "b"), "a@1\nc@3");
}

#[test]
fn line_deleted_reads_carriage_returns_away() {
    assert_eq!(delete_line_from_file("a@1\r\nb@2\r\nc", "b"), "a@1\nc");
}

#[test]
fn line_deleted_only_when_first_field_matches() {
    assert_eq!(delete_line_from_file("a@b\nb@a", "a"), "b@a");
}

#[test]
fn mentions_deleted_from_every_line() {
    assert_eq!(
        delete_all_mentions_from_file("t1@T@p1@p2\nt2@U@p1", "p1"),
        "t1@T@p2\nt2@U"
    );
}

#[test]
fn mentions_deleted_can_empty_a_line() {
    assert_eq!(delete_all_mentions_from_file("x\ny@x", "x"), "\ny");
}

#[test]
fn line_replaced_by_identifier_and_element() {
    assert_eq!(replace_line("a@1@2\nb@3", "a", "x@y"), "a@x@y\nb@3");
}

#[test]
fn line_replaced_nowhere_for_an_unknown_identifier() {
    assert_eq!(replace_line("a@1\nb@3", "c", "z"), "a@1\nb@3");
}

#[test]
fn line_moved_to_the_front() {
    assert_eq!(move_line_to("a\nb\nc", "c", 0), "c\na\nb");
}

#[test]
fn line_moved_past_the_end_goes_last() {
    assert_eq!(move_line_to("a\nb\nc", "a", 10), "b\nc\na");
}

#[test]
fn line_moved_by_first_field() {
    assert_eq!(move_line_to("a@1\nb@2\nc@3", "b", 2), "a@1\nc@3\nb@2");
}

#[test]
fn line_not_moved_for_an_unknown_identifier() {
    assert_eq!(move_line_to("a\nb\n", "z", 0), "a\nb");
}
