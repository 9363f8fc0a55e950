use line_reader::read::line_starts_with;
use line_reader::{
    filter_out_comment_lines, read_n_lines, read_until_line_starts_with, LineBuffer, LineItem,
    LineSource,
};
use std::io::BufRead;
use std::io::Cursor;
use std::io::{Error, ErrorKind};

fn lines_of(text: &str) -> LineBuffer {
    let items: Vec<LineItem> = Cursor::new(text.to_string()).lines().collect();
    LineBuffer::from_items(items)
}

fn ok(s: &str) -> LineItem {
    Ok(s.to_string())
}

fn failure(msg: &str) -> LineItem {
    Err(Error::new(ErrorKind::Other, msg.to_string()))
}

#[test]
fn test_read_n_lines() {
    let mut file = lines_of("1\n2\n3\n4\n5\n");
    let first_three_lines = read_n_lines(3, &mut file).unwrap();
    assert_eq!(first_three_lines, "1\n2\n3\n");
    let Some(Ok(fourth_line)) = file.next_line() else { panic!("reading fourth line failed") };
    assert_eq!(fourth_line, "4");
}

#[test]
fn test_read_n_lines_from_string() {
    let mut string_iter = lines_of("1\n2\n3\n4\n");
    let first_three_lines = read_n_lines(3, &mut string_iter).unwrap();
    assert_eq!(first_three_lines, "1\n2\n3\n");
    let Some(Ok(fourth_line)) = string_iter.next_line() else { panic!("reading fourth line failed") };
    assert_eq!(fourth_line, "4");
}

#[test]
fn test_read_too_many_lines() {
    let mut string_iter = lines_of("1\n2\n3\n4\n");
    let first_six_lines = read_n_lines(6, &mut string_iter).unwrap();
    assert_eq!(first_six_lines, "1\n2\n3\n4\n");
}

#[test]
fn test_filter_out_lines_from_input() {
    let string_iter = lines_of("1\n#2\n3\n4\n#5\n6\n");
    let mut filtered_iter = filter_out_comment_lines('#', string_iter);
    let first_three_lines_uncommented = read_n_lines(3, &mut filtered_iter).unwrap();
    assert_eq!(first_three_lines_uncommented, "1\n3\n4\n");
}

#[test]
fn test_read_until_data_start() {
    let mut file = lines_of("Metadata:\n  - name: Stream1\n    dtype: int\n    shape: [1]\nData:\n1\n");
    let metadata_section = read_until_line_starts_with("Data:", &mut file).unwrap();
    assert_eq!(metadata_section, "Metadata:\n  - name: Stream1\n    dtype: int\n    shape: [1]\n");
    let next_line = file.next_line().unwrap().unwrap();
    assert_eq!(next_line, "1");
}

#[test]
fn read_zero_lines_touches_nothing() {
    let mut seq = lines_of("1\n2\n");
    assert_eq!(read_n_lines(0, &mut seq).unwrap(), "");
    assert_eq!(seq.next_line().unwrap().unwrap(), "1");
}

#[test]
fn read_from_empty_sequence() {
    let mut seq = LineBuffer::new();
    assert_eq!(read_n_lines(2, &mut seq).unwrap(), "");
    assert!(seq.next_line().is_none());
    assert_eq!(read_until_line_starts_with("x", &mut seq).unwrap(), "");
}

#[test]
fn read_exactly_all_then_end() {
    let mut seq = lines_of("a\nb\n");
    assert_eq!(read_n_lines(2, &mut seq).unwrap(), "a\nb\n");
    assert!(seq.next_line().is_none());
}

#[test]
fn read_keeps_empty_lines_and_spaces() {
    let mut seq = LineBuffer::from_items(vec![ok(""), ok(" x "), ok("")]);
    assert_eq!(read_n_lines(3, &mut seq).unwrap(), "\n x \n\n");
}

#[test]
fn bounded_read_propagates_failure() {
    let mut seq = LineBuffer::from_items(vec![ok("1"), failure("disk"), ok("3"), ok("4")]);
    let err = read_n_lines(3, &mut seq).unwrap_err();
    assert_eq!(err.to_string(), "disk");
    assert_eq!(seq.next_line().unwrap().unwrap(), "3");
}

#[test]
fn bounded_read_stops_before_later_failure() {
    let mut seq = LineBuffer::from_items(vec![ok("1"), ok("2"), failure("late")]);
    assert_eq!(read_n_lines(2, &mut seq).unwrap(), "1\n2\n");
    assert!(seq.next_line().unwrap().is_err());
}

#[test]
fn marker_read_propagates_failure() {
    let mut seq = LineBuffer::from_items(vec![ok("a"), failure("net"), ok("Data:"), ok("1")]);
    let err = read_until_line_starts_with("Data:", &mut seq).unwrap_err();
    assert_eq!(err.to_string(), "net");
    assert_eq!(seq.next_line().unwrap().unwrap(), "Data:");
}

#[test]
fn marker_read_ignores_failure_after_marker() {
    let mut seq = LineBuffer::from_items(vec![ok("a"), ok("Data: 3"), failure("net")]);
    assert_eq!(read_until_line_starts_with("Data:", &mut seq).unwrap(), "a\n");
    assert!(seq.next_line().unwrap().is_err());
}

#[test]
fn marker_read_without_marker_reads_all() {
    let mut seq = lines_of("a\nb\n Data:\n");
    assert_eq!(read_until_line_starts_with("Data:", &mut seq).unwrap(), "a\nb\n Data:\n");
    assert!(seq.next_line().is_none());
}

#[test]
fn marker_on_first_line_gives_empty_block() {
    let mut seq = lines_of("Data:\n1\n");
    assert_eq!(read_until_line_starts_with("Data:", &mut seq).unwrap(), "");
    assert_eq!(seq.next_line().unwrap().unwrap(), "1");
}

#[test]
fn empty_marker_matches_first_line() {
    let mut seq = lines_of("x\ny\n");
    assert_eq!(read_until_line_starts_with("", &mut seq).unwrap(), "");
    assert_eq!(seq.next_line().unwrap().unwrap(), "y");
}

#[test]
fn prefix_test_is_literal() {
    assert!(line_starts_with("Data: 1", "Data:"));
    assert!(line_starts_with("Data:", "Data:"));
    assert!(line_starts_with("abc", ""));
    assert!(!line_starts_with(" Data:", "Data:"));
    assert!(!line_starts_with("data:", "Data:"));
    assert!(!line_starts_with("Dat", "Data:"));
    assert!(line_starts_with("ünï", "ün"));
}

#[test]
fn filter_passes_failures_through() {
    let seq = LineBuffer::from_items(vec![ok("#c"), failure("io"), ok("#d"), ok("x")]);
    let mut filtered = filter_out_comment_lines('#', seq);
    assert!(filtered.next_line().unwrap().is_err());
    assert_eq!(filtered.next_line().unwrap().unwrap(), "x");
    assert!(filtered.next_line().is_none());
}

#[test]
fn filter_failure_reaches_bounded_read() {
    let seq = LineBuffer::from_items(vec![ok("1"), ok("#2"), failure("io"), ok("3")]);
    let mut filtered = filter_out_comment_lines('#', seq);
    assert_eq!(read_n_lines(3, &mut filtered).unwrap_err().to_string(), "io");
    assert_eq!(filtered.next_line().unwrap().unwrap(), "3");
}

#[test]
fn filter_needs_comment_char_at_start() {
    let seq = lines_of(" #a\n#b\nc#\n\n");
    let mut filtered = filter_out_comment_lines('#', seq);
    assert_eq!(read_n_lines(5, &mut filtered).unwrap(), " #a\nc#\n\n");
}

#[test]
fn filter_of_only_comments_is_empty() {
    let seq = lines_of("#1\n#2\n");
    let mut filtered = filter_out_comment_lines('#', seq);
    assert!(filtered.next_line().is_none());
}

#[test]
fn filter_without_comments_changes_nothing() {
    let seq = lines_of("1\n2\n3\n");
    let mut filtered = filter_out_comment_lines('%', seq);
    assert_eq!(read_n_lines(3, &mut filtered).unwrap(), "1\n2\n3\n");
}

#[test]
fn filter_then_marker_read() {
    let seq = lines_of("Metadata:\n# note\nx: 1\nData:\n7\n");
    let mut filtered = filter_out_comment_lines('#', seq);
    assert_eq!(read_until_line_starts_with("Data:", &mut filtered).unwrap(), "Metadata:\nx: 1\n");
    assert_eq!(read_n_lines(1, &mut filtered).unwrap(), "7\n");
}

#[test]
fn buffer_push_appends() {
    let mut seq = LineBuffer::new();
    seq.push(ok("a"));
    seq.push(failure("b"));
    assert_eq!(seq.next_line().unwrap().unwrap(), "a");
    assert!(seq.next_line().unwrap().is_err());
    assert!(seq.next_line().is_none());
}

#[test]
fn filter_pulls_only_what_it_hands_out() {
    let seq = lines_of("#a\nb\n#c\nd\n");
    let mut filtered = filter_out_comment_lines('#', seq);
    assert_eq!(filtered.next_line().unwrap().unwrap(), "b");
    let mut rest = filtered.into_inner();
    assert_eq!(rest.next_line().unwrap().unwrap(), "#c");
}
