use tvfile::StoreError;
use tvfile::append_content;
use tvfile::initialize_content;
use tvfile::record_line;
use tvfile::remove_content;

#[test]
fn test_tvfile_headers() {
    assert_eq!(initialize_content(), "maze_id, title, latest\n");
}

#[test]
fn test_appends_tracker_string() {
    assert_eq!(record_line(1, "title", "latest"), "1, title, latest\n");
}

#[test]
fn test_append_after_initialize_second_line() {
    let content = append_content(&initialize_content(), 82, "Hello World", "2017-08-27");
    assert_eq!(content, "maze_id, title, latest\n82, Hello World, 2017-08-27\n");
    assert_eq!(content.lines().nth(1), Some("82, Hello World, 2017-08-27"));
}

#[test]
fn test_append_order_and_line_count() {
    let mut content = initialize_content();
    content = append_content(&content, 82, "Hello World", "2017-08-27");
    content = append_content(&content, 83, "Game of Thrones", "2017-08-27");
    content = append_content(&content, 84, "Game of Thrones", "2017-08-27");
    assert_eq!(content.lines().count(), 4);
    let lines: Vec<&str> = content.lines().collect();
    assert_eq!(lines[0], "maze_id, title, latest");
    assert_eq!(lines[1], "82, Hello World, 2017-08-27");
    assert_eq!(lines[2], "83, Game of Thrones, 2017-08-27");
    assert_eq!(lines[3], "84, Game of Thrones, 2017-08-27");
}

#[test]
fn test_round_trip() {
    let mut content = initialize_content();
    content = append_content(&content, 82, "Hello World", "2017-08-27");
    content = append_content(&content, 83, "Game of Thrones", "2017-08-27");
    content = append_content(&content, 84, "Game of Thrones", "2017-08-27");
    let remaining = remove_content(&content, 83).unwrap();
    assert_eq!(
        remaining,
        "maze_id, title, latest\n82, Hello World, 2017-08-27\n84, Game of Thrones, 2017-08-27\n"
    );
}

#[test]
fn test_remove_removes_duplicates() {
    let mut content = initialize_content();
    content = append_content(&content, 5, "First", "2001-01-01");
    content = append_content(&content, 6, "Second", "2002-02-02");
    content = append_content(&content, 5, "First again", "2003-03-03");
    let remaining = remove_content(&content, 5).unwrap();
    assert_eq!(remaining, "maze_id, title, latest\n6, Second, 2002-02-02\n");
}

#[test]
fn test_remove_absent_id_no_op() {
    let mut content = initialize_content();
    content = append_content(&content, 82, "Hello World", "2017-08-27");
    let remaining = remove_content(&content, 99).unwrap();
    assert_eq!(remaining, content);
}

#[test]
fn test_remove_twice_idempotent() {
    let mut content = initialize_content();
    content = append_content(&content, 82, "Hello World", "2017-08-27");
    content = append_content(&content, 83, "Game of Thrones", "2017-08-27");
    let once = remove_content(&content, 83).unwrap();
    let twice = remove_content(&once, 83).unwrap();
    assert_eq!(twice, once);
}

#[test]
fn test_remove_parse_error_too_few_fields() {
    let content = "maze_id, title, latest\n82, Hello World\n";
    assert_eq!(remove_content(content, 82), Err(StoreError::ParseError));
}

#[test]
fn test_remove_parse_error_too_many_fields() {
    let content = "maze_id, title, latest\n82, Hello, World, 2017-08-27\n";
    assert_eq!(remove_content(content, 82), Err(StoreError::ParseError));
}

#[test]
fn test_remove_empty_content() {
    assert_eq!(remove_content("", 1), Ok(String::new()));
}

#[test]
fn test_remove_header_only() {
    let content = initialize_content();
    assert_eq!(remove_content(&content, 1), Ok(content));
}

#[test]
fn test_remove_matches_leading_zeros() {
    let content = "maze_id, title, latest\n083, Game of Thrones, 2017-08-27\n";
    let remaining = remove_content(content, 83).unwrap();
    assert_eq!(remaining, "maze_id, title, latest\n");
}

#[test]
fn test_remove_keeps_nonnumeric_id_field() {
    let content = "maze_id, title, latest\nabc, Odd Row, 2017-08-27\n";
    let remaining = remove_content(content, 83).unwrap();
    assert_eq!(remaining, content);
}
