use todolist::codec::{decode, encode};
use todolist::numbering::{generate_number, next_number};
use todolist::record::{Status, StoreError, Todo};
use todolist::service::{create_todo, delete_todo, edit_todo, get_line, renumber};
use todolist::store::{get_todo_vec, is_empty, write_lines};

fn todo(number: i32, content: &str, date: &str) -> Todo {
    Todo { number, content: content.to_string(), date: date.to_string() }
}

fn lines(items: &[&str]) -> Vec<String> {
    items.iter().map(|s| s.to_string()).collect()
}

fn three() -> Vec<Todo> {
    vec![
        todo(1, "first", "01/01/2023 10:00:00"),
        todo(2, "second", "02/01/2023 11:00:00"),
        todo(3, "third", "03/01/2023 12:00:00"),
    ]
}

#[test]
fn encode_exact_line() {
    let t = todo(1, "buy milk", "01/02/2023 10:00:00");
    assert_eq!(encode(&t), "{\"number\":1,\"content\":\"buy milk\",\"date\":\"01/02/2023 10:00:00\"}");
}

#[test]
fn encode_escapes() {
    let t = todo(-42, "a\"b\\c\nd\te\u{1}f\u{8}\u{c}\r/é", "");
    assert_eq!(
        encode(&t),
        "{\"number\":-42,\"content\":\"a\\\"b\\\\c\\nd\\te\\u0001f\\b\\f\\r/é\",\"date\":\"\"}"
    );
}

#[test]
fn encode_matches_serde_json_strings() {
    let content = "quote \" back \\ nl \n ctl \u{1f} uni ü";
    let t = todo(7, content, "now");
    let line = encode(&t);
    let quoted = serde_json::to_string(content).unwrap();
    assert!(line.contains(&quoted));
    let v: serde_json::Value = serde_json::from_str(&line).unwrap();
    assert_eq!(v["number"].as_i64(), Some(7));
    assert_eq!(v["content"].as_str(), Some(content));
    assert_eq!(v["date"].as_str(), Some("now"));
}

#[test]
fn round_trip_records() {
    let samples = vec![
        todo(1, "buy milk", "01/02/2023 10:00:00"),
        todo(i32::MAX, "", ""),
        todo(i32::MIN, "x", "y"),
        todo(0, "\"\\\u{0}\u{1f}\u{7f}", "日本語 ✓"),
        todo(120, "line\nbreak", "tab\there"),
    ];
    for t in samples {
        assert_eq!(decode(&encode(&t)), Some(t));
    }
}

#[test]
fn decode_reads_other_escapes_and_title() {
    let line = "{\"number\":5,\"title\":\"old\",\"content\":\"a\\/b\\u0041\",\"date\":\"d\"}";
    assert_eq!(decode(line), Some(todo(5, "a/bA", "d")));
}

#[test]
fn decode_rejects_malformed() {
    assert_eq!(decode(""), None);
    assert_eq!(decode("not json"), None);
    assert_eq!(decode("{\"number\":1,\"content\":\"a\"}"), None);
    assert_eq!(decode("{\"number\":\"1\",\"content\":\"a\",\"date\":\"d\"}"), None);
    assert_eq!(decode("{\"number\":01,\"content\":\"a\",\"date\":\"d\"}"), None);
    assert_eq!(decode("{\"number\":2147483648,\"content\":\"a\",\"date\":\"d\"}"), None);
    assert_eq!(decode("{\"number\":1,\"content\":\"a\",\"date\":\"d\"} "), None);
    assert_eq!(decode("{\"number\":1,\"content\":\"a\nb\",\"date\":\"d\"}"), None);
    assert_eq!(decode("{\"number\":1,\"content\":\"\\q\",\"date\":\"d\"}"), None);
}

#[test]
fn decode_number_limits() {
    let l = "{\"number\":-2147483648,\"content\":\"a\",\"date\":\"d\"}";
    assert_eq!(decode(l), Some(todo(i32::MIN, "a", "d")));
    let l = "{\"number\":-2147483649,\"content\":\"a\",\"date\":\"d\"}";
    assert_eq!(decode(l), None);
}

#[test]
fn list_skips_blank_lines() {
    let l = lines(&[
        "{\"number\":1,\"content\":\"a\",\"date\":\"d\"}",
        "",
        "  \t",
        "{\"number\":4,\"content\":\"b\",\"date\":\"e\"}",
        "",
    ]);
    assert_eq!(get_todo_vec(&l), Ok(vec![todo(1, "a", "d"), todo(4, "b", "e")]));
}

#[test]
fn list_twice_is_identical() {
    let l = write_lines(&three());
    let a = get_todo_vec(&l);
    let b = get_todo_vec(&l);
    assert_eq!(a, b);
    assert_eq!(a, Ok(three()));
}

#[test]
fn create_then_list() {
    let mut file = write_lines(&three());
    let existing = get_todo_vec(&file).unwrap();
    let t = create_todo(&existing, "fourth".to_string(), "04/01/2023 09:00:00".to_string()).unwrap();
    assert_eq!(t.number, 4);
    file.push(encode(&t));
    let listed = get_todo_vec(&file).unwrap();
    assert_eq!(listed.len(), 4);
    assert_eq!(listed[3], todo(4, "fourth", "04/01/2023 09:00:00"));
}

#[test]
fn create_after_gap_uses_max_plus_one() {
    let existing = vec![todo(7, "a", "d"), todo(2, "b", "d")];
    let t = create_todo(&existing, "c".to_string(), "d".to_string()).unwrap();
    assert_eq!(t.number, 8);
}

#[test]
fn delete_renumbers() {
    let mut todos = three();
    assert_eq!(delete_todo(2, &mut todos), Status::Success);
    assert_eq!(todos, vec![todo(1, "first", "01/01/2023 10:00:00"), todo(2, "third", "03/01/2023 12:00:00")]);
}

#[test]
fn delete_out_of_range_fails() {
    let mut todos = three();
    assert_eq!(delete_todo(0, &mut todos), Status::Failed);
    assert_eq!(delete_todo(4, &mut todos), Status::Failed);
    assert_eq!(todos, three());
}

#[test]
fn edit_out_of_range_is_noop() {
    let mut todos = vec![todo(1, "a", "d"), todo(2, "b", "e")];
    let before = write_lines(&todos);
    assert_eq!(edit_todo(&mut todos, 99, &Some("x".to_string())), Status::Failed);
    assert_eq!(write_lines(&todos), before);
}

#[test]
fn edit_in_range_changes_one_record() {
    let mut todos = three();
    assert_eq!(edit_todo(&mut todos, 2, &Some("changed".to_string())), Status::Success);
    assert_eq!(todos[0], three()[0]);
    assert_eq!(todos[1], todo(2, "changed", "02/01/2023 11:00:00"));
    assert_eq!(todos[2], three()[2]);
    assert_eq!(edit_todo(&mut todos, 1, &None), Status::Success);
    assert_eq!(todos[0], three()[0]);
}

#[test]
fn empty_store() {
    let l: Vec<String> = Vec::new();
    assert!(is_empty(&l));
    let listed = get_todo_vec(&l).unwrap();
    assert!(listed.is_empty());
    let t = create_todo(&listed, "first".to_string(), "d".to_string()).unwrap();
    assert_eq!(t.number, 1);
    assert!(!is_empty(&lines(&["x"])));
}

#[test]
fn corrupt_line_fails() {
    let l = lines(&[
        "{\"number\":1,\"content\":\"a\",\"date\":\"d\"}",
        "",
        "garbage",
        "{\"number\":2,\"content\":\"b\",\"date\":\"d\"}",
    ]);
    assert_eq!(get_todo_vec(&l), Err(StoreError::Malformed(2)));
}

#[test]
fn next_number_overflow() {
    let existing = vec![todo(i32::MAX, "a", "d")];
    assert_eq!(next_number(&existing), None);
    let mut t = todo(5, "n", "d");
    assert_eq!(generate_number(&mut t, &existing), Err(StoreError::NumberOverflow));
    assert_eq!(t, todo(5, "n", "d"));
    assert_eq!(
        create_todo(&existing, "b".to_string(), "d".to_string()),
        Err(StoreError::NumberOverflow)
    );
}

#[test]
fn generate_number_sets_next() {
    let mut t = todo(1, "n", "d");
    assert_eq!(generate_number(&mut t, &three()), Ok(()));
    assert_eq!(t, todo(4, "n", "d"));
    assert_eq!(next_number(&Vec::new()), Some(1));
}

#[test]
fn renumber_sequential() {
    let mut todos = vec![todo(9, "a", "d"), todo(4, "b", "d"), todo(-1, "c", "d")];
    renumber(&mut todos);
    let numbers: Vec<i32> = todos.iter().map(|t| t.number).collect();
    assert_eq!(numbers, vec![1, 2, 3]);
    assert_eq!(todos[2].content, "c");
}

#[test]
fn get_line_positions() {
    let todos = vec![todo(5, "a", "d"), todo(3, "b", "d"), todo(3, "c", "d")];
    assert_eq!(get_line(5, &todos), 0);
    assert_eq!(get_line(3, &todos), 1);
    assert_eq!(get_line(8, &todos), 3);
}

#[test]
fn write_lines_then_list() {
    let l = write_lines(&three());
    assert_eq!(l.len(), 3);
    assert_eq!(l[0], "{\"number\":1,\"content\":\"first\",\"date\":\"01/01/2023 10:00:00\"}");
    assert_eq!(get_todo_vec(&l), Ok(three()));
}

#[test]
fn list_skips_unicode_whitespace_lines() {
    let l = lines(&[
        "\u{b}",
        "{\"number\":1,\"content\":\"a\",\"date\":\"d\"}",
        "\u{a0}\u{85}\u{1680}",
        "\u{2000}\u{200a}\u{2028}\u{2029}\u{202f}\u{205f}\u{3000} \t\r\u{c}",
    ]);
    assert!(l[0].trim().is_empty() && l[2].trim().is_empty() && l[3].trim().is_empty());
    assert_eq!(get_todo_vec(&l), Ok(vec![todo(1, "a", "d")]));
    let bad = lines(&["\u{b}x"]);
    assert_eq!(get_todo_vec(&bad), Err(StoreError::Malformed(0)));
}
