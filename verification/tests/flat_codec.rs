//! Behaviour of the flat codec: decoding, encoding, skipping, errors,
//! and the append mutation.

use must::{add_to_task_list, string_as_task_list, task_list_as_string, DecodeError, Task};

const HEADER: &str = "# DO NOT MODIFY THIS FILE MANUALLY\n";

#[test]
fn decode_one_task() {
    let tasks = string_as_task_list("0 buymilk\n").unwrap();
    assert_eq!(tasks.len(), 1);
    assert_eq!(tasks[0].id, 0);
    assert_eq!(tasks[0].task, "buymilk");
}

#[test]
fn decode_skips_header_comment_and_blank_lines() {
    let text = format!("{}3 water\n\n7 read\n", HEADER);
    let tasks = string_as_task_list(&text).unwrap();
    assert_eq!(tasks.len(), 2);
    assert_eq!(tasks[0].id, 3);
    assert_eq!(tasks[0].task, "water");
    assert_eq!(tasks[1].id, 7);
    assert_eq!(tasks[1].task, "read");
}

#[test]
fn decode_comment_after_leading_whitespace() {
    let tasks = string_as_task_list("   # indented comment\n1 x\n").unwrap();
    assert_eq!(tasks.len(), 1);
    assert_eq!(tasks[0].id, 1);
}

#[test]
fn decode_only_comments_and_blanks_is_empty() {
    let tasks = string_as_task_list("# one\n\n\n# two\n# three\n\n").unwrap();
    assert!(tasks.is_empty());
    let tasks = string_as_task_list("").unwrap();
    assert!(tasks.is_empty());
}

#[test]
fn decode_collapses_spaces_in_description() {
    let tasks = string_as_task_list("2 buy milk now\n").unwrap();
    assert_eq!(tasks.len(), 1);
    assert_eq!(tasks[0].id, 2);
    assert_eq!(tasks[0].task, "buymilknow");
}

#[test]
fn decode_empty_description() {
    let tasks = string_as_task_list("5 \n").unwrap();
    assert_eq!(tasks.len(), 1);
    assert_eq!(tasks[0].id, 5);
    assert_eq!(tasks[0].task, "");
}

#[test]
fn decode_bad_id_token_fails() {
    let err = string_as_task_list("x buy\n").unwrap_err();
    assert_eq!(err, DecodeError::IdParseError(String::from("x")));
}

#[test]
fn decode_reports_first_bad_line() {
    let err = string_as_task_list("1 good\nbad token here\n2 fine\n").unwrap_err();
    assert_eq!(err, DecodeError::IdParseError(String::from("bad")));
}

#[test]
fn decode_overlong_id_fails() {
    let err = string_as_task_list("99999999999999999999999999999999 too big\n").unwrap_err();
    assert_eq!(
        err,
        DecodeError::IdParseError(String::from("99999999999999999999999999999999"))
    );
}

#[test]
fn decode_whitespace_only_line_is_not_blank() {
    // a line of spaces is not empty and not a comment, so its first
    // token is the empty string, which is no identifier
    let err = string_as_task_list("   \n").unwrap_err();
    assert_eq!(err, DecodeError::IdParseError(String::from("")));
}

#[test]
fn decode_largest_id() {
    let text = format!("{} done\n", usize::MAX);
    let tasks = string_as_task_list(&text).unwrap();
    assert_eq!(tasks[0].id, usize::MAX);
    let reread = string_as_task_list(&task_list_as_string(&tasks)).unwrap();
    assert_eq!(reread, tasks);
}

#[test]
fn encode_empty_list_is_header_alone() {
    let tasks: Vec<Task> = Vec::new();
    assert_eq!(task_list_as_string(&tasks), HEADER);
}

#[test]
fn encode_tasks_one_line_each() {
    let tasks = vec![
        Task { id: 0, task: String::from("alpha") },
        Task { id: 12, task: String::from("beta gamma") },
    ];
    let text = task_list_as_string(&tasks);
    assert_eq!(text, format!("{}0 alpha\n12 beta gamma\n", HEADER));
}

#[test]
fn round_trip_keeps_ids_and_spaceless_descriptions() {
    let text = format!("{}0 one\n1 two\n2 three\n", HEADER);
    let tasks = string_as_task_list(&text).unwrap();
    let again = string_as_task_list(&task_list_as_string(&tasks)).unwrap();
    assert_eq!(tasks, again);
}

#[test]
fn decode_encode_decode_is_idempotent() {
    let text = "# note\n4 split up words\n\n9 solo\n";
    let once = string_as_task_list(text).unwrap();
    let twice = string_as_task_list(&task_list_as_string(&once)).unwrap();
    assert_eq!(once, twice);
}

#[test]
fn append_to_empty_list_uses_id_zero() {
    let mut tasks: Vec<Task> = Vec::new();
    add_to_task_list(&mut tasks, "first");
    assert_eq!(tasks.len(), 1);
    assert_eq!(tasks[0].id, 0);
    assert_eq!(tasks[0].task, "first");
}

#[test]
fn append_reuses_current_maximum_id() {
    let mut tasks = vec![
        Task { id: 4, task: String::from("a") },
        Task { id: 9, task: String::from("b") },
        Task { id: 2, task: String::from("c") },
    ];
    add_to_task_list(&mut tasks, "new one");
    assert_eq!(tasks.len(), 4);
    assert_eq!(tasks[3].id, 9);
    assert_eq!(tasks[3].task, "new one");
    assert_eq!(tasks[0].id, 4);
    assert_eq!(tasks[1].id, 9);
    assert_eq!(tasks[2].id, 2);
}

#[test]
fn add_then_reencode_example() {
    let tasks = string_as_task_list("# DO NOT MODIFY\n0 buy milk\n");
    let mut tasks = tasks.unwrap();
    assert_eq!(tasks.len(), 1);
    assert_eq!(tasks[0].id, 0);
    assert_eq!(tasks[0].task, "buymilk");
    add_to_task_list(&mut tasks, "call mom");
    assert_eq!(tasks.len(), 2);
    assert_eq!(tasks[1].id, 0);
    assert_eq!(tasks[1].task, "call mom");
    let text = task_list_as_string(&tasks);
    assert!(text.starts_with(HEADER));
    assert_eq!(text, format!("{}0 buymilk\n0 call mom\n", HEADER));
    let reread = string_as_task_list(&text).unwrap();
    assert_eq!(reread.len(), 2);
    assert_eq!(reread[0].id, 0);
    assert_eq!(reread[0].task, "buymilk");
    assert_eq!(reread[1].id, 0);
    assert_eq!(reread[1].task, "callmom");
}
