//! Behaviour of the grouped codec: segments, names, completion states,
//! errors, and the round trip.

use must::{string_as_task_lists, task_lists_as_string, Completion, DecodeError, GroupedTask, TaskList};

const HEADER: &str = "# DO NOT MODIFY THIS FILE MANUALLY\n";

fn gtask(id: usize, state: Completion, task: &str) -> GroupedTask {
    GroupedTask { id, state, task: String::from(task) }
}

#[test]
fn decode_one_list() {
    let lists = string_as_task_lists("= home\n\t0 todo water plants\n").unwrap();
    assert_eq!(lists.len(), 1);
    assert_eq!(lists[0].name, "home");
    assert_eq!(lists[0].tasks.len(), 1);
    assert_eq!(lists[0].tasks[0].id, 0);
    assert_eq!(lists[0].tasks[0].state, Completion::Todo);
    assert_eq!(lists[0].tasks[0].task, "waterplants");
}

#[test]
fn decode_discards_preamble_before_first_marker() {
    let text = format!("{}= work\n\t1 done ship\n", HEADER);
    let lists = string_as_task_lists(&text).unwrap();
    assert_eq!(lists.len(), 1);
    assert_eq!(lists[0].name, "work");
    assert_eq!(lists[0].tasks[0].state, Completion::Done);
}

#[test]
fn decode_without_any_marker_is_empty() {
    let lists = string_as_task_lists("just some text\nand more\n").unwrap();
    assert!(lists.is_empty());
    let lists = string_as_task_lists("").unwrap();
    assert!(lists.is_empty());
}

#[test]
fn decode_states_case_insensitively() {
    let text = "= l\n\t0 ToDo a\n\t1 INPROGRESS b\n\t2 Done c\n";
    let lists = string_as_task_lists(text).unwrap();
    assert_eq!(lists[0].tasks.len(), 3);
    assert_eq!(lists[0].tasks[0].state, Completion::Todo);
    assert_eq!(lists[0].tasks[1].state, Completion::InProgress);
    assert_eq!(lists[0].tasks[2].state, Completion::Done);
}

#[test]
fn decode_skips_blank_lines_in_segment() {
    let text = "= l\n\n\t0 todo a\n   \n\t1 done b\n\n";
    let lists = string_as_task_lists(text).unwrap();
    assert_eq!(lists[0].tasks.len(), 2);
}

#[test]
fn decode_several_lists() {
    let text = "= one\n\t0 todo a\n= two\n\t1 inprogress b\n\t2 done c\n";
    let lists = string_as_task_lists(text).unwrap();
    assert_eq!(lists.len(), 2);
    assert_eq!(lists[0].name, "one");
    assert_eq!(lists[0].tasks.len(), 1);
    assert_eq!(lists[1].name, "two");
    assert_eq!(lists[1].tasks.len(), 2);
    assert_eq!(lists[1].tasks[1].id, 2);
}

#[test]
fn decode_trims_list_names_and_task_lines() {
    let text = "=   spaced name  \n  3 todo thing  \n";
    let lists = string_as_task_lists(text).unwrap();
    assert_eq!(lists[0].name, "spaced name");
    assert_eq!(lists[0].tasks[0].id, 3);
    assert_eq!(lists[0].tasks[0].task, "thing");
}

#[test]
fn unknown_completion_token_fails() {
    let err = string_as_task_lists("= l\n\t0 maybe later\n").unwrap_err();
    assert_eq!(err, DecodeError::CompletionParseError(String::from("maybe")));
}

#[test]
fn bad_id_in_segment_fails() {
    let err = string_as_task_lists("= l\n\tseven todo x\n").unwrap_err();
    assert_eq!(err, DecodeError::IdParseError(String::from("seven")));
}

#[test]
fn missing_state_token_fails() {
    let err = string_as_task_lists("= l\n\t3\n").unwrap_err();
    assert_eq!(err, DecodeError::MalformedLineError(String::from("3")));
}

#[test]
fn encode_empty_collection_is_header_alone() {
    let lists: Vec<TaskList> = Vec::new();
    assert_eq!(task_lists_as_string(&lists), HEADER);
}

#[test]
fn encode_lists_with_tab_indented_tasks() {
    let lists = vec![
        TaskList {
            name: String::from("home"),
            tasks: vec![gtask(0, Completion::Todo, "water"), gtask(1, Completion::Done, "dust")],
        },
        TaskList { name: String::from("work"), tasks: vec![gtask(2, Completion::InProgress, "ship")] },
    ];
    let text = task_lists_as_string(&lists);
    assert_eq!(
        text,
        format!("{}= home\n\t0 todo water\n\t1 done dust\n= work\n\t2 inprogress ship\n", HEADER)
    );
}

#[test]
fn round_trip_keeps_ids_and_states() {
    let lists = vec![
        TaskList {
            name: String::from("errands"),
            tasks: vec![
                gtask(0, Completion::Todo, "buy milk"),
                gtask(5, Completion::InProgress, "fix sink"),
                gtask(9, Completion::Done, "post letter"),
            ],
        },
    ];
    let reread = string_as_task_lists(&task_lists_as_string(&lists)).unwrap();
    assert_eq!(reread.len(), 1);
    assert_eq!(reread[0].name, "errands");
    assert_eq!(reread[0].tasks.len(), 3);
    for (orig, back) in lists[0].tasks.iter().zip(reread[0].tasks.iter()) {
        assert_eq!(orig.id, back.id);
        assert_eq!(orig.state, back.state);
    }
    assert_eq!(reread[0].tasks[0].task, "buymilk");
}

#[test]
fn round_trip_is_exact_for_spaceless_descriptions() {
    let lists = vec![TaskList {
        name: String::from("l"),
        tasks: vec![gtask(3, Completion::Todo, "single")],
    }];
    let reread = string_as_task_lists(&task_lists_as_string(&lists)).unwrap();
    assert_eq!(reread, lists);
}
