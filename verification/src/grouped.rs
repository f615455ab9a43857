//! The grouped codec: the file is cut at every `=` character, what stands
//! before the first `=` is preamble and is discarded, and each later
//! segment is one named list. A segment's first line (trimmed) is the
//! list's name; its remaining lines are `<id> <state> <description>`
//! task lines, trimmed before parsing, with whitespace-only lines
//! skipped. The state token is compared case-insensitively against
//! `todo`, `inprogress` and `done`.

use vstd::prelude::*;

use crate::chars::{
    split_on, concat_all, has_no, trim, trim_front, trim_back, lower, parses_as_usize, val_of,
    digits_of, drop_char, is_ws, lemma_split_on_len, lemma_split_on_append, lemma_split_on_whole,
    lemma_concat_split, lemma_digits_of_digits, lemma_val_of_digits, lemma_digits_clean,
    lemma_digit_not_structural, lemma_has_no_append, lemma_trim_back_append, views_of, str_chars,
    chars_string, split_on_char, concat_from, parse_usize, usize_chars, append_chars, trim_chars,
    eq_chars, fold_chars,
};
use crate::error::{DecodeError, ErrV};
use crate::flat::header_line;

verus! {

/// How far a task has come.
#[derive(Clone, Copy, Debug, PartialEq, Eq, Structural)]
pub enum Completion {
    Todo,
    InProgress,
    Done,
}

/// One line item of the grouped format: an identifier, a completion
/// state, and a free-text description.
#[derive(Debug, Clone, PartialEq, Eq)]
pub struct GroupedTask {
    pub id: usize,
    pub state: Completion,
    pub task: String,
}

/// A named, ordered group of tasks.
#[derive(Debug, Clone, PartialEq, Eq)]
pub struct TaskList {
    pub name: String,
    pub tasks: Vec<GroupedTask>,
}

/// The mathematical model of a grouped task.
pub ghost struct GroupedTaskV {
    pub id: nat,
    pub state: Completion,
    pub task: Seq<char>,
}

/// The mathematical model of a named list.
pub ghost struct TaskListV {
    pub name: Seq<char>,
    pub tasks: Seq<GroupedTaskV>,
}

impl View for GroupedTask {
    type V = GroupedTaskV;

    open spec fn view(&self) -> GroupedTaskV {
        GroupedTaskV { id: self.id as nat, state: self.state, task: self.task@ }
    }
}

impl View for TaskList {
    type V = TaskListV;

    open spec fn view(&self) -> TaskListV {
        TaskListV { name: self.name@, tasks: gtasks_view(self.tasks@) }
    }
}

/// The model of a vector of grouped tasks.
pub open spec fn gtasks_view(ts: Seq<GroupedTask>) -> Seq<GroupedTaskV> {
    ts.map_values(|t: GroupedTask| t@)
}

/// The model of a vector of lists.
pub open spec fn lists_view(ls: Seq<TaskList>) -> Seq<TaskListV> {
    ls.map_values(|l: TaskList| l@)
}

/// The canonical lowercase token of each completion state.
pub open spec fn state_token(s: Completion) -> Seq<char> {
    match s {
        Completion::Todo => "todo"@,
        Completion::InProgress => "inprogress"@,
        Completion::Done => "done"@,
    }
}

/// The state a token names, compared after ASCII case folding; `None`
/// for every unknown token.
pub open spec fn state_of_token(tok: Seq<char>) -> Option<Completion> {
    if lower(tok) == "todo"@ {
        Some(Completion::Todo)
    } else if lower(tok) == "inprogress"@ {
        Some(Completion::InProgress)
    } else if lower(tok) == "done"@ {
        Some(Completion::Done)
    } else {
        None
    }
}

/// What one task line of a segment means, after trimming: `Ok(None)`
/// for a whitespace-only line, a task for a well-formed line, and
/// otherwise the failure of the first bad token: a bad identifier, a
/// missing state token (the error carries the trimmed line), or an
/// unknown state token.
pub open spec fn grouped_line(line: Seq<char>) -> Result<Option<GroupedTaskV>, ErrV> {
    let t = trim(line);
    if t.len() == 0 {
        Ok(None)
    } else {
        let tokens = split_on(t, ' ');
        if !parses_as_usize(tokens[0]) {
            Err(ErrV::IdParse(tokens[0]))
        } else if tokens.len() < 2 {
            Err(ErrV::Malformed(t))
        } else {
            match state_of_token(tokens[1]) {
                None => Err(ErrV::CompletionParse(tokens[1])),
                Some(st) => Ok(
                    Some(
                        GroupedTaskV {
                            id: val_of(tokens[0]),
                            state: st,
                            task: concat_all(tokens.skip(2)),
                        },
                    ),
                ),
            }
        }
    }
}

/// The tasks of a segment's task lines, or the failure of the first
/// line that has one.
pub open spec fn grouped_decode_lines(lines: Seq<Seq<char>>) -> Result<Seq<GroupedTaskV>, ErrV>
    decreases lines.len(),
{
    if lines.len() == 0 {
        Ok(Seq::empty())
    } else {
        match grouped_line(lines[0]) {
            Err(e) => Err(e),
            Ok(head) => match grouped_decode_lines(lines.drop_first()) {
                Err(e) => Err(e),
                Ok(rest) => Ok(
                    match head {
                        Some(t) => seq![t] + rest,
                        None => rest,
                    },
                ),
            },
        }
    }
}

/// What one segment means: its first line, trimmed, is the name; the
/// rest are task lines.
pub open spec fn decode_segment(seg: Seq<char>) -> Result<TaskListV, ErrV> {
    let lines = split_on(seg, '\n');
    match grouped_decode_lines(lines.drop_first()) {
        Err(e) => Err(e),
        Ok(ts) => Ok(TaskListV { name: trim(lines[0]), tasks: ts }),
    }
}

/// The lists of a sequence of segments, or the failure of the first
/// segment that has one.
pub open spec fn decode_segments(segs: Seq<Seq<char>>) -> Result<Seq<TaskListV>, ErrV>
    decreases segs.len(),
{
    if segs.len() == 0 {
        Ok(Seq::empty())
    } else {
        match decode_segment(segs[0]) {
            Err(e) => Err(e),
            Ok(l) => match decode_segments(segs.drop_first()) {
                Err(e) => Err(e),
                Ok(rest) => Ok(seq![l] + rest),
            },
        }
    }
}

/// What a whole file of the grouped format means: everything before the
/// first `=` is discarded, each later segment is one list.
pub open spec fn grouped_decode(text: Seq<char>) -> Result<Seq<TaskListV>, ErrV> {
    decode_segments(split_on(text, '=').drop_first())
}

/// Decodes a file of the grouped format, as `grouped_decode` describes.
pub fn string_as_task_lists(contents: &str) -> (r: Result<Vec<TaskList>, DecodeError>)
    ensures
        match r {
            Ok(ls) => grouped_decode(contents@) == Ok::<Seq<TaskListV>, ErrV>(lists_view(ls@)),
            Err(e) => grouped_decode(contents@) == Err::<Seq<TaskListV>, ErrV>(e@),
        },
{
    let cs = str_chars(contents);
    let segs = split_on_char(&cs, '=');
    let ghost sv = views_of(segs@);
    let ghost body = sv.drop_first();
    let mut out: Vec<TaskList> = Vec::new();
    let mut i: usize = 1;
    proof {
        lemma_split_on_len(contents@, '=');
        assert(body =~= sv.skip(1));
        assert(lists_view(out@) =~= Seq::<TaskListV>::empty());
        assert(decode_segments(body) == match decode_segments(sv.skip(1)) {
            Ok(rest) => Ok::<Seq<TaskListV>, ErrV>(lists_view(out@) + rest),
            Err(e) => Err::<Seq<TaskListV>, ErrV>(e),
        }) by {
            if decode_segments(body) is Ok {
                assert(lists_view(out@) + decode_segments(body)->Ok_0 =~= decode_segments(
                    body,
                )->Ok_0);
            }
        }
    }
    while i < segs.len()
        invariant
            1 <= i <= segs@.len() || (segs@.len() == 0 && i == 1),
            sv == views_of(segs@),
            sv == split_on(contents@, '='),
            sv.len() >= 1,
            body == sv.drop_first(),
            decode_segments(body) == (match decode_segments(sv.skip(i as int)) {
                Ok(rest) => Ok::<Seq<TaskListV>, ErrV>(lists_view(out@) + rest),
                Err(e) => Err::<Seq<TaskListV>, ErrV>(e),
            }),
        decreases segs@.len() - i,
    {
        proof {
            assert(sv.skip(i as int).len() > 0);
            assert(sv.skip(i as int)[0] == sv[i as int]);
            assert(sv.skip(i as int).drop_first() =~= sv.skip(i + 1));
        }
        let ghost out0 = out@;
        let seg = &segs[i];
        proof {
            assert(seg@ == sv[i as int]);
        }
        let lines = split_on_char(seg, '\n');
        let ghost lv = views_of(lines@);
        proof {
            lemma_split_on_len(seg@, '\n');
        }
        let name_chars = trim_chars(&lines[0]);
        let name = chars_string(&name_chars);
        let mut tasks: Vec<GroupedTask> = Vec::new();
        let mut j: usize = 1;
        proof {
            assert(lv.drop_first() =~= lv.skip(1));
            assert(gtasks_view(tasks@) =~= Seq::<GroupedTaskV>::empty());
            assert(grouped_decode_lines(lv.drop_first()) == match grouped_decode_lines(
                lv.skip(1),
            ) {
                Ok(rest) => Ok::<Seq<GroupedTaskV>, ErrV>(gtasks_view(tasks@) + rest),
                Err(e) => Err::<Seq<GroupedTaskV>, ErrV>(e),
            }) by {
                if grouped_decode_lines(lv.drop_first()) is Ok {
                    assert(gtasks_view(tasks@) + grouped_decode_lines(lv.drop_first())->Ok_0
                        =~= grouped_decode_lines(lv.drop_first())->Ok_0);
                }
            }
        }
        while j < lines.len()
            invariant
                1 <= j <= lines@.len() || (lines@.len() == 0 && j == 1),
                lv == views_of(lines@),
                lv == split_on(sv[i as int], '\n'),
                lv.len() >= 1,
                0 <= i < sv.len(),
                sv == split_on(contents@, '='),
                body == sv.drop_first(),
                decode_segments(body) == (match decode_segments(sv.skip(i as int)) {
                    Ok(rest) => Ok::<Seq<TaskListV>, ErrV>(lists_view(out@) + rest),
                    Err(e) => Err::<Seq<TaskListV>, ErrV>(e),
                }),
                grouped_decode_lines(lv.drop_first()) == (match grouped_decode_lines(
                    lv.skip(j as int),
                ) {
                    Ok(rest) => Ok::<Seq<GroupedTaskV>, ErrV>(gtasks_view(tasks@) + rest),
                    Err(e) => Err::<Seq<GroupedTaskV>, ErrV>(e),
                }),
            decreases lines@.len() - j,
        {
            proof {
                assert(lv.skip(j as int).len() > 0);
                assert(lv.skip(j as int)[0] == lv[j as int]);
                assert(lv.skip(j as int).drop_first() =~= lv.skip(j + 1));
            }
            let ghost tasks0 = tasks@;
            let line = &lines[j];
            proof {
                assert(line@ == lv[j as int]);
            }
            let t = trim_chars(line);
            if t.len() == 0 {
                proof {
                    assert(grouped_line(lv[j as int]) == Ok::<Option<GroupedTaskV>, ErrV>(None));
                }
            } else {
                let tokens = split_on_char(&t, ' ');
                proof {
                    lemma_split_on_len(t@, ' ');
                    assert(views_of(tokens@)[0] == tokens@[0]@);
                }
                match parse_usize(&tokens[0]) {
                    None => {
                        let token = chars_string(&tokens[0]);
                        proof {
                            assert(grouped_line(lv[j as int]) == Err::<
                                Option<GroupedTaskV>,
                                ErrV,
                            >(ErrV::IdParse(token@)));
                            lemma_grouped_error_chain(
                                contents@,
                                sv,
                                lv,
                                i as int,
                                j as int,
                                ErrV::IdParse(token@),
                                lists_view(out@),
                                gtasks_view(tasks0),
                            );
                        }
                        return Err(DecodeError::IdParseError(token));
                    },
                    Some(id) => {
                        if tokens.len() < 2 {
                            let whole = chars_string(&t);
                            proof {
                                assert(grouped_line(lv[j as int]) == Err::<
                                    Option<GroupedTaskV>,
                                    ErrV,
                                >(ErrV::Malformed(whole@)));
                                lemma_grouped_error_chain(
                                    contents@,
                                    sv,
                                    lv,
                                    i as int,
                                    j as int,
                                    ErrV::Malformed(whole@),
                                    lists_view(out@),
                                    gtasks_view(tasks0),
                                );
                            }
                            return Err(DecodeError::MalformedLineError(whole));
                        }
                        let low = fold_chars(&tokens[1]);
                        proof {
                            assert(views_of(tokens@)[1] == tokens@[1]@);
                        }
                        let todo_t = str_chars("todo");
                        let inprogress_t = str_chars("inprogress");
                        let done_t = str_chars("done");
                        let state: Completion;
                        if eq_chars(&low, &todo_t) {
                            state = Completion::Todo;
                        } else if eq_chars(&low, &inprogress_t) {
                            state = Completion::InProgress;
                        } else if eq_chars(&low, &done_t) {
                            state = Completion::Done;
                        } else {
                            let token = chars_string(&tokens[1]);
                            proof {
                                assert(state_of_token(tokens@[1]@) is None);
                                assert(grouped_line(lv[j as int]) == Err::<
                                    Option<GroupedTaskV>,
                                    ErrV,
                                >(ErrV::CompletionParse(token@)));
                                lemma_grouped_error_chain(
                                    contents@,
                                    sv,
                                    lv,
                                    i as int,
                                    j as int,
                                    ErrV::CompletionParse(token@),
                                    lists_view(out@),
                                    gtasks_view(tasks0),
                                );
                            }
                            return Err(DecodeError::CompletionParseError(token));
                        }
                        proof {
                            assert(state_of_token(tokens@[1]@) == Some(state));
                        }
                        let desc = concat_from(&tokens, 2);
                        let task = GroupedTask { id, state, task: chars_string(&desc) };
                        let ghost tv = GroupedTaskV { id: id as nat, state, task: desc@ };
                        proof {
                            assert(grouped_line(lv[j as int]) == Ok::<Option<GroupedTaskV>, ErrV>(
                                Some(tv),
                            ));
                        }
                        tasks.push(task);
                        proof {
                            assert(gtasks_view(tasks@) =~= gtasks_view(tasks0).push(tv));
                            let tail = grouped_decode_lines(lv.skip(j + 1));
                            if tail is Ok {
                                assert(gtasks_view(tasks0) + (seq![tv] + tail->Ok_0)
                                    =~= gtasks_view(tasks@) + tail->Ok_0);
                            }
                        }
                    },
                }
            }
            j = j + 1;
        }
        proof {
            assert(lv.skip(lines@.len() as int) =~= Seq::<Seq<char>>::empty());
            assert(grouped_decode_lines(lv.skip(lines@.len() as int)) == Ok::<
                Seq<GroupedTaskV>,
                ErrV,
            >(Seq::empty()));
            assert(gtasks_view(tasks@) + Seq::<GroupedTaskV>::empty() =~= gtasks_view(tasks@));
        }
        let list = TaskList { name, tasks };
        let ghost listv = TaskListV { name: name_chars@, tasks: gtasks_view(list.tasks@) };
        proof {
            assert(list@ == listv);
            assert(decode_segment(sv[i as int]) == Ok::<TaskListV, ErrV>(listv));
        }
        out.push(list);
        proof {
            assert(lists_view(out@) =~= lists_view(out0).push(listv));
            let tail = decode_segments(sv.skip(i + 1));
            if tail is Ok {
                assert(lists_view(out0) + (seq![listv] + tail->Ok_0) =~= lists_view(out@)
                    + tail->Ok_0);
            }
        }
        i = i + 1;
    }
    proof {
        if segs@.len() == 0 {
            assert(sv.len() >= 1);
            assert(false);
        }
        assert(sv.skip(segs@.len() as int) =~= Seq::<Seq<char>>::empty());
        assert(decode_segments(sv.skip(segs@.len() as int)) == Ok::<Seq<TaskListV>, ErrV>(
            Seq::empty(),
        ));
        assert(lists_view(out@) + Seq::<TaskListV>::empty() =~= lists_view(out@));
    }
    Ok(out)
}

/// The line one grouped task prints as: a leading tab, the identifier,
/// the state token, the description, a final newline.
pub open spec fn grouped_task_line(t: GroupedTaskV) -> Seq<char> {
    seq!['\t'] + digits_of(t.id) + seq![' '] + state_token(t.state) + seq![' '] + t.task
        + seq!['\n']
}

/// The lines all tasks of one list print as, in order.
pub open spec fn grouped_tasks_text(ts: Seq<GroupedTaskV>) -> Seq<char>
    decreases ts.len(),
{
    if ts.len() == 0 {
        Seq::empty()
    } else {
        grouped_task_line(ts[0]) + grouped_tasks_text(ts.drop_first())
    }
}

/// The block one list prints as: `= <name>` and then its task lines.
pub open spec fn list_text(l: TaskListV) -> Seq<char> {
    seq!['=', ' '] + l.name + seq!['\n'] + grouped_tasks_text(l.tasks)
}

/// The blocks all lists print as, in order.
pub open spec fn lists_text(ls: Seq<TaskListV>) -> Seq<char>
    decreases ls.len(),
{
    if ls.len() == 0 {
        Seq::empty()
    } else {
        list_text(ls[0]) + lists_text(ls.drop_first())
    }
}

/// The text a whole collection of lists prints as: the fixed header
/// line, then one block per list.
pub open spec fn grouped_encode(ls: Seq<TaskListV>) -> Seq<char> {
    header_line() + seq!['\n'] + lists_text(ls)
}

/// Encoding one more task appends that task's line.
proof fn lemma_grouped_tasks_text_snoc(ts: Seq<GroupedTaskV>, t: GroupedTaskV)
    ensures
        grouped_tasks_text(ts.push(t)) == grouped_tasks_text(ts) + grouped_task_line(t),
    decreases ts.len(),
{
    if ts.len() == 0 {
        assert(ts.push(t)[0] == t);
        assert(ts.push(t).drop_first() =~= Seq::<GroupedTaskV>::empty());
        assert(grouped_tasks_text(Seq::<GroupedTaskV>::empty()) == Seq::<char>::empty());
        assert(grouped_tasks_text(ts.push(t)) == grouped_task_line(t) + grouped_tasks_text(
            ts.push(t).drop_first(),
        ));
        assert(grouped_task_line(t) + Seq::<char>::empty() =~= grouped_tasks_text(ts)
            + grouped_task_line(t));
    } else {
        assert(ts.push(t)[0] == ts[0]);
        assert(ts.push(t).drop_first() =~= ts.drop_first().push(t));
        lemma_grouped_tasks_text_snoc(ts.drop_first(), t);
        assert(grouped_tasks_text(ts.push(t)) == grouped_task_line(ts[0]) + (grouped_tasks_text(
            ts.drop_first(),
        ) + grouped_task_line(t)));
        assert(grouped_task_line(ts[0]) + (grouped_tasks_text(ts.drop_first())
            + grouped_task_line(t)) =~= (grouped_task_line(ts[0]) + grouped_tasks_text(
            ts.drop_first(),
        )) + grouped_task_line(t));
    }
}

/// Encoding one more list appends that list's block.
proof fn lemma_lists_text_snoc(ls: Seq<TaskListV>, l: TaskListV)
    ensures
        lists_text(ls.push(l)) == lists_text(ls) + list_text(l),
    decreases ls.len(),
{
    if ls.len() == 0 {
        assert(ls.push(l)[0] == l);
        assert(ls.push(l).drop_first() =~= Seq::<TaskListV>::empty());
        assert(lists_text(Seq::<TaskListV>::empty()) == Seq::<char>::empty());
        assert(lists_text(ls.push(l)) == list_text(l) + lists_text(ls.push(l).drop_first()));
        assert(list_text(l) + Seq::<char>::empty() =~= lists_text(ls) + list_text(l));
    } else {
        assert(ls.push(l)[0] == ls[0]);
        assert(ls.push(l).drop_first() =~= ls.drop_first().push(l));
        lemma_lists_text_snoc(ls.drop_first(), l);
        assert(lists_text(ls.push(l)) == list_text(ls[0]) + (lists_text(ls.drop_first())
            + list_text(l)));
        assert(list_text(ls[0]) + (lists_text(ls.drop_first()) + list_text(l)) =~= (list_text(
            ls[0],
        ) + lists_text(ls.drop_first())) + list_text(l));
    }
}

/// The canonical characters of one completion state.
fn state_chars(s: Completion) -> (r: Vec<char>)
    ensures
        r@ == state_token(s),
{
    match s {
        Completion::Todo => str_chars("todo"),
        Completion::InProgress => str_chars("inprogress"),
        Completion::Done => str_chars("done"),
    }
}

/// Encodes a collection of lists as file text, as `grouped_encode`
/// describes: the fixed header line, then per list a `= <name>` line
/// followed by one tab-indented `<id> <state> <description>` line per
/// task, each line newline-terminated.
pub fn task_lists_as_string(task_lists: &Vec<TaskList>) -> (r: String)
    ensures
        r@ == grouped_encode(lists_view(task_lists@)),
{
    let ghost lsv = lists_view(task_lists@);
    let mut out: Vec<char> = str_chars("# DO NOT MODIFY THIS FILE MANUALLY");
    out.push('\n');
    proof {
        assert(out@ =~= header_line() + seq!['\n']);
        assert(lsv.take(0) =~= Seq::<TaskListV>::empty());
        assert(out@ + Seq::<char>::empty() =~= out@);
    }
    let mut i: usize = 0;
    while i < task_lists.len()
        invariant
            0 <= i <= task_lists@.len(),
            lsv == lists_view(task_lists@),
            out@ == header_line() + seq!['\n'] + lists_text(lsv.take(i as int)),
        decreases task_lists@.len() - i,
    {
        let ghost out0 = out@;
        let l = &task_lists[i];
        proof {
            assert(l@ == lsv[i as int]);
        }
        out.push('=');
        out.push(' ');
        let name = str_chars(l.name.as_str());
        append_chars(&mut out, &name);
        out.push('\n');
        let ghost base = out@;
        let ghost tsv = lsv[i as int].tasks;
        proof {
            assert(tsv == gtasks_view(l.tasks@));
            assert(tsv.take(0) =~= Seq::<GroupedTaskV>::empty());
            assert(base + Seq::<char>::empty() =~= base);
        }
        let mut j: usize = 0;
        while j < l.tasks.len()
            invariant
                0 <= j <= l.tasks@.len(),
                tsv == gtasks_view(l.tasks@),
                out@ == base + grouped_tasks_text(tsv.take(j as int)),
            decreases l.tasks@.len() - j,
        {
            let ghost outj = out@;
            let t = &l.tasks[j];
            proof {
                assert(t@ == tsv[j as int]);
            }
            out.push('\t');
            let digits = usize_chars(t.id);
            append_chars(&mut out, &digits);
            out.push(' ');
            let state = state_chars(t.state);
            append_chars(&mut out, &state);
            out.push(' ');
            let desc = str_chars(t.task.as_str());
            append_chars(&mut out, &desc);
            out.push('\n');
            proof {
                assert(out@ =~= outj + grouped_task_line(tsv[j as int]));
                assert(tsv.take(j + 1) =~= tsv.take(j as int).push(tsv[j as int]));
                lemma_grouped_tasks_text_snoc(tsv.take(j as int), tsv[j as int]);
                assert(outj + grouped_task_line(tsv[j as int]) =~= base + grouped_tasks_text(
                    tsv.take(j + 1),
                ));
            }
            j = j + 1;
        }
        proof {
            assert(tsv.take(l.tasks@.len() as int) =~= tsv);
            assert(out@ == base + grouped_tasks_text(tsv));
            assert(base =~= out0 + (seq!['=', ' '] + lsv[i as int].name + seq!['\n']));
            assert(out@ =~= out0 + list_text(lsv[i as int]));
            assert(lsv.take(i + 1) =~= lsv.take(i as int).push(lsv[i as int]));
            lemma_lists_text_snoc(lsv.take(i as int), lsv[i as int]);
            assert(out0 + list_text(lsv[i as int]) =~= header_line() + seq!['\n'] + lists_text(
                lsv.take(i + 1),
            ));
        }
        i = i + 1;
    }
    proof {
        assert(lsv.take(task_lists@.len() as int) =~= lsv);
    }
    chars_string(&out)
}

/// A failure of one task line is the failure of the whole decode.
proof fn lemma_grouped_error_chain(
    text: Seq<char>,
    sv: Seq<Seq<char>>,
    lv: Seq<Seq<char>>,
    i: int,
    j: int,
    e: ErrV,
    pre_lists: Seq<TaskListV>,
    pre_tasks: Seq<GroupedTaskV>,
)
    requires
        sv == split_on(text, '='),
        0 <= i < sv.len(),
        lv == split_on(sv[i], '\n'),
        1 <= j < lv.len(),
        grouped_line(lv[j]) == Err::<Option<GroupedTaskV>, ErrV>(e),
        grouped_decode_lines(lv.drop_first()) == (match grouped_decode_lines(lv.skip(j)) {
            Ok(rest) => Ok::<Seq<GroupedTaskV>, ErrV>(pre_tasks + rest),
            Err(e2) => Err::<Seq<GroupedTaskV>, ErrV>(e2),
        }),
        decode_segments(sv.drop_first()) == (match decode_segments(sv.skip(i)) {
            Ok(rest) => Ok::<Seq<TaskListV>, ErrV>(pre_lists + rest),
            Err(e2) => Err::<Seq<TaskListV>, ErrV>(e2),
        }),
    ensures
        grouped_decode(text) == Err::<Seq<TaskListV>, ErrV>(e),
{
    assert(lv.skip(j).len() > 0);
    assert(lv.skip(j)[0] == lv[j]);
    assert(grouped_decode_lines(lv.skip(j)) == Err::<Seq<GroupedTaskV>, ErrV>(e));
    assert(grouped_decode_lines(lv.drop_first()) == Err::<Seq<GroupedTaskV>, ErrV>(e));
    assert(decode_segment(sv[i]) == Err::<TaskListV, ErrV>(e));
    assert(sv.skip(i).len() > 0);
    assert(sv.skip(i)[0] == sv[i]);
    assert(decode_segments(sv.skip(i)) == Err::<Seq<TaskListV>, ErrV>(e));
    assert(decode_segments(sv.drop_first()) == Err::<Seq<TaskListV>, ErrV>(e));
}

/// What encoding asks of one task: the identifier fits in `usize`, and
/// the description holds no newline and no `=` (either would change the
/// line or segment structure of the file).
pub open spec fn task_encodable(t: GroupedTaskV) -> bool {
    t.id <= usize::MAX && has_no(t.task, '\n') && has_no(t.task, '=')
}

/// What encoding asks of one list: a name free of newlines and of `=`,
/// and encodable tasks.
pub open spec fn list_encodable(l: TaskListV) -> bool {
    has_no(l.name, '\n') && has_no(l.name, '=') && forall|k: int|
        0 <= k < l.tasks.len() ==> task_encodable(#[trigger] l.tasks[k])
}

/// A task as the codec re-reads it: identifier and state kept, the
/// description's trailing whitespace and inner spaces lost.
pub open spec fn reread_gtask(t: GroupedTaskV) -> GroupedTaskV {
    GroupedTaskV { id: t.id, state: t.state, task: drop_char(trim_back(t.task), ' ') }
}

/// A list as the codec re-reads it: the name trimmed, each task re-read.
pub open spec fn reread_list(l: TaskListV) -> TaskListV {
    TaskListV { name: trim(l.name), tasks: l.tasks.map_values(|t: GroupedTaskV| reread_gtask(t)) }
}

/// The canonical state tokens are non-empty lowercase words free of the
/// structural characters, and each names its own state.
proof fn lemma_state_token_facts(s: Completion)
    ensures
        state_token(s).len() > 0,
        has_no(state_token(s), ' '),
        has_no(state_token(s), '\n'),
        has_no(state_token(s), '='),
        !is_ws(state_token(s).last()),
        state_of_token(state_token(s)) == Some(s),
{
    reveal_strlit("todo");
    reveal_strlit("inprogress");
    reveal_strlit("done");
    let tok = state_token(s);
    assert(lower(tok) =~= tok);
    match s {
        Completion::Todo => {
            assert(tok.last() == 'o');
        },
        Completion::InProgress => {
            assert(tok.last() == 's');
            assert(lower(tok) != "todo"@);
        },
        Completion::Done => {
            assert(tok.last() == 'e');
            assert(lower(tok) != "todo"@) by {
                assert(tok[0] == 'd');
                assert("todo"@[0] == 't');
            }
            assert(lower(tok) != "inprogress"@);
        },
    }
}

/// A task line without its final newline.
pub open spec fn grouped_task_core(t: GroupedTaskV) -> Seq<char> {
    seq!['\t'] + digits_of(t.id) + seq![' '] + state_token(t.state) + seq![' '] + t.task
}

/// Reading back the line one task prints as yields that task re-read.
proof fn lemma_grouped_line_core(t: GroupedTaskV)
    requires
        task_encodable(t),
    ensures
        grouped_line(grouped_task_core(t)) == Ok::<Option<GroupedTaskV>, ErrV>(
            Some(reread_gtask(t)),
        ),
        has_no(grouped_task_core(t), '\n'),
        has_no(grouped_task_core(t), '='),
{
    let core = grouped_task_core(t);
    let d = digits_of(t.id);
    let tok = state_token(t.state);
    lemma_digits_of_digits(t.id);
    lemma_val_of_digits(t.id);
    lemma_digits_clean(t.id);
    lemma_state_token_facts(t.state);
    lemma_digit_not_structural(d[0]);
    // the line is free of newlines and of `=`
    assert(has_no(seq!['\t'], '\n') && has_no(seq!['\t'], '='));
    assert(has_no(seq![' '], '\n') && has_no(seq![' '], '='));
    lemma_has_no_append(seq!['\t'], d, '\n');
    lemma_has_no_append(seq!['\t'] + d, seq![' '], '\n');
    lemma_has_no_append(seq!['\t'] + d + seq![' '], tok, '\n');
    lemma_has_no_append(seq!['\t'] + d + seq![' '] + tok, seq![' '], '\n');
    lemma_has_no_append(seq!['\t'] + d + seq![' '] + tok + seq![' '], t.task, '\n');
    lemma_has_no_append(seq!['\t'], d, '=');
    lemma_has_no_append(seq!['\t'] + d, seq![' '], '=');
    lemma_has_no_append(seq!['\t'] + d + seq![' '], tok, '=');
    lemma_has_no_append(seq!['\t'] + d + seq![' '] + tok, seq![' '], '=');
    lemma_has_no_append(seq!['\t'] + d + seq![' '] + tok + seq![' '], t.task, '=');
    // trimming strips the tab in front and whatever whitespace ends the
    // description
    let mid = d + seq![' '] + tok + seq![' '] + t.task;
    assert(core.len() > 0);
    assert(core[0] == '\t');
    assert(core.drop_first() =~= mid);
    assert(trim_front(core) == trim_front(mid));
    assert(mid[0] == d[0]);
    assert(!is_ws(mid[0]));
    assert(trim_front(mid) == mid);
    let a = d + seq![' '] + tok;
    let b = seq![' '] + t.task;
    assert(mid =~= a + b);
    lemma_trim_back_append(a, b);
    lemma_trim_back_append(seq![' '], t.task);
    let tb = trim_back(t.task);
    let t_trim = trim(core);
    if tb.len() > 0 {
        assert(trim_back(b) == seq![' '] + tb);
        assert(trim_back(b).len() > 0);
        assert(t_trim == a + (seq![' '] + tb));
        assert(t_trim =~= d + seq![' '] + (tok + seq![' '] + tb));
        lemma_split_on_append(d, tok + seq![' '] + tb, ' ');
        lemma_split_on_append(tok, tb, ' ');
        let tokens = split_on(t_trim, ' ');
        assert(tokens == seq![d] + split_on(tok + seq![' '] + tb, ' '));
        assert(split_on(tok + seq![' '] + tb, ' ') == seq![tok] + split_on(tb, ' '));
        lemma_split_on_len(tb, ' ');
        assert(tokens[0] == d);
        assert(tokens[1] == (seq![tok] + split_on(tb, ' '))[0]);
        assert(tokens[1] == tok);
        assert(tokens.len() >= 2);
        assert(parses_as_usize(d));
        assert(tokens.skip(2) =~= split_on(tb, ' '));
        lemma_concat_split(tb, ' ');
        assert(concat_all(tokens.skip(2)) == drop_char(tb, ' '));
        assert(t_trim.len() > 0);
        assert(state_of_token(tokens[1]) == Some(t.state));
        assert(val_of(tokens[0]) == t.id);
        assert(grouped_line(core) == Ok::<Option<GroupedTaskV>, ErrV>(Some(reread_gtask(t))));
    } else {
        assert(trim_back(seq![' ']) == trim_back(Seq::<char>::empty())) by {
            assert(is_ws(seq![' '].last()));
            assert(seq![' '].drop_last() =~= Seq::<char>::empty());
        }
        assert(trim_back(b).len() == 0);
        assert(t_trim == trim_back(a));
        assert(a.last() == tok.last());
        assert(!is_ws(a.last()));
        assert(a.len() > 0);
        assert(trim_back(a) == a);
        assert(t_trim =~= d + seq![' '] + tok);
        lemma_split_on_append(d, tok, ' ');
        lemma_split_on_whole(tok, ' ');
        let tokens = split_on(t_trim, ' ');
        assert(tokens == seq![d] + seq![tok]);
        assert(tokens[0] == d);
        assert(tokens[1] == tok);
        assert(tokens.len() == 2);
        assert(parses_as_usize(d));
        assert(tokens.skip(2) =~= Seq::<Seq<char>>::empty());
        assert(concat_all(tokens.skip(2)) == Seq::<char>::empty());
        assert(drop_char(tb, ' ') == tb);
        assert(tb =~= Seq::<char>::empty());
        assert(t_trim.len() > 0);
        assert(state_of_token(tokens[1]) == Some(t.state));
        assert(val_of(tokens[0]) == t.id);
        assert(grouped_line(core) == Ok::<Option<GroupedTaskV>, ErrV>(Some(reread_gtask(t))));
    }
}

/// Decoding the task lines one list's tasks print as yields those tasks
/// re-read; the text is free of `=`.
proof fn lemma_decode_tasks_text(ts: Seq<GroupedTaskV>)
    requires
        forall|k: int| 0 <= k < ts.len() ==> task_encodable(#[trigger] ts[k]),
    ensures
        grouped_decode_lines(split_on(grouped_tasks_text(ts), '\n')) == Ok::<
            Seq<GroupedTaskV>,
            ErrV,
        >(ts.map_values(|t: GroupedTaskV| reread_gtask(t))),
        has_no(grouped_tasks_text(ts), '='),
    decreases ts.len(),
{
    let reread = |t: GroupedTaskV| reread_gtask(t);
    if ts.len() == 0 {
        let lines = split_on(grouped_tasks_text(ts), '\n');
        assert(lines == seq![Seq::<char>::empty()]);
        assert(lines.len() == 1);
        assert(trim(lines[0]).len() == 0);
        assert(grouped_line(lines[0]) == Ok::<Option<GroupedTaskV>, ErrV>(None));
        assert(lines.drop_first() =~= Seq::<Seq<char>>::empty());
        assert(grouped_decode_lines(lines.drop_first()) == Ok::<Seq<GroupedTaskV>, ErrV>(
            Seq::empty(),
        ));
        assert(ts.map_values(reread) =~= Seq::<GroupedTaskV>::empty());
    } else {
        let t = ts[0];
        let rest = ts.drop_first();
        let core = grouped_task_core(t);
        lemma_grouped_line_core(t);
        assert(grouped_tasks_text(ts) == grouped_task_line(t) + grouped_tasks_text(rest));
        assert(grouped_task_line(t) =~= core + seq!['\n']);
        assert(grouped_tasks_text(ts) =~= core + seq!['\n'] + grouped_tasks_text(rest));
        assert forall|k: int| 0 <= k < rest.len() implies task_encodable(#[trigger] rest[k]) by {
            assert(rest[k] == ts[k + 1]);
        }
        lemma_decode_tasks_text(rest);
        lemma_split_on_append(core, grouped_tasks_text(rest), '\n');
        let lines = split_on(grouped_tasks_text(ts), '\n');
        assert(lines == seq![core] + split_on(grouped_tasks_text(rest), '\n'));
        lemma_split_on_len(grouped_tasks_text(rest), '\n');
        assert(lines.len() > 0);
        assert(lines[0] == core);
        assert(lines.drop_first() =~= split_on(grouped_tasks_text(rest), '\n'));
        assert(grouped_decode_lines(lines) == Ok::<Seq<GroupedTaskV>, ErrV>(
            seq![reread_gtask(t)] + rest.map_values(reread),
        ));
        assert(seq![reread_gtask(t)] + rest.map_values(reread) =~= ts.map_values(reread));
        lemma_has_no_append(core, seq!['\n'], '=');
        lemma_has_no_append(core + seq!['\n'], grouped_tasks_text(rest), '=');
    }
}

/// The text of one segment, as it stands after the `=` that opens it.
pub open spec fn seg_content(l: TaskListV) -> Seq<char> {
    seq![' '] + l.name + seq!['\n'] + grouped_tasks_text(l.tasks)
}

/// Decoding the segment one list prints as yields that list re-read;
/// the segment is free of `=`.
proof fn lemma_decode_seg_content(l: TaskListV)
    requires
        list_encodable(l),
    ensures
        decode_segment(seg_content(l)) == Ok::<TaskListV, ErrV>(reread_list(l)),
        has_no(seg_content(l), '='),
{
    let first = seq![' '] + l.name;
    assert(seg_content(l) =~= first + seq!['\n'] + grouped_tasks_text(l.tasks));
    lemma_has_no_append(seq![' '], l.name, '\n');
    lemma_split_on_append(first, grouped_tasks_text(l.tasks), '\n');
    lemma_decode_tasks_text(l.tasks);
    let lines = split_on(seg_content(l), '\n');
    assert(lines == seq![first] + split_on(grouped_tasks_text(l.tasks), '\n'));
    lemma_split_on_len(grouped_tasks_text(l.tasks), '\n');
    assert(lines.len() > 0);
    assert(lines[0] == first);
    assert(lines.drop_first() =~= split_on(grouped_tasks_text(l.tasks), '\n'));
    assert(first[0] == ' ');
    assert(is_ws(first[0]));
    assert(first.drop_first() =~= l.name);
    assert(trim_front(first) == trim_front(l.name));
    assert(trim(first) == trim(l.name));
    lemma_has_no_append(seq![' '], l.name, '=');
    lemma_has_no_append(first, seq!['\n'], '=');
    lemma_has_no_append(first + seq!['\n'], grouped_tasks_text(l.tasks), '=');
}

/// Decoding the segments all lists print as yields those lists re-read.
proof fn lemma_decode_segments_map(ls: Seq<TaskListV>)
    requires
        forall|k: int| 0 <= k < ls.len() ==> list_encodable(#[trigger] ls[k]),
    ensures
        decode_segments(ls.map_values(|l: TaskListV| seg_content(l))) == Ok::<
            Seq<TaskListV>,
            ErrV,
        >(ls.map_values(|l: TaskListV| reread_list(l))),
    decreases ls.len(),
{
    let content = |l: TaskListV| seg_content(l);
    let reread = |l: TaskListV| reread_list(l);
    if ls.len() == 0 {
        assert(ls.map_values(content) =~= Seq::<Seq<char>>::empty());
        assert(ls.map_values(reread) =~= Seq::<TaskListV>::empty());
    } else {
        let rest = ls.drop_first();
        assert forall|k: int| 0 <= k < rest.len() implies list_encodable(#[trigger] rest[k]) by {
            assert(rest[k] == ls[k + 1]);
        }
        lemma_decode_seg_content(ls[0]);
        lemma_decode_segments_map(rest);
        let segs = ls.map_values(content);
        assert(segs.len() > 0);
        assert(segs[0] == seg_content(ls[0]));
        assert(segs.drop_first() =~= rest.map_values(content));
        assert(decode_segments(segs) == Ok::<Seq<TaskListV>, ErrV>(
            seq![reread_list(ls[0])] + rest.map_values(reread),
        ));
        assert(seq![reread_list(ls[0])] + rest.map_values(reread) =~= ls.map_values(reread));
    }
}

/// Splitting encoded text on `=` yields the preamble and one segment
/// per list.
proof fn lemma_split_lists(pre: Seq<char>, ls: Seq<TaskListV>)
    requires
        has_no(pre, '='),
        forall|k: int| 0 <= k < ls.len() ==> list_encodable(#[trigger] ls[k]),
    ensures
        split_on(pre + lists_text(ls), '=') == seq![pre] + ls.map_values(
            |l: TaskListV| seg_content(l),
        ),
    decreases ls.len(),
{
    let content = |l: TaskListV| seg_content(l);
    if ls.len() == 0 {
        assert(pre + lists_text(ls) =~= pre);
        lemma_split_on_whole(pre, '=');
        assert(ls.map_values(content) =~= Seq::<Seq<char>>::empty());
        assert(seq![pre] + ls.map_values(content) =~= seq![pre]);
    } else {
        let rest = ls.drop_first();
        assert forall|k: int| 0 <= k < rest.len() implies list_encodable(#[trigger] rest[k]) by {
            assert(rest[k] == ls[k + 1]);
        }
        lemma_decode_seg_content(ls[0]);
        assert(list_text(ls[0]) =~= seq!['='] + seg_content(ls[0]));
        assert(lists_text(ls) == list_text(ls[0]) + lists_text(rest));
        assert(pre + lists_text(ls) =~= pre + seq!['='] + (seg_content(ls[0]) + lists_text(
            rest,
        )));
        lemma_split_on_append(pre, seg_content(ls[0]) + lists_text(rest), '=');
        lemma_split_lists(seg_content(ls[0]), rest);
        assert(split_on(pre + lists_text(ls), '=') == seq![pre] + (seq![seg_content(ls[0])]
            + rest.map_values(content)));
        assert(seq![pre] + (seq![seg_content(ls[0])] + rest.map_values(content)) =~= seq![pre]
            + ls.map_values(content));
    }
}

/// Round trip: decoding the text a collection of lists encodes as
/// succeeds and yields, list for list, the same identifiers and the
/// same completion states in the same order; each name comes back
/// trimmed, and each description keeps everything but its trailing
/// whitespace and its spaces. Names and descriptions must be free of
/// newlines and of `=` (either would change the file's structure), and
/// identifiers must fit in `usize`.
pub proof fn lemma_grouped_round_trip(ls: Seq<TaskListV>)
    requires
        forall|k: int| 0 <= k < ls.len() ==> list_encodable(#[trigger] ls[k]),
    ensures
        grouped_decode(grouped_encode(ls)) == Ok::<Seq<TaskListV>, ErrV>(
            ls.map_values(|l: TaskListV| reread_list(l)),
        ),
{
    let pre = header_line() + seq!['\n'];
    assert(has_no(pre, '=')) by {
        reveal_strlit("# DO NOT MODIFY THIS FILE MANUALLY");
        assert(header_line().len() == 34);
        assert(forall|i: int| 0 <= i < 34 ==> header_line()[i] != '=');
        lemma_has_no_append(header_line(), seq!['\n'], '=');
    }
    assert(grouped_encode(ls) =~= pre + lists_text(ls));
    lemma_split_lists(pre, ls);
    let segs = split_on(grouped_encode(ls), '=');
    assert(segs == seq![pre] + ls.map_values(|l: TaskListV| seg_content(l)));
    assert(segs.drop_first() =~= ls.map_values(|l: TaskListV| seg_content(l)));
    lemma_decode_segments_map(ls);
}

} // verus!
