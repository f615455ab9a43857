//! The flat codec: one task per line, `<id> <description>`, behind a fixed
//! comment header. Blank lines and lines whose first non-whitespace
//! character is `#` are skipped; a bad identifier token aborts the decode.
//!
//! Splitting a task line on single spaces and concatenating the tail
//! tokens without separators loses the spaces inside a description; the
//! format is deliberately kept that way, and the round-trip laws state
//! exactly what survives.

use vstd::prelude::*;

use crate::chars::{
    split_on, concat_all, has_no, trim_front, parses_as_usize, val_of, digits_of, is_ws,
    drop_char, lemma_split_on_len, lemma_split_on_append, lemma_split_on_pieces_free,
    lemma_concat_split, lemma_drop_char_self_free, lemma_drop_char_keeps_free,
    lemma_drop_char_noop, lemma_digits_of_digits, lemma_val_of_digits, lemma_digits_clean,
    lemma_digit_not_structural, lemma_trim_front_skip, views_of, str_chars, chars_string,
    split_on_char, concat_from, parse_usize, usize_chars, append_chars, ws,
};
use crate::error::{DecodeError, ErrV};
use crate::task::{Task, TaskV, tasks_view};

verus! {

/// The fixed first line of an encoded file.
pub open spec fn header_line() -> Seq<char> {
    "# DO NOT MODIFY THIS FILE MANUALLY"@
}

/// A comment line: its first non-whitespace character is `#`.
pub open spec fn is_comment(line: Seq<char>) -> bool {
    trim_front(line).len() > 0 && trim_front(line)[0] == '#'
}

/// What one line of the flat format means: `Ok(None)` for an empty or
/// comment line, `Ok(Some(task))` for a task line whose first token is an
/// identifier, and an identifier failure otherwise. The description is
/// the concatenation of the remaining tokens, separators lost.
pub open spec fn flat_line(line: Seq<char>) -> Result<Option<TaskV>, ErrV> {
    if line.len() == 0 {
        Ok(None)
    } else if is_comment(line) {
        Ok(None)
    } else {
        let tokens = split_on(line, ' ');
        if parses_as_usize(tokens[0]) {
            Ok(Some(TaskV { id: val_of(tokens[0]), task: concat_all(tokens.skip(1)) }))
        } else {
            Err(ErrV::IdParse(tokens[0]))
        }
    }
}

/// The tasks of a sequence of lines, or the failure of the first line
/// that has one.
pub open spec fn flat_decode_lines(lines: Seq<Seq<char>>) -> Result<Seq<TaskV>, ErrV>
    decreases lines.len(),
{
    if lines.len() == 0 {
        Ok(Seq::empty())
    } else {
        match flat_line(lines[0]) {
            Err(e) => Err(e),
            Ok(head) => match flat_decode_lines(lines.drop_first()) {
                Err(e) => Err(e),
                Ok(rest) => Ok(
                    match head {
                        Some(t) => seq![t] + rest,
                        None => rest,
                    },
                ),
            },
        }
    }
}

/// What a whole file of the flat format means: its lines, decoded.
pub open spec fn flat_decode(text: Seq<char>) -> Result<Seq<TaskV>, ErrV> {
    flat_decode_lines(split_on(text, '\n'))
}

/// The line one task prints as, newline included.
pub open spec fn flat_task_line(t: TaskV) -> Seq<char> {
    digits_of(t.id) + seq![' '] + t.task + seq!['\n']
}

/// The lines all tasks print as, in order.
pub open spec fn flat_encode_tasks(ts: Seq<TaskV>) -> Seq<char>
    decreases ts.len(),
{
    if ts.len() == 0 {
        Seq::empty()
    } else {
        flat_task_line(ts[0]) + flat_encode_tasks(ts.drop_first())
    }
}

/// The text a whole task list prints as: the fixed header line, then one
/// line per task.
pub open spec fn flat_encode(ts: Seq<TaskV>) -> Seq<char> {
    header_line() + seq!['\n'] + flat_encode_tasks(ts)
}

/// Encoding a list extended by one task appends that task's line.
pub proof fn lemma_flat_encode_tasks_snoc(ts: Seq<TaskV>, t: TaskV)
    ensures
        flat_encode_tasks(ts.push(t)) == flat_encode_tasks(ts) + flat_task_line(t),
    decreases ts.len(),
{
    if ts.len() == 0 {
        assert(ts.push(t)[0] == t);
        assert(ts.push(t).drop_first() =~= Seq::<TaskV>::empty());
        assert(flat_encode_tasks(Seq::<TaskV>::empty()) == Seq::<char>::empty());
        assert(flat_encode_tasks(ts.push(t)) == flat_task_line(t) + flat_encode_tasks(
            ts.push(t).drop_first(),
        ));
        assert(flat_task_line(t) + Seq::<char>::empty() =~= flat_encode_tasks(ts)
            + flat_task_line(t));
    } else {
        assert(ts.push(t)[0] == ts[0]);
        assert(ts.push(t).drop_first() =~= ts.drop_first().push(t));
        lemma_flat_encode_tasks_snoc(ts.drop_first(), t);
        assert(flat_encode_tasks(ts.push(t)) == flat_task_line(ts[0]) + (flat_encode_tasks(
            ts.drop_first(),
        ) + flat_task_line(t)));
        assert(flat_task_line(ts[0]) + (flat_encode_tasks(ts.drop_first()) + flat_task_line(t))
            =~= (flat_task_line(ts[0]) + flat_encode_tasks(ts.drop_first())) + flat_task_line(t));
    }
}

/// The shape every task coming out of a decode has: an identifier that
/// fits in `usize`, and a description free of spaces (the split removed
/// them) and of newlines (it came from one line).
pub open spec fn task_wf(t: TaskV) -> bool {
    t.id <= usize::MAX && has_no(t.task, ' ') && has_no(t.task, '\n')
}

/// A task as the codec re-reads it: the identifier kept, the spaces of
/// the description lost.
pub open spec fn strip_spaces(t: TaskV) -> TaskV {
    TaskV { id: t.id, task: drop_char(t.task, ' ') }
}

/// The header line is a comment and contains no newline.
proof fn lemma_header_facts()
    ensures
        has_no(header_line(), '\n'),
        is_comment(header_line()),
{
    reveal_strlit("# DO NOT MODIFY THIS FILE MANUALLY");
    assert(header_line().len() == 34);
    assert(header_line()[0] == '#');
    assert(!is_ws(header_line()[0]));
    assert(trim_front(header_line()) == header_line());
    assert(forall|i: int| 0 <= i < 34 ==> header_line()[i] != '\n');
}

/// A task line without its final newline.
pub open spec fn flat_task_core(t: TaskV) -> Seq<char> {
    digits_of(t.id) + seq![' '] + t.task
}

/// Reading back the line one task prints as yields that task with the
/// spaces of its description lost.
proof fn lemma_flat_line_core(t: TaskV)
    requires
        t.id <= usize::MAX,
        has_no(t.task, '\n'),
    ensures
        flat_line(flat_task_core(t)) == Ok::<Option<TaskV>, ErrV>(Some(strip_spaces(t))),
        has_no(flat_task_core(t), '\n'),
{
    let core = flat_task_core(t);
    let d = digits_of(t.id);
    lemma_digits_of_digits(t.id);
    lemma_val_of_digits(t.id);
    lemma_digits_clean(t.id);
    assert(core.len() > 0);
    assert(core[0] == d[0]);
    lemma_digit_not_structural(d[0]);
    assert(trim_front(core) == core);
    assert(!is_comment(core));
    assert(core =~= d + seq![' '] + t.task);
    lemma_split_on_append(d, t.task, ' ');
    let tokens = split_on(core, ' ');
    assert(tokens == seq![d] + split_on(t.task, ' '));
    lemma_split_on_len(t.task, ' ');
    assert(tokens[0] == d);
    assert(parses_as_usize(d));
    assert(val_of(d) == t.id);
    assert(tokens.skip(1) =~= split_on(t.task, ' '));
    lemma_concat_split(t.task, ' ');
    assert(concat_all(tokens.skip(1)) == drop_char(t.task, ' '));
    assert forall|i: int| 0 <= i < core.len() implies core[i] != '\n' by {
        if i < d.len() {
            assert(core[i] == d[i]);
        } else if i == d.len() {
            assert(core[i] == ' ');
        } else {
            assert(core[i] == t.task[i - d.len() - 1]);
        }
    }
}

/// Decoding the lines all tasks print as yields those tasks, spaces
/// lost from each description.
proof fn lemma_flat_decode_encode_tasks(ts: Seq<TaskV>)
    requires
        forall|k: int|
            0 <= k < ts.len() ==> (#[trigger] ts[k]).id <= usize::MAX && has_no(ts[k].task, '\n'),
    ensures
        flat_decode_lines(split_on(flat_encode_tasks(ts), '\n')) == Ok::<Seq<TaskV>, ErrV>(
            ts.map_values(|t: TaskV| strip_spaces(t)),
        ),
    decreases ts.len(),
{
    let strip = |t: TaskV| strip_spaces(t);
    if ts.len() == 0 {
        let lines = split_on(flat_encode_tasks(ts), '\n');
        assert(lines == seq![Seq::<char>::empty()]);
        assert(lines.len() == 1);
        assert(lines[0].len() == 0);
        assert(flat_line(lines[0]) == Ok::<Option<TaskV>, ErrV>(None));
        assert(lines.drop_first() =~= Seq::<Seq<char>>::empty());
        assert(flat_decode_lines(lines.drop_first()) == Ok::<Seq<TaskV>, ErrV>(Seq::empty()));
        assert(ts.map_values(strip) =~= Seq::<TaskV>::empty());
    } else {
        let t = ts[0];
        let rest = ts.drop_first();
        let core = flat_task_core(t);
        lemma_flat_line_core(t);
        assert(flat_encode_tasks(ts) == flat_task_line(t) + flat_encode_tasks(rest));
        assert(flat_task_line(t) =~= core + seq!['\n']);
        assert(flat_encode_tasks(ts) =~= core + seq!['\n'] + flat_encode_tasks(rest));
        lemma_split_on_append(core, flat_encode_tasks(rest), '\n');
        let lines = split_on(flat_encode_tasks(ts), '\n');
        assert(lines == seq![core] + split_on(flat_encode_tasks(rest), '\n'));
        assert forall|k: int|
            0 <= k < rest.len() implies (#[trigger] rest[k]).id <= usize::MAX && has_no(
            rest[k].task,
            '\n',
        ) by {
            assert(rest[k] == ts[k + 1]);
        }
        lemma_flat_decode_encode_tasks(rest);
        lemma_split_on_len(flat_encode_tasks(rest), '\n');
        assert(lines.len() > 0);
        assert(lines[0] == core);
        assert(lines.drop_first() =~= split_on(flat_encode_tasks(rest), '\n'));
        assert(flat_decode_lines(lines) == Ok::<Seq<TaskV>, ErrV>(
            seq![strip_spaces(t)] + rest.map_values(strip),
        ));
        assert(seq![strip_spaces(t)] + rest.map_values(strip) =~= ts.map_values(strip));
    }
}

/// Round trip: decoding the text a task list encodes as succeeds and
/// yields the same identifiers in the same order, with each description
/// kept up to the known loss of its spaces. Descriptions must be free of
/// newlines (a newline would change the line structure), and identifiers
/// must fit in `usize`.
pub proof fn lemma_flat_round_trip(ts: Seq<TaskV>)
    requires
        forall|k: int|
            0 <= k < ts.len() ==> (#[trigger] ts[k]).id <= usize::MAX && has_no(ts[k].task, '\n'),
    ensures
        flat_decode(flat_encode(ts)) == Ok::<Seq<TaskV>, ErrV>(
            ts.map_values(|t: TaskV| strip_spaces(t)),
        ),
{
    let strip = |t: TaskV| strip_spaces(t);
    lemma_header_facts();
    let body = flat_encode_tasks(ts);
    assert(flat_encode(ts) =~= header_line() + seq!['\n'] + body);
    lemma_split_on_append(header_line(), body, '\n');
    let lines = split_on(flat_encode(ts), '\n');
    assert(lines == seq![header_line()] + split_on(body, '\n'));
    lemma_split_on_len(body, '\n');
    assert(lines.len() > 0);
    assert(lines[0] == header_line());
    assert(flat_line(lines[0]) == Ok::<Option<TaskV>, ErrV>(None));
    assert(lines.drop_first() =~= split_on(body, '\n'));
    lemma_flat_decode_encode_tasks(ts);
    assert(flat_decode_lines(lines) == Ok::<Seq<TaskV>, ErrV>(ts.map_values(strip)));
}

/// Every task a successful decode yields is well formed: its identifier
/// fits in `usize` and its description holds no space and no newline.
proof fn lemma_flat_decode_lines_wf(lines: Seq<Seq<char>>)
    requires
        forall|k: int| 0 <= k < lines.len() ==> has_no(#[trigger] lines[k], '\n'),
        flat_decode_lines(lines) is Ok,
    ensures
        forall|k: int|
            0 <= k < flat_decode_lines(lines)->Ok_0.len() ==> task_wf(
                #[trigger] flat_decode_lines(lines)->Ok_0[k],
            ),
    decreases lines.len(),
{
    if lines.len() == 0 {
    } else {
        let line = lines[0];
        assert(has_no(line, '\n'));
        assert forall|k: int|
            0 <= k < lines.drop_first().len() implies has_no(
            #[trigger] lines.drop_first()[k],
            '\n',
        ) by {
            assert(lines.drop_first()[k] == lines[k + 1]);
        }
        lemma_flat_decode_lines_wf(lines.drop_first());
        let head = flat_line(line);
        let rest = flat_decode_lines(lines.drop_first());
        if head is Ok && head->Ok_0 is Some {
            let t = head->Ok_0->0;
            let tokens = split_on(line, ' ');
            lemma_split_on_len(line, ' ');
            lemma_concat_split(line, ' ');
            lemma_drop_char_keeps_free(line, ' ', '\n');
            lemma_drop_char_self_free(line, ' ');
            assert(concat_all(tokens) == drop_char(line, ' '));
            assert(has_no(concat_all(tokens), '\n'));
            assert(has_no(concat_all(tokens), ' '));
            assert(tokens.drop_first() =~= tokens.skip(1));
            assert(concat_all(tokens) == tokens[0] + concat_all(tokens.skip(1)));
            let desc = concat_all(tokens.skip(1));
            assert forall|i: int| 0 <= i < desc.len() implies desc[i] != '\n' && desc[i] != ' ' by {
                assert(desc[i] == concat_all(tokens)[tokens[0].len() + i]);
            }
            assert(task_wf(t));
            let all = flat_decode_lines(lines);
            assert(all->Ok_0 == seq![t] + rest->Ok_0);
            assert forall|k: int| 0 <= k < all->Ok_0.len() implies task_wf(
                #[trigger] all->Ok_0[k],
            ) by {
                if k == 0 {
                    assert(all->Ok_0[k] == t);
                } else {
                    assert(all->Ok_0[k] == rest->Ok_0[k - 1]);
                }
            }
        }
    }
}

/// Idempotence: decoding, re-encoding and decoding again yields exactly
/// the first decode, for every text the codec accepts.
pub proof fn lemma_flat_decode_idempotent(text: Seq<char>)
    requires
        flat_decode(text) is Ok,
    ensures
        flat_decode(flat_encode(flat_decode(text)->Ok_0)) == flat_decode(text),
{
    let lines = split_on(text, '\n');
    lemma_split_on_pieces_free(text, '\n');
    lemma_flat_decode_lines_wf(lines);
    let ts = flat_decode(text)->Ok_0;
    assert forall|k: int|
        0 <= k < ts.len() implies (#[trigger] ts[k]).id <= usize::MAX && has_no(
        ts[k].task,
        '\n',
    ) by {
        assert(task_wf(ts[k]));
    }
    lemma_flat_round_trip(ts);
    assert forall|k: int| 0 <= k < ts.len() implies ts.map_values(|t: TaskV| strip_spaces(t))[k]
        == ts[k] by {
        assert(task_wf(ts[k]));
        lemma_drop_char_noop(ts[k].task, ' ');
    }
    assert(ts.map_values(|t: TaskV| strip_spaces(t)) =~= ts);
}

/// A text of comment lines and blank lines alone decodes to the empty
/// task list.
pub proof fn lemma_comments_and_blanks_decode_empty(text: Seq<char>)
    requires
        forall|k: int|
            0 <= k < split_on(text, '\n').len() ==> ((#[trigger] split_on(text, '\n')[k]).len()
                == 0 || is_comment(split_on(text, '\n')[k])),
    ensures
        flat_decode(text) == Ok::<Seq<TaskV>, ErrV>(Seq::empty()),
{
    lemma_skipped_lines_decode_empty(split_on(text, '\n'));
}

/// Lines that are each blank or a comment decode to no tasks.
proof fn lemma_skipped_lines_decode_empty(lines: Seq<Seq<char>>)
    requires
        forall|k: int|
            0 <= k < lines.len() ==> ((#[trigger] lines[k]).len() == 0 || is_comment(lines[k])),
    ensures
        flat_decode_lines(lines) == Ok::<Seq<TaskV>, ErrV>(Seq::empty()),
    decreases lines.len(),
{
    if lines.len() == 0 {
    } else {
        assert(lines[0].len() == 0 || is_comment(lines[0]));
        assert(flat_line(lines[0]) == Ok::<Option<TaskV>, ErrV>(None));
        assert forall|k: int|
            0 <= k < lines.drop_first().len() implies ((#[trigger] lines.drop_first()[k]).len()
            == 0 || is_comment(lines.drop_first()[k])) by {
            assert(lines.drop_first()[k] == lines[k + 1]);
        }
        lemma_skipped_lines_decode_empty(lines.drop_first());
    }
}

/// Whether a line is a comment, as `is_comment` describes.
fn comment_line(v: &Vec<char>) -> (r: bool)
    ensures
        r == is_comment(v@),
{
    let mut a: usize = 0;
    while a < v.len() && ws(v[a])
        invariant
            0 <= a <= v@.len(),
            forall|j: int| 0 <= j < a ==> is_ws(v@[j]),
        decreases v@.len() - a,
    {
        a = a + 1;
    }
    proof {
        lemma_trim_front_skip(v@, a as int);
    }
    if a < v.len() {
        v[a] == '#'
    } else {
        false
    }
}

/// Decodes a file of the flat format, as `flat_decode` describes: the
/// tasks of its lines in order, or the failure of the first line that
/// has one.
pub fn string_as_task_list(contents: &str) -> (r: Result<Vec<Task>, DecodeError>)
    ensures
        match r {
            Ok(tasks) => flat_decode(contents@) == Ok::<Seq<TaskV>, ErrV>(tasks_view(tasks@)),
            Err(e) => flat_decode(contents@) == Err::<Seq<TaskV>, ErrV>(e@),
        },
{
    let cs = str_chars(contents);
    let lines = split_on_char(&cs, '\n');
    let ghost lv = views_of(lines@);
    let mut out: Vec<Task> = Vec::new();
    let mut i: usize = 0;
    proof {
        assert(lv.skip(0) =~= lv);
        assert(tasks_view(out@) =~= Seq::<TaskV>::empty());
        assert(flat_decode_lines(lv) == match flat_decode_lines(lv.skip(0)) {
            Ok(rest) => Ok::<Seq<TaskV>, ErrV>(tasks_view(out@) + rest),
            Err(e) => Err::<Seq<TaskV>, ErrV>(e),
        }) by {
            if flat_decode_lines(lv) is Ok {
                assert(tasks_view(out@) + flat_decode_lines(lv)->Ok_0 =~= flat_decode_lines(
                    lv,
                )->Ok_0);
            }
        }
    }
    while i < lines.len()
        invariant
            0 <= i <= lines@.len(),
            lv == views_of(lines@),
            lv == split_on(contents@, '\n'),
            flat_decode_lines(lv) == (match flat_decode_lines(lv.skip(i as int)) {
                Ok(rest) => Ok::<Seq<TaskV>, ErrV>(tasks_view(out@) + rest),
                Err(e) => Err::<Seq<TaskV>, ErrV>(e),
            }),
        decreases lines@.len() - i,
    {
        proof {
            assert(lv.skip(i as int).len() > 0);
            assert(lv.skip(i as int)[0] == lv[i as int]);
            assert(lv.skip(i as int).drop_first() =~= lv.skip(i + 1));
        }
        let ghost out0 = out@;
        let line = &lines[i];
        proof {
            assert(line@ == lv[i as int]);
        }
        if line.len() == 0 {
            proof {
                assert(flat_line(lv[i as int]) == Ok::<Option<TaskV>, ErrV>(None));
            }
        } else if comment_line(line) {
            proof {
                assert(flat_line(lv[i as int]) == Ok::<Option<TaskV>, ErrV>(None));
            }
        } else {
            let tokens = split_on_char(line, ' ');
            proof {
                lemma_split_on_len(line@, ' ');
                assert(views_of(tokens@)[0] == tokens@[0]@);
            }
            match parse_usize(&tokens[0]) {
                None => {
                    let token = chars_string(&tokens[0]);
                    proof {
                        assert(flat_line(lv[i as int]) == Err::<Option<TaskV>, ErrV>(
                            ErrV::IdParse(token@),
                        ));
                        assert(flat_decode_lines(lv.skip(i as int)) == Err::<Seq<TaskV>, ErrV>(
                            ErrV::IdParse(token@),
                        ));
                        assert(flat_decode_lines(lv) == Err::<Seq<TaskV>, ErrV>(
                            ErrV::IdParse(token@),
                        ));
                        assert(flat_decode(contents@) == flat_decode_lines(lv));
                    }
                    return Err(DecodeError::IdParseError(token));
                },
                Some(id) => {
                    let desc = concat_from(&tokens, 1);
                    let task = Task { id, task: chars_string(&desc) };
                    let ghost tv = TaskV { id: id as nat, task: desc@ };
                    proof {
                        assert(flat_line(lv[i as int]) == Ok::<Option<TaskV>, ErrV>(Some(tv)));
                    }
                    out.push(task);
                    proof {
                        assert(tasks_view(out@) =~= tasks_view(out0).push(tv));
                        let tail = flat_decode_lines(lv.skip(i + 1));
                        if tail is Ok {
                            assert(tasks_view(out0) + (seq![tv] + tail->Ok_0) =~= tasks_view(out@)
                                + tail->Ok_0);
                        }
                    }
                },
            }
        }
        i = i + 1;
    }
    proof {
        assert(lv.skip(lines@.len() as int) =~= Seq::<Seq<char>>::empty());
        assert(flat_decode_lines(lv.skip(lines@.len() as int)) == Ok::<Seq<TaskV>, ErrV>(
            Seq::empty(),
        ));
        assert(tasks_view(out@) + Seq::<TaskV>::empty() =~= tasks_view(out@));
    }
    Ok(out)
}

/// Encodes a task list as file text, as `flat_encode` describes: the
/// fixed header line, then `<id> <description>` per task, each line
/// newline-terminated.
pub fn task_list_as_string(task_list: &Vec<Task>) -> (r: String)
    ensures
        r@ == flat_encode(tasks_view(task_list@)),
{
    let ghost tv = tasks_view(task_list@);
    let mut out: Vec<char> = str_chars("# DO NOT MODIFY THIS FILE MANUALLY");
    out.push('\n');
    proof {
        assert(out@ =~= header_line() + seq!['\n']);
        assert(tv.take(0) =~= Seq::<TaskV>::empty());
        assert(out@ + Seq::<char>::empty() =~= out@);
    }
    let mut i: usize = 0;
    while i < task_list.len()
        invariant
            0 <= i <= task_list@.len(),
            tv == tasks_view(task_list@),
            out@ == header_line() + seq!['\n'] + flat_encode_tasks(tv.take(i as int)),
        decreases task_list@.len() - i,
    {
        let ghost out0 = out@;
        let t = &task_list[i];
        let digits = usize_chars(t.id);
        append_chars(&mut out, &digits);
        out.push(' ');
        let desc = str_chars(t.task.as_str());
        append_chars(&mut out, &desc);
        out.push('\n');
        proof {
            assert(tv[i as int] == task_list@[i as int]@);
            assert(out@ =~= out0 + flat_task_line(tv[i as int]));
            assert(tv.take(i + 1) =~= tv.take(i as int).push(tv[i as int]));
            lemma_flat_encode_tasks_snoc(tv.take(i as int), tv[i as int]);
            assert(out0 + flat_task_line(tv[i as int]) =~= header_line() + seq!['\n']
                + flat_encode_tasks(tv.take(i + 1)));
        }
        i = i + 1;
    }
    proof {
        assert(tv.take(task_list@.len() as int) =~= tv);
    }
    chars_string(&out)
}

} // verus!
