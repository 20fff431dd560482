//! The on-disk formats: tasks as tab-separated lines and settings as
//! `key=value` lines, with backslash escapes in free-text fields.
use vstd::prelude::*;
use crate::datetime::{
    lemma_storage_text_chars, lemma_storage_text_round_trip, parse_text, LocalDateTime,
};
use crate::text::{
    chars_of, is_ws, join_with, nat_digits, parse_unsigned, parse_unsigned_chars, push_char,
    push_digits, split_chars, split_on, string_of, trim, trim_chars, trim_end, trim_end_chars, views,
    lemma_split_on_nonempty, is_digit, lemma_split_on_join, lemma_parse_fmt_unsigned, lemma_nat_digits,
    lemma_split_on_extend, lemma_split_on_single, fmt_signed, push_signed_padded, parse_signed,
    parse_signed_chars, lemma_fmt_signed_chars, lemma_parse_fmt_signed, lemma_trim_unchanged,
    fmt_unsigned,
};

verus! {

/// How one character is written in an escaped field.
pub open spec fn escape_char(c: char) -> Seq<char> {
    if c == '\\' {
        seq!['\\', '\\']
    } else if c == '\t' {
        seq!['\\', 't']
    } else if c == '\n' {
        seq!['\\', 'n']
    } else if c == '\r' {
        seq!['\\', 'r']
    } else {
        seq![c]
    }
}

/// `s` with `\`, tab, line feed and carriage return written as `\\`, `\t`, `\n`, `\r`.
pub open spec fn escape_text(s: Seq<char>) -> Seq<char>
    decreases s.len(),
{
    if s.len() == 0 {
        Seq::empty()
    } else {
        escape_char(s[0]) + escape_text(s.drop_first())
    }
}

/// The character that an escape `\n` stands for (`\\`, `\t`, `\n`, `\r`);
/// any other `\x` stays as written.
pub open spec fn unescape_pair(n: char) -> Seq<char> {
    if n == '\\' {
        seq!['\\']
    } else if n == 't' {
        seq!['\t']
    } else if n == 'n' {
        seq!['\n']
    } else if n == 'r' {
        seq!['\r']
    } else {
        seq!['\\', n]
    }
}

/// Reads the escapes of `s` from left to right; a final lone `\` stays.
pub open spec fn unescape_text(s: Seq<char>) -> Seq<char>
    decreases s.len(),
{
    if s.len() == 0 {
        Seq::empty()
    } else if s[0] != '\\' {
        seq![s[0]] + unescape_text(s.drop_first())
    } else if s.len() == 1 {
        seq!['\\']
    } else {
        unescape_pair(s[1]) + unescape_text(s.subrange(2, s.len() as int))
    }
}

/// Writes a free-text field so that it holds no tab, line feed or carriage return.
pub fn escape_field(value: &str) -> (r: String)
    ensures
        r@ == escape_text(value@),
{
    let v = chars_of(value);
    let mut out = String::new();
    let mut i: usize = 0;
    assert(v@.skip(0) =~= v@);
    while i < v.len()
        invariant
            i <= v.len(),
            out@ + escape_text(v@.skip(i as int)) == escape_text(v@),
        decreases v.len() - i,
    {
        let ch = v[i];
        assert(v@.skip(i as int).drop_first() =~= v@.skip(i + 1));
        assert(v@.skip(i as int)[0] == ch);
        let ghost before = out@;
        if ch == '\\' {
            out.append("\\\\");
        } else if ch == '\t' {
            out.append("\\t");
        } else if ch == '\n' {
            out.append("\\n");
        } else if ch == '\r' {
            out.append("\\r");
        } else {
            push_char(&mut out, ch);
        }
        proof {
            reveal_strlit("\\\\");
            reveal_strlit("\\t");
            reveal_strlit("\\n");
            reveal_strlit("\\r");
            assert(out@ =~= before + escape_char(ch));
            assert(before + escape_text(v@.skip(i as int)) =~= out@ + escape_text(v@.skip(i + 1)));
        }
        i += 1;
    }
    assert(escape_text(v@.skip(v.len() as int)) =~= Seq::<char>::empty());
    assert(out@ + Seq::<char>::empty() =~= out@);
    out
}

/// Reads back a field written by `escape_field`.
pub fn unescape_field(value: &str) -> (r: String)
    ensures
        r@ == unescape_text(value@),
{
    let v = chars_of(value);
    let mut out = String::new();
    let mut i: usize = 0;
    assert(v@.skip(0) =~= v@);
    while i < v.len()
        invariant
            i <= v.len(),
            out@ + unescape_text(v@.skip(i as int)) == unescape_text(v@),
        decreases v.len() - i,
    {
        let ch = v[i];
        let ghost rest = v@.skip(i as int);
        let ghost before = out@;
        assert(rest[0] == ch);
        if ch != '\\' {
            push_char(&mut out, ch);
            assert(rest.drop_first() =~= v@.skip(i + 1));
            assert(out@ + unescape_text(v@.skip(i + 1)) =~= before + unescape_text(rest));
            i += 1;
        } else if i + 1 == v.len() {
            push_char(&mut out, '\\');
            assert(v@.skip(i + 1) =~= Seq::<char>::empty());
            assert(out@ + unescape_text(v@.skip(i + 1)) =~= before + unescape_text(rest));
            i += 1;
        } else {
            let next = v[i + 1];
            assert(rest[1] == next);
            if next == '\\' {
                push_char(&mut out, '\\');
            } else if next == 't' {
                push_char(&mut out, '\t');
            } else if next == 'n' {
                push_char(&mut out, '\n');
            } else if next == 'r' {
                push_char(&mut out, '\r');
            } else {
                push_char(&mut out, '\\');
                push_char(&mut out, next);
            }
            assert(out@ =~= before + unescape_pair(next));
            assert(rest.subrange(2, rest.len() as int) =~= v@.skip(i + 2));
            assert(out@ + unescape_text(v@.skip(i + 2)) =~= before + unescape_text(rest));
            i += 2;
        }
    }
    assert(unescape_text(v@.skip(v.len() as int)) =~= Seq::<char>::empty());
    assert(out@ + Seq::<char>::empty() =~= out@);
    out
}

/// Reading back an escaped field gives the original text.
pub proof fn lemma_unescape_escape(s: Seq<char>)
    ensures
        unescape_text(escape_text(s)) == s,
    decreases s.len(),
{
    if s.len() > 0 {
        let c = s[0];
        let rest = s.drop_first();
        lemma_unescape_escape(rest);
        let e = escape_text(s);
        let er = escape_text(rest);
        assert(e == escape_char(c) + er);
        if c == '\\' || c == '\t' || c == '\n' || c == '\r' {
            assert(e[0] == '\\');
            assert(e.subrange(2, e.len() as int) =~= er);
            assert(unescape_pair(e[1]) =~= seq![c]);
        } else {
            assert(e.drop_first() =~= er);
        }
        assert(seq![c] + rest =~= s);
    }
}

/// An escaped field holds no tab, line feed or carriage return.
pub proof fn lemma_escape_no_separators(s: Seq<char>)
    ensures
        forall|i: int|
            0 <= i < escape_text(s).len() ==> #[trigger] escape_text(s)[i] != '\t'
                && escape_text(s)[i] != '\n' && escape_text(s)[i] != '\r',
    decreases s.len(),
{
    if s.len() > 0 {
        lemma_escape_no_separators(s.drop_first());
        let e = escape_text(s);
        let ec = escape_char(s[0]);
        let er = escape_text(s.drop_first());
        assert forall|i: int| 0 <= i < e.len() implies #[trigger] e[i] != '\t' && e[i] != '\n'
            && e[i] != '\r' by {
            if i < ec.len() {
                assert(e[i] == ec[i]);
            } else {
                assert(e[i] == er[i - ec.len()]);
            }
        }
    }
}

/// A to-do item.
#[derive(Clone, Debug)]
pub struct Task {
    pub id: u64,
    pub title: String,
    pub due: LocalDateTime,
    pub note: String,
    pub created_at: LocalDateTime,
    pub completed: bool,
    pub completed_at: Option<LocalDateTime>,
}

/// A to-do item with its text fields as character sequences.
pub ghost struct TaskView {
    pub id: u64,
    pub title: Seq<char>,
    pub due: LocalDateTime,
    pub note: Seq<char>,
    pub created_at: LocalDateTime,
    pub completed: bool,
    pub completed_at: Option<LocalDateTime>,
}

impl View for Task {
    type V = TaskView;

    open spec fn view(&self) -> TaskView {
        TaskView {
            id: self.id,
            title: self.title@,
            due: self.due,
            note: self.note@,
            created_at: self.created_at,
            completed: self.completed,
            completed_at: self.completed_at,
        }
    }
}

/// The views of a sequence of tasks.
pub open spec fn task_views(ts: Seq<Task>) -> Seq<TaskView> {
    ts.map_values(|t: Task| t@)
}

impl Task {
    /// A copy of the task.
    pub fn duplicate(&self) -> (r: Task)
        ensures
            r@ == self@,
    {
        Task {
            id: self.id,
            title: self.title.clone(),
            due: self.due,
            note: self.note.clone(),
            created_at: self.created_at,
            completed: self.completed,
            completed_at: self.completed_at,
        }
    }
}

/// The largest id among `ts`, 0 for none.
pub open spec fn max_id(ts: Seq<Task>) -> u64
    decreases ts.len(),
{
    if ts.len() == 0 {
        0
    } else {
        let m = max_id(ts.drop_last());
        if ts.last().id > m {
            ts.last().id
        } else {
            m
        }
    }
}

/// One more than the largest id in use (1 for an empty list).
pub fn next_task_id(tasks: &[Task]) -> (r: u64)
    requires
        max_id(tasks@) < u64::MAX,
    ensures
        r == max_id(tasks@) + 1,
{
    let mut m: u64 = 0;
    let mut i: usize = 0;
    assert(tasks@.take(0) =~= Seq::<Task>::empty());
    while i < tasks.len()
        invariant
            i <= tasks.len(),
            m == max_id(tasks@.take(i as int)),
        decreases tasks.len() - i,
    {
        assert(tasks@.take(i + 1).drop_last() =~= tasks@.take(i as int));
        if tasks[i].id > m {
            m = tasks[i].id;
        }
        i += 1;
    }
    assert(tasks@.take(tasks.len() as int) =~= tasks@);
    m + 1
}

/// Every id in use is at most `max_id`, so `next_task_id` gives a fresh id.
pub proof fn lemma_max_id_bounds(ts: Seq<Task>)
    ensures
        forall|i: int| 0 <= i < ts.len() ==> #[trigger] ts[i].id <= max_id(ts),
    decreases ts.len(),
{
    if ts.len() > 0 {
        lemma_max_id_bounds(ts.drop_last());
        assert forall|i: int| 0 <= i < ts.len() implies #[trigger] ts[i].id <= max_id(ts) by {
            if i < ts.len() - 1 {
                assert(ts[i] == ts.drop_last()[i]);
            }
        }
    }
}

/// `1` for a completed task, `0` otherwise.
pub open spec fn completed_flag(b: bool) -> Seq<char> {
    if b {
        seq!['1']
    } else {
        seq!['0']
    }
}

/// The fields of a task's line, in file order.
pub open spec fn task_fields(t: TaskView) -> Seq<Seq<char>> {
    seq![
        nat_digits(t.id as nat),
        t.created_at.storage_text(),
        t.due.storage_text(),
        completed_flag(t.completed),
        match t.completed_at {
            Some(d) => d.storage_text(),
            None => Seq::empty(),
        },
        escape_text(t.title),
        escape_text(t.note),
    ]
}

/// A task's line: `id`, `created_at`, `due`, `completed`, `completed_at`,
/// `title`, `note`, separated by tabs.
pub open spec fn task_line_text(t: TaskView) -> Seq<char> {
    join_with(task_fields(t), '\t')
}

/// The first line of the tasks file.
pub open spec fn tasks_header() -> Seq<char> {
    "id\tcreated_at\tdue\tcompleted\tcompleted_at\ttitle\tnote\n"@
}

/// The task lines, each ended by a line feed.
pub open spec fn tasks_body(ts: Seq<TaskView>) -> Seq<char>
    decreases ts.len(),
{
    if ts.len() == 0 {
        Seq::empty()
    } else {
        tasks_body(ts.drop_last()) + task_line_text(ts.last()) + seq!['\n']
    }
}

/// The whole tasks file.
pub open spec fn tasks_file_text(ts: Seq<TaskView>) -> Seq<char> {
    tasks_header() + tasks_body(ts)
}

proof fn lemma_join_push(ps: Seq<Seq<char>>, x: Seq<char>, sep: char)
    requires
        ps.len() >= 1,
    ensures
        join_with(ps.push(x), sep) == join_with(ps, sep).push(sep) + x,
{
    assert(ps.push(x).drop_last() =~= ps);
}

/// Appends the line of `task` (without line feed).
fn push_task_line(out: &mut String, task: &Task)
    ensures
        final(out)@ == old(out)@ + task_line_text(task@),
{
    let ghost f = task_fields(task@);
    let mut line = String::new();
    push_digits(&mut line, task.id);
    assert(line@ =~= join_with(f.take(1), '\t'));
    push_char(&mut line, '\t');
    line.append(task.created_at.storage_string().as_str());
    proof {
        lemma_join_push(f.take(1), f[1], '\t');
        assert(f.take(1).push(f[1]) =~= f.take(2));
    }
    push_char(&mut line, '\t');
    line.append(task.due.storage_string().as_str());
    proof {
        lemma_join_push(f.take(2), f[2], '\t');
        assert(f.take(2).push(f[2]) =~= f.take(3));
    }
    push_char(&mut line, '\t');
    push_char(&mut line, if task.completed { '1' } else { '0' });
    proof {
        lemma_join_push(f.take(3), f[3], '\t');
        assert(f.take(3).push(f[3]) =~= f.take(4));
        assert(line@ =~= join_with(f.take(4), '\t'));
    }
    push_char(&mut line, '\t');
    match task.completed_at {
        Some(dt) => line.append(dt.storage_string().as_str()),
        None => {},
    }
    proof {
        lemma_join_push(f.take(4), f[4], '\t');
        assert(f.take(4).push(f[4]) =~= f.take(5));
        assert(line@ =~= join_with(f.take(5), '\t'));
    }
    push_char(&mut line, '\t');
    line.append(escape_field(task.title.as_str()).as_str());
    proof {
        lemma_join_push(f.take(5), f[5], '\t');
        assert(f.take(5).push(f[5]) =~= f.take(6));
    }
    push_char(&mut line, '\t');
    line.append(escape_field(task.note.as_str()).as_str());
    proof {
        lemma_join_push(f.take(6), f[6], '\t');
        assert(f.take(6).push(f[6]) =~= f.take(7));
        assert(f.take(7) =~= f);
    }
    out.append(line.as_str());
}

/// The content of the tasks file for `tasks`.
pub fn tasks_text(tasks: &[Task]) -> (r: String)
    ensures
        r@ == tasks_file_text(task_views(tasks@)),
{
    let mut out = String::from_str("id\tcreated_at\tdue\tcompleted\tcompleted_at\ttitle\tnote\n");
    let mut i: usize = 0;
    assert(task_views(tasks@).take(0) =~= Seq::<TaskView>::empty());
    while i < tasks.len()
        invariant
            i <= tasks.len(),
            out@ == tasks_header() + tasks_body(task_views(tasks@).take(i as int)),
        decreases tasks.len() - i,
    {
        push_task_line(&mut out, &tasks[i]);
        push_char(&mut out, '\n');
        proof {
            let tv = task_views(tasks@);
            assert(tv.take(i + 1).drop_last() =~= tv.take(i as int));
            assert(tv.take(i + 1).last() == tasks@[i as int]@);
            assert(out@ =~= tasks_header() + tasks_body(tv.take(i + 1)));
        }
        i += 1;
    }
    assert(task_views(tasks@).take(tasks.len() as int) =~= task_views(tasks@));
    out
}

/// A date-time field as the task loader reads it (a date alone means 18:00).
pub open spec fn read_datetime(s: Seq<char>) -> Option<LocalDateTime> {
    match parse_text(s, 18, 0) {
        Ok(dt) => Some(dt),
        Err(_) => None,
    }
}

/// The task that a line describes, if it has at least seven tab-separated
/// fields and its id and its two required date-times read; a completion time
/// that does not read counts as none, and fields after the seventh are ignored.
pub open spec fn parse_task_line_text(line: Seq<char>) -> Option<TaskView> {
    let f = split_on(line, '\t');
    if f.len() < 7 {
        None
    } else {
        match parse_unsigned(f[0], u64::MAX as int) {
            None => None,
            Some(id) => match read_datetime(f[1]) {
                None => None,
                Some(created_at) => match read_datetime(f[2]) {
                    None => None,
                    Some(due) => Some(
                        TaskView {
                            id: id as u64,
                            title: unescape_text(f[5]),
                            due,
                            note: unescape_text(f[6]),
                            created_at,
                            completed: f[3] == seq!['1'],
                            completed_at: if trim(f[4]).len() == 0 {
                                None
                            } else {
                                read_datetime(f[4])
                            },
                        },
                    ),
                },
            },
        }
    }
}

fn read_datetime_chars(v: &Vec<char>) -> (r: Option<LocalDateTime>)
    ensures
        r == read_datetime(v@),
{
    match LocalDateTime::parse_chars(v, 18, 0) {
        Ok(dt) => Some(dt),
        Err(_) => None,
    }
}

fn parse_task_fields(line: &Vec<char>) -> (r: Option<Task>)
    ensures
        match r {
            Some(t) => parse_task_line_text(line@) == Some(t@),
            None => parse_task_line_text(line@) is None,
        },
{
    let fields = split_chars(line, '\t');
    if fields.len() < 7 {
        return None;
    }
    proof {
        assert(views(fields@)[0] == fields@[0]@);
        assert(views(fields@)[1] == fields@[1]@);
        assert(views(fields@)[2] == fields@[2]@);
        assert(views(fields@)[3] == fields@[3]@);
        assert(views(fields@)[4] == fields@[4]@);
        assert(views(fields@)[5] == fields@[5]@);
        assert(views(fields@)[6] == fields@[6]@);
    }
    let id = match parse_unsigned_chars(&fields[0], u64::MAX) {
        Some(v) => v,
        None => return None,
    };
    let created_at = match read_datetime_chars(&fields[1]) {
        Some(v) => v,
        None => return None,
    };
    let due = match read_datetime_chars(&fields[2]) {
        Some(v) => v,
        None => return None,
    };
    let completed = fields[3].len() == 1 && fields[3][0] == '1';
    assert(completed == (fields@[3]@ == seq!['1'])) by {
        if fields@[3]@.len() == 1 {
            assert(fields@[3]@ =~= seq![fields@[3]@[0]]);
        }
    }
    let flag_trimmed = trim_chars(&fields[4]);
    let completed_at = if flag_trimmed.len() == 0 {
        None
    } else {
        read_datetime_chars(&fields[4])
    };
    let title_text = string_of(&fields[5]);
    let note_text = string_of(&fields[6]);
    Some(Task {
        id,
        created_at,
        due,
        completed,
        completed_at,
        title: unescape_field(title_text.as_str()),
        note: unescape_field(note_text.as_str()),
    })
}

/// Reads one task line; `None` when it is not a task line.
pub fn parse_task_line(line: &str) -> (r: Option<Task>)
    ensures
        match r {
            Some(t) => parse_task_line_text(line@) == Some(t@),
            None => parse_task_line_text(line@) is None,
        },
{
    let v = chars_of(line);
    parse_task_fields(&v)
}

/// The lines of a text (as `str::lines`, up to carriage returns, which the
/// readers of both files remove as trailing white space anyway).
pub open spec fn text_lines(s: Seq<char>) -> Seq<Seq<char>> {
    let p = split_on(s, '\n');
    if p.last().len() == 0 {
        p.drop_last()
    } else {
        p
    }
}

/// Whether a (trimmed) line is the header line of the tasks file.
pub open spec fn is_header_line(t: Seq<char>) -> bool {
    t.len() >= 3 && t[0] == 'i' && t[1] == 'd' && t[2] == '\t'
}

/// The task a file line yields: blank lines and the header yield none.
pub open spec fn load_line(l: Seq<char>) -> Option<TaskView> {
    let t = trim_end(l);
    if t.len() == 0 || is_header_line(t) {
        None
    } else {
        parse_task_line_text(t)
    }
}

/// The tasks that the lines yield, in order.
pub open spec fn load_lines(ls: Seq<Seq<char>>) -> Seq<TaskView>
    decreases ls.len(),
{
    if ls.len() == 0 {
        Seq::empty()
    } else {
        let prev = load_lines(ls.drop_last());
        match load_line(ls.last()) {
            Some(t) => prev.push(t),
            None => prev,
        }
    }
}

/// The tasks that the content of a tasks file yields.
pub open spec fn load_tasks_text(s: Seq<char>) -> Seq<TaskView> {
    load_lines(text_lines(s))
}

fn text_lines_chars(v: &Vec<char>) -> (r: Vec<Vec<char>>)
    ensures
        views(r@) == text_lines(v@),
{
    let mut pieces = split_chars(v, '\n');
    proof {
        lemma_split_on_nonempty(v@, '\n');
    }
    let n = pieces.len();
    assert(views(pieces@).last() == pieces@[n - 1]@);
    if pieces[n - 1].len() == 0 {
        let ghost before = pieces@;
        pieces.pop();
        assert(views(pieces@) =~= views(before).drop_last());
    }
    pieces
}

/// Reads every task line of a tasks file, skipping blank lines, the header
/// and lines that do not describe a task.
pub fn parse_tasks_text(text: &str) -> (r: Vec<Task>)
    ensures
        task_views(r@) == load_tasks_text(text@),
{
    let v = chars_of(text);
    let lines = text_lines_chars(&v);
    let ghost ls = views(lines@);
    let mut out: Vec<Task> = Vec::new();
    let mut i: usize = 0;
    assert(ls.take(0) =~= Seq::<Seq<char>>::empty());
    while i < lines.len()
        invariant
            i <= lines.len(),
            ls == views(lines@),
            ls == text_lines(v@),
            task_views(out@) == load_lines(ls.take(i as int)),
        decreases lines.len() - i,
    {
        assert(ls.take(i + 1).drop_last() =~= ls.take(i as int));
        assert(ls.take(i + 1).last() == lines@[i as int]@);
        let trimmed = trim_end_chars(&lines[i]);
        let header = trimmed.len() >= 3 && trimmed[0] == 'i' && trimmed[1] == 'd' && trimmed[2]
            == '\t';
        if trimmed.len() != 0 && !header {
            match parse_task_fields(&trimmed) {
                Some(t) => {
                    let ghost before = out@;
                    let ghost tv = t@;
                    out.push(t);
                    assert(task_views(out@) =~= task_views(before).push(tv));
                },
                None => {},
            }
        }
        i += 1;
    }
    assert(ls.take(lines.len() as int) =~= ls);
    out
}

/// The date-times of a task can be written and read back: valid, with a year that is not negative.
pub open spec fn storable_datetime(dt: LocalDateTime) -> bool {
    dt.is_valid() && dt.year >= 0
}

/// A task whose line reads back as the same task.
pub open spec fn storable_task(t: TaskView) -> bool {
    &&& storable_datetime(t.created_at)
    &&& storable_datetime(t.due)
    &&& (t.completed_at matches Some(d) ==> storable_datetime(d))
}

/// A text survives being the last field of a line that the reader trims at
/// the end: it is not empty, and it does not end in white space other than a
/// tab, line feed or carriage return (those are escaped).
pub open spec fn survives_trim_end(s: Seq<char>) -> bool {
    s.len() > 0 && (!is_ws(s.last()) || s.last() == '\t' || s.last() == '\n' || s.last() == '\r')
}

proof fn lemma_escape_append(a: Seq<char>, b: Seq<char>)
    ensures
        escape_text(a + b) == escape_text(a) + escape_text(b),
    decreases a.len(),
{
    if a.len() == 0 {
        assert(a + b =~= b);
        assert(escape_text(a) + escape_text(b) =~= escape_text(b));
    } else {
        lemma_escape_append(a.drop_first(), b);
        assert((a + b).drop_first() =~= a.drop_first() + b);
        assert((a + b)[0] == a[0]);
        assert(escape_char(a[0]) + (escape_text(a.drop_first()) + escape_text(b)) =~= escape_char(a[0])
            + escape_text(a.drop_first()) + escape_text(b));
    }
}

proof fn lemma_escape_survives(s: Seq<char>)
    requires
        survives_trim_end(s),
    ensures
        escape_text(s).len() > 0,
        !is_ws(escape_text(s).last()),
{
    let init = s.drop_last();
    let c = s.last();
    assert(init + seq![c] =~= s);
    lemma_escape_append(init, seq![c]);
    assert(seq![c].drop_first() =~= Seq::<char>::empty());
    assert(escape_text(Seq::<char>::empty()) == Seq::<char>::empty());
    assert(seq![c][0] == c);
    assert(escape_text(seq![c]) == escape_char(c) + escape_text(seq![c].drop_first()));
    assert(escape_text(seq![c]) =~= escape_char(c));
}

/// Characters of the fields of a storable task's line.
proof fn lemma_task_fields_chars(t: TaskView)
    requires
        storable_task(t),
    ensures
        forall|k: int, i: int|
            0 <= k < task_fields(t).len() && 0 <= i < task_fields(t)[k].len() ==> #[trigger] task_fields(
                t,
            )[k][i] != '\t' && task_fields(t)[k][i] != '\n',
        is_digit(task_fields(t)[0][0]),
        task_fields(t)[0].len() > 0,
{
    let f = task_fields(t);
    lemma_nat_digits(t.id as nat);
    lemma_storage_text_chars(t.created_at);
    lemma_storage_text_chars(t.due);
    if let Some(d) = t.completed_at {
        lemma_storage_text_chars(d);
    }
    crate::store::lemma_escape_no_separators(t.title);
    crate::store::lemma_escape_no_separators(t.note);
    assert forall|k: int, i: int| 0 <= k < f.len() && 0 <= i < f[k].len() implies #[trigger] f[k][i]
        != '\t' && f[k][i] != '\n' by {
        if k == 0 {
            assert(is_digit(nat_digits(t.id as nat)[i]));
        } else if k == 1 {
            assert(f[1] == t.created_at.storage_text());
        } else if k == 2 {
            assert(f[2] == t.due.storage_text());
        } else if k == 3 {
        } else if k == 4 {
        } else if k == 5 {
            assert(f[5] == escape_text(t.title));
        } else {
            assert(f[6] == escape_text(t.note));
        }
    }
}

/// The line of a storable task reads back as the same task.
pub proof fn lemma_task_line_round_trip(t: TaskView)
    requires
        storable_task(t),
    ensures
        parse_task_line_text(task_line_text(t)) == Some(t),
{
    let f = task_fields(t);
    lemma_task_fields_chars(t);
    lemma_split_on_join(f, '\t');
    lemma_parse_fmt_unsigned(t.id as nat, 0, u64::MAX as int);
    assert(crate::text::fmt_unsigned(t.id as nat, 0) == nat_digits(t.id as nat));
    lemma_storage_text_round_trip(t.created_at, 18, 0);
    lemma_storage_text_round_trip(t.due, 18, 0);
    lemma_unescape_escape(t.title);
    lemma_unescape_escape(t.note);
    if let Some(d) = t.completed_at {
        lemma_storage_text_round_trip(d, 18, 0);
        lemma_storage_text_chars(d);
        crate::text::lemma_trim_unchanged(d.storage_text());
    } else {
        assert(trim(Seq::<char>::empty()) =~= Seq::<char>::empty());
    }
    if !t.completed {
        assert(f[3][0] != seq!['1'][0]);
    }
    assert(f[3] == seq!['1'] <==> t.completed);
}

proof fn lemma_join_ends(ps: Seq<Seq<char>>, sep: char)
    requires
        ps.len() >= 1,
    ensures
        ps[0].len() > 0 ==> join_with(ps, sep).len() > 0 && join_with(ps, sep)[0] == ps[0][0],
        ps.last().len() > 0 ==> join_with(ps, sep).len() > 0 && join_with(ps, sep).last()
            == ps.last().last(),
    decreases ps.len(),
{
    if ps.len() > 1 {
        let init = ps.drop_last();
        lemma_join_ends(init, sep);
        assert(init[0] == ps[0]);
        let j = join_with(init, sep).push(sep);
        assert(join_with(ps, sep) == j + ps.last());
        if ps[0].len() > 0 {
            assert((j + ps.last())[0] == j[0]);
        }
    }
}

/// The header line of the tasks file without its line feed.
spec fn header_line() -> Seq<char> {
    "id\tcreated_at\tdue\tcompleted\tcompleted_at\ttitle\tnote"@
}

proof fn lemma_header_line()
    ensures
        tasks_header() == header_line().push('\n'),
        forall|i: int| 0 <= i < header_line().len() ==> #[trigger] header_line()[i] != '\n',
        header_line().len() >= 3,
        header_line()[0] == 'i' && header_line()[1] == 'd' && header_line()[2] == '\t',
        !is_ws(header_line().last()),
{
    reveal_strlit("id\tcreated_at\tdue\tcompleted\tcompleted_at\ttitle\tnote");
    reveal_strlit("id\tcreated_at\tdue\tcompleted\tcompleted_at\ttitle\tnote\n");
    assert(tasks_header() =~= header_line().push('\n'));
}

/// The lines of the tasks file: the header, then one per task, then the empty
/// piece after the final line feed.
proof fn lemma_tasks_file_pieces(ts: Seq<TaskView>)
    requires
        forall|i: int| 0 <= i < ts.len() ==> storable_task(#[trigger] ts[i]),
    ensures
        split_on(tasks_file_text(ts), '\n') == seq![header_line()] + ts.map_values(
            |t: TaskView| task_line_text(t),
        ) + seq![Seq::<char>::empty()],
    decreases ts.len(),
{
    lemma_header_line();
    let lines = ts.map_values(|t: TaskView| task_line_text(t));
    if ts.len() == 0 {
        lemma_split_on_single(header_line(), '\n');
        assert(tasks_body(ts) =~= Seq::<char>::empty());
        assert(tasks_file_text(ts) =~= header_line().push('\n'));
        assert(header_line().push('\n').drop_last() =~= header_line());
        assert(seq![header_line()] + lines + seq![Seq::<char>::empty()] =~= seq![header_line()].push(
            Seq::<char>::empty(),
        ));
    } else {
        let init = ts.drop_last();
        let t = ts.last();
        assert forall|i: int| 0 <= i < init.len() implies storable_task(#[trigger] init[i]) by {
            assert(init[i] == ts[i]);
        }
        lemma_tasks_file_pieces(init);
        let prev = tasks_file_text(init);
        let line = task_line_text(t);
        lemma_task_fields_chars(t);
        let f = task_fields(t);
        assert forall|i: int| 0 <= i < line.len() implies #[trigger] line[i] != '\n' by {
            lemma_join_no_char(f, '\t', '\n');
        }
        lemma_split_on_extend(prev, line, '\n');
        let init_lines = init.map_values(|t: TaskView| task_line_text(t));
        let before = seq![header_line()] + init_lines + seq![Seq::<char>::empty()];
        assert(Seq::<char>::empty() + line =~= line);
        assert(tasks_file_text(ts) =~= (prev + line).push('\n'));
        assert((prev + line).push('\n').drop_last() =~= prev + line);
        assert(lines =~= init_lines.push(line));
        assert(before.update(before.len() - 1, line).push(Seq::<char>::empty()) =~= seq![
            header_line(),
        ] + lines + seq![Seq::<char>::empty()]);
    }
}

proof fn lemma_join_no_char(ps: Seq<Seq<char>>, sep: char, c: char)
    requires
        sep != c,
        forall|k: int, i: int| 0 <= k < ps.len() && 0 <= i < ps[k].len() ==> #[trigger] ps[k][i] != c,
    ensures
        forall|i: int| 0 <= i < join_with(ps, sep).len() ==> #[trigger] join_with(ps, sep)[i] != c,
    decreases ps.len(),
{
    if ps.len() == 1 {
        assert forall|i: int| 0 <= i < join_with(ps, sep).len() implies #[trigger] join_with(ps, sep)[i] != c by {
            assert(ps[0][i] != c);
        }
    } else if ps.len() > 1 {
        let init = ps.drop_last();
        assert forall|k: int, i: int| 0 <= k < init.len() && 0 <= i < init[k].len() implies #[trigger] init[k][i] != c by {
            assert(init[k] == ps[k]);
        }
        lemma_join_no_char(init, sep, c);
        let j = join_with(init, sep).push(sep);
        let l = ps.last();
        assert(join_with(ps, sep) == j + l);
        assert forall|i: int| 0 <= i < (j + l).len() implies #[trigger] (j + l)[i] != c by {
            if i < j.len() - 1 {
                assert((j + l)[i] == join_with(init, sep)[i]);
            } else if i == j.len() - 1 {
            } else {
                assert((j + l)[i] == l[i - j.len()]);
                assert(ps[ps.len() - 1][i - j.len()] != c);
            }
        }
    }
}

/// The line of a storable task whose note survives trimming is read as that task.
proof fn lemma_load_task_line(t: TaskView)
    requires
        storable_task(t),
        survives_trim_end(t.note),
    ensures
        load_line(task_line_text(t)) == Some(t),
{
    let f = task_fields(t);
    let line = task_line_text(t);
    lemma_task_fields_chars(t);
    lemma_escape_survives(t.note);
    lemma_join_ends(f, '\t');
    assert(f.last() == escape_text(t.note));
    assert(!is_ws(line.last()));
    assert(trim_end(line) == line);
    assert(is_digit(line[0]));
    lemma_task_line_round_trip(t);
}

proof fn lemma_load_lines_tasks(ts: Seq<TaskView>)
    requires
        forall|i: int|
            0 <= i < ts.len() ==> storable_task(#[trigger] ts[i]) && survives_trim_end(ts[i].note),
    ensures
        load_lines(seq![header_line()] + ts.map_values(|t: TaskView| task_line_text(t))) == ts,
    decreases ts.len(),
{
    lemma_header_line();
    let lines = ts.map_values(|t: TaskView| task_line_text(t));
    let all = seq![header_line()] + lines;
    if ts.len() == 0 {
        assert(all =~= seq![header_line()]);
        assert(all.drop_last() =~= Seq::<Seq<char>>::empty());
        assert(trim_end(header_line()) == header_line());
        assert(load_line(header_line()) is None);
        assert(load_lines(Seq::<Seq<char>>::empty()) == Seq::<TaskView>::empty());
        assert(load_lines(all) == load_lines(all.drop_last()));
    } else {
        let init = ts.drop_last();
        assert forall|i: int| 0 <= i < init.len() implies storable_task(#[trigger] init[i])
            && survives_trim_end(init[i].note) by {
            assert(init[i] == ts[i]);
        }
        lemma_load_lines_tasks(init);
        assert(all.drop_last() =~= seq![header_line()] + init.map_values(
            |t: TaskView| task_line_text(t),
        ));
        assert(all.last() == task_line_text(ts.last()));
        lemma_load_task_line(ts.last());
        assert(load_lines(all) == load_lines(all.drop_last()).push(ts.last()));
        assert(init.push(ts.last()) =~= ts);
    }
}

/// Reading the tasks file written for `ts` gives `ts` back, when every
/// task is storable and its note survives the reader's trimming of line ends.
pub proof fn lemma_tasks_file_round_trip(ts: Seq<TaskView>)
    requires
        forall|i: int|
            0 <= i < ts.len() ==> storable_task(#[trigger] ts[i]) && survives_trim_end(ts[i].note),
    ensures
        load_tasks_text(tasks_file_text(ts)) == ts,
{
    assert forall|i: int| 0 <= i < ts.len() implies storable_task(#[trigger] ts[i]) by {}
    lemma_tasks_file_pieces(ts);
    let lines = ts.map_values(|t: TaskView| task_line_text(t));
    let p = seq![header_line()] + lines + seq![Seq::<char>::empty()];
    assert(p.last().len() == 0);
    assert(p.drop_last() =~= seq![header_line()] + lines);
    lemma_load_lines_tasks(ts);
}

/// User settings.
#[derive(Clone, Debug)]
pub struct Settings {
    pub summary_weekday: u32,
    pub auto_summary: bool,
    pub launch_on_startup: bool,
    pub background_color: String,
    pub window_alpha: u8,
    pub llm_api_url: String,
    pub llm_model: String,
    pub llm_api_key: String,
    pub last_summary_date: String,
    pub window_x: i32,
    pub window_y: i32,
    pub window_width: i32,
    pub window_height: i32,
}

/// Settings with their text fields as character sequences.
pub ghost struct SettingsView {
    pub summary_weekday: u32,
    pub auto_summary: bool,
    pub launch_on_startup: bool,
    pub background_color: Seq<char>,
    pub window_alpha: u8,
    pub llm_api_url: Seq<char>,
    pub llm_model: Seq<char>,
    pub llm_api_key: Seq<char>,
    pub last_summary_date: Seq<char>,
    pub window_x: i32,
    pub window_y: i32,
    pub window_width: i32,
    pub window_height: i32,
}

impl View for Settings {
    type V = SettingsView;

    open spec fn view(&self) -> SettingsView {
        SettingsView {
            summary_weekday: self.summary_weekday,
            auto_summary: self.auto_summary,
            launch_on_startup: self.launch_on_startup,
            background_color: self.background_color@,
            window_alpha: self.window_alpha,
            llm_api_url: self.llm_api_url@,
            llm_model: self.llm_model@,
            llm_api_key: self.llm_api_key@,
            last_summary_date: self.last_summary_date@,
            window_x: self.window_x,
            window_y: self.window_y,
            window_width: self.window_width,
            window_height: self.window_height,
        }
    }
}

/// The settings used when there is no settings file: summary on Friday,
/// automatic summaries on, no start with the system, background `#F5F7FA`,
/// opacity 232, no model configured, window at (80, 80) sized 420 x 620.
pub open spec fn default_settings() -> SettingsView {
    SettingsView {
        summary_weekday: 5,
        auto_summary: true,
        launch_on_startup: false,
        background_color: "#F5F7FA"@,
        window_alpha: 232,
        llm_api_url: Seq::empty(),
        llm_model: Seq::empty(),
        llm_api_key: Seq::empty(),
        last_summary_date: Seq::empty(),
        window_x: 80,
        window_y: 80,
        window_width: 420,
        window_height: 620,
    }
}

impl Default for Settings {
    fn default() -> (r: Self)
        ensures
            r@ == default_settings(),
    {
        Settings {
            summary_weekday: 5,
            auto_summary: true,
            launch_on_startup: false,
            background_color: String::from_str("#F5F7FA"),
            window_alpha: 232,
            llm_api_url: String::new(),
            llm_model: String::new(),
            llm_api_key: String::new(),
            last_summary_date: String::new(),
            window_x: 80,
            window_y: 80,
            window_width: 420,
            window_height: 620,
        }
    }
}

impl Settings {
    /// A copy of the settings.
    pub fn duplicate(&self) -> (r: Settings)
        ensures
            r@ == self@,
    {
        Settings {
            summary_weekday: self.summary_weekday,
            auto_summary: self.auto_summary,
            launch_on_startup: self.launch_on_startup,
            background_color: self.background_color.clone(),
            window_alpha: self.window_alpha,
            llm_api_url: self.llm_api_url.clone(),
            llm_model: self.llm_model.clone(),
            llm_api_key: self.llm_api_key.clone(),
            last_summary_date: self.last_summary_date.clone(),
            window_x: self.window_x,
            window_y: self.window_y,
            window_width: self.window_width,
            window_height: self.window_height,
        }
    }
}

/// `1` for true, `0` for false.
pub open spec fn flag_text(b: bool) -> Seq<char> {
    if b {
        seq!['1']
    } else {
        seq!['0']
    }
}

/// The keys of the settings file, in file order.
pub open spec fn settings_keys() -> Seq<Seq<char>> {
    seq![
        "summary_weekday"@,
        "auto_summary"@,
        "launch_on_startup"@,
        "background_color"@,
        "window_alpha"@,
        "llm_api_url"@,
        "llm_model"@,
        "llm_api_key"@,
        "last_summary_date"@,
        "window_x"@,
        "window_y"@,
        "window_width"@,
        "window_height"@,
    ]
}

/// The values of the settings file, in file order: numbers in decimal,
/// flags as `1`/`0`, texts escaped.
pub open spec fn settings_values(v: SettingsView) -> Seq<Seq<char>> {
    seq![
        nat_digits(v.summary_weekday as nat),
        flag_text(v.auto_summary),
        flag_text(v.launch_on_startup),
        escape_text(v.background_color),
        nat_digits(v.window_alpha as nat),
        escape_text(v.llm_api_url),
        escape_text(v.llm_model),
        escape_text(v.llm_api_key),
        escape_text(v.last_summary_date),
        fmt_signed(v.window_x as int, 0),
        fmt_signed(v.window_y as int, 0),
        fmt_signed(v.window_width as int, 0),
        fmt_signed(v.window_height as int, 0),
    ]
}

/// Lines `key=value`, each ended by a line feed, for the first `n` entries.
pub open spec fn entries_text(keys: Seq<Seq<char>>, values: Seq<Seq<char>>, n: nat) -> Seq<char>
    decreases n,
{
    if n == 0 {
        Seq::empty()
    } else {
        let k = (n - 1) as int;
        entries_text(keys, values, (n - 1) as nat) + keys[k] + seq!['='] + values[k] + seq!['\n']
    }
}

/// The whole settings file.
pub open spec fn settings_file_text(v: SettingsView) -> Seq<char> {
    entries_text(settings_keys(), settings_values(v), 13)
}

fn push_entry(out: &mut String, key: &str, value: &String, Ghost(n): Ghost<nat>, Ghost(keys): Ghost<Seq<Seq<char>>>, Ghost(values): Ghost<Seq<Seq<char>>>)
    requires
        1 <= n <= keys.len(),
        n <= values.len(),
        keys[n - 1] == key@,
        values[n - 1] == value@,
        old(out)@ == entries_text(keys, values, (n - 1) as nat),
    ensures
        final(out)@ == entries_text(keys, values, n),
{
    out.append(key);
    push_char(out, '=');
    out.append(value.as_str());
    push_char(out, '\n');
    assert(out@ =~= entries_text(keys, values, n));
}

fn decimal(n: u64) -> (r: String)
    ensures
        r@ == nat_digits(n as nat),
{
    let mut s = String::new();
    push_digits(&mut s, n);
    s
}

fn signed_decimal(n: i32) -> (r: String)
    ensures
        r@ == fmt_signed(n as int, 0),
{
    let mut s = String::new();
    push_signed_padded(&mut s, n as i64, 0);
    s
}

fn flag_string(b: bool) -> (r: String)
    ensures
        r@ == flag_text(b),
{
    let mut s = String::new();
    push_char(&mut s, if b { '1' } else { '0' });
    s
}

/// The content of the settings file.
pub fn settings_text(settings: &Settings) -> (r: String)
    ensures
        r@ == settings_file_text(settings@),
{
    let ghost keys = settings_keys();
    let ghost values = settings_values(settings@);
    let mut out = String::new();
    push_entry(&mut out, "summary_weekday", &decimal(settings.summary_weekday as u64), Ghost(1), Ghost(keys), Ghost(values));
    push_entry(&mut out, "auto_summary", &flag_string(settings.auto_summary), Ghost(2), Ghost(keys), Ghost(values));
    push_entry(&mut out, "launch_on_startup", &flag_string(settings.launch_on_startup), Ghost(3), Ghost(keys), Ghost(values));
    push_entry(&mut out, "background_color", &escape_field(settings.background_color.as_str()), Ghost(4), Ghost(keys), Ghost(values));
    push_entry(&mut out, "window_alpha", &decimal(settings.window_alpha as u64), Ghost(5), Ghost(keys), Ghost(values));
    push_entry(&mut out, "llm_api_url", &escape_field(settings.llm_api_url.as_str()), Ghost(6), Ghost(keys), Ghost(values));
    push_entry(&mut out, "llm_model", &escape_field(settings.llm_model.as_str()), Ghost(7), Ghost(keys), Ghost(values));
    push_entry(&mut out, "llm_api_key", &escape_field(settings.llm_api_key.as_str()), Ghost(8), Ghost(keys), Ghost(values));
    push_entry(&mut out, "last_summary_date", &escape_field(settings.last_summary_date.as_str()), Ghost(9), Ghost(keys), Ghost(values));
    push_entry(&mut out, "window_x", &signed_decimal(settings.window_x), Ghost(10), Ghost(keys), Ghost(values));
    push_entry(&mut out, "window_y", &signed_decimal(settings.window_y), Ghost(11), Ghost(keys), Ghost(values));
    push_entry(&mut out, "window_width", &signed_decimal(settings.window_width), Ghost(12), Ghost(keys), Ghost(values));
    push_entry(&mut out, "window_height", &signed_decimal(settings.window_height), Ghost(13), Ghost(keys), Ghost(values));
    out
}

/// Position of the first `c` in `s`.
pub open spec fn index_of(s: Seq<char>, c: char) -> Option<int>
    decreases s.len(),
{
    if s.len() == 0 {
        None
    } else if s[0] == c {
        Some(0)
    } else {
        match index_of(s.drop_first(), c) {
            Some(i) => Some(i + 1),
            None => None,
        }
    }
}

/// `x` limited to `lo..=hi`.
pub open spec fn clamp(x: int, lo: int, hi: int) -> int {
    if x < lo {
        lo
    } else if x > hi {
        hi
    } else {
        x
    }
}

/// The number read from `v`, or `default` when it does not read.
pub open spec fn unsigned_or(v: Seq<char>, max: int, default: int) -> int {
    match parse_unsigned(v, max) {
        Some(n) => n,
        None => default,
    }
}

/// The `i32` read from `v`, or `default` when it does not read.
pub open spec fn i32_or(v: Seq<char>, default: int) -> int {
    match parse_signed(v, i32::MIN as int, i32::MAX as int) {
        Some(n) => n,
        None => default,
    }
}

/// The settings after reading one line of the settings file: a line
/// `key=value` (split at the first `=`, the key trimmed, the value trimmed at
/// the end and unescaped) sets the field of a known key; numbers that do not
/// read fall back to the defaults and are limited to their ranges; other
/// lines change nothing.
pub open spec fn apply_setting(st: SettingsView, line: Seq<char>) -> SettingsView {
    match index_of(line, '=') {
        None => st,
        Some(i) => {
            let key = trim(line.take(i));
            let value = unescape_text(trim_end(line.skip(i + 1)));
            if key == "summary_weekday"@ {
                SettingsView {
                    summary_weekday: clamp(unsigned_or(value, u32::MAX as int, 5), 1, 7) as u32,
                    ..st
                }
            } else if key == "auto_summary"@ {
                SettingsView { auto_summary: value == seq!['1'], ..st }
            } else if key == "launch_on_startup"@ {
                SettingsView { launch_on_startup: value == seq!['1'], ..st }
            } else if key == "background_color"@ {
                SettingsView { background_color: value, ..st }
            } else if key == "window_alpha"@ {
                SettingsView {
                    window_alpha: clamp(unsigned_or(value, u16::MAX as int, 232), 30, 255) as u8,
                    ..st
                }
            } else if key == "llm_api_url"@ {
                SettingsView { llm_api_url: value, ..st }
            } else if key == "llm_model"@ {
                SettingsView { llm_model: value, ..st }
            } else if key == "llm_api_key"@ {
                SettingsView { llm_api_key: value, ..st }
            } else if key == "last_summary_date"@ {
                SettingsView { last_summary_date: value, ..st }
            } else if key == "window_x"@ {
                SettingsView { window_x: i32_or(value, 80) as i32, ..st }
            } else if key == "window_y"@ {
                SettingsView { window_y: i32_or(value, 80) as i32, ..st }
            } else if key == "window_width"@ {
                let w = i32_or(value, 420);
                SettingsView { window_width: (if w > 320 { w } else { 320 }) as i32, ..st }
            } else if key == "window_height"@ {
                let h = i32_or(value, 620);
                SettingsView { window_height: (if h > 420 { h } else { 420 }) as i32, ..st }
            } else {
                st
            }
        },
    }
}

/// The settings after reading the lines in order, starting from `st`.
pub open spec fn apply_settings(st: SettingsView, ls: Seq<Seq<char>>) -> SettingsView
    decreases ls.len(),
{
    if ls.len() == 0 {
        st
    } else {
        apply_setting(apply_settings(st, ls.drop_last()), ls.last())
    }
}

/// The settings that the content of a settings file gives.
pub open spec fn load_settings_text(s: Seq<char>) -> SettingsView {
    apply_settings(default_settings(), text_lines(s))
}

fn index_of_chars(s: &Vec<char>, c: char) -> (r: Option<usize>)
    ensures
        match r {
            Some(i) => index_of(s@, c) == Some(i as int) && i < s.len(),
            None => index_of(s@, c) is None,
        },
{
    let mut i: usize = 0;
    assert(s@.skip(0) =~= s@);
    while i < s.len()
        invariant
            i <= s.len(),
            index_of(s@, c) == match index_of(s@.skip(i as int), c) {
                Some(j) => Some(j + i),
                None => None::<int>,
            },
        decreases s.len() - i,
    {
        assert(s@.skip(i as int)[0] == s[i as int]);
        if s[i] == c {
            return Some(i);
        }
        assert(s@.skip(i as int).drop_first() =~= s@.skip(i + 1));
        i += 1;
    }
    assert(s@.skip(i as int) =~= Seq::<char>::empty());
    None
}

pub(crate) fn chars_eq(v: &Vec<char>, s: &str) -> (r: bool)
    ensures
        r == (v@ == s@),
{
    let w = chars_of(s);
    if v.len() != w.len() {
        return false;
    }
    let mut i: usize = 0;
    while i < v.len()
        invariant
            i <= v.len() == w.len(),
            w@ == s@,
            forall|j: int| 0 <= j < i ==> v@[j] == w@[j],
        decreases v.len() - i,
    {
        if v[i] != w[i] {
            return false;
        }
        i += 1;
    }
    assert(v@ =~= w@);
    true
}

fn clamp_u64(x: u64, lo: u64, hi: u64) -> (r: u64)
    requires
        lo <= hi,
    ensures
        r == clamp(x as int, lo as int, hi as int),
{
    if x < lo {
        lo
    } else if x > hi {
        hi
    } else {
        x
    }
}

fn read_i32_or(v: &Vec<char>, default: i32) -> (r: i32)
    ensures
        r == i32_or(v@, default as int),
{
    match parse_signed_chars(v, -2147483648, 2147483647) {
        Some(n) => n as i32,
        None => default,
    }
}

fn apply_setting_line(settings: &mut Settings, line: &Vec<char>)
    ensures
        final(settings)@ == apply_setting(old(settings)@, line@),
{
    let eq = match index_of_chars(line, '=') {
        Some(i) => i,
        None => return,
    };
    let mut key_part: Vec<char> = Vec::new();
    let mut j: usize = 0;
    while j < eq
        invariant
            j <= eq < line.len(),
            key_part@ =~= line@.take(j as int),
        decreases eq - j,
    {
        key_part.push(line[j]);
        j += 1;
    }
    let mut value_part: Vec<char> = Vec::new();
    let mut k: usize = eq + 1;
    while k < line.len()
        invariant
            eq < k <= line.len(),
            value_part@ =~= line@.subrange(eq + 1, k as int),
        decreases line.len() - k,
    {
        value_part.push(line[k]);
        k += 1;
    }
    assert(value_part@ =~= line@.skip(eq + 1));
    let key = trim_chars(&key_part);
    let value_trimmed = trim_end_chars(&value_part);
    let value_string = unescape_field(string_of(&value_trimmed).as_str());
    let value = chars_of(value_string.as_str());
    if chars_eq(&key, "summary_weekday") {
        let n = match parse_unsigned_chars(&value, 0xffff_ffff) {
            Some(n) => n,
            None => 5,
        };
        settings.summary_weekday = clamp_u64(n, 1, 7) as u32;
    } else if chars_eq(&key, "auto_summary") {
        settings.auto_summary = value.len() == 1 && value[0] == '1';
        proof {
            if value@.len() == 1 {
                assert(value@ =~= seq![value@[0]]);
            }
        }
    } else if chars_eq(&key, "launch_on_startup") {
        settings.launch_on_startup = value.len() == 1 && value[0] == '1';
        proof {
            if value@.len() == 1 {
                assert(value@ =~= seq![value@[0]]);
            }
        }
    } else if chars_eq(&key, "background_color") {
        settings.background_color = value_string;
    } else if chars_eq(&key, "window_alpha") {
        let n = match parse_unsigned_chars(&value, 0xffff) {
            Some(n) => n,
            None => 232,
        };
        settings.window_alpha = clamp_u64(n, 30, 255) as u8;
    } else if chars_eq(&key, "llm_api_url") {
        settings.llm_api_url = value_string;
    } else if chars_eq(&key, "llm_model") {
        settings.llm_model = value_string;
    } else if chars_eq(&key, "llm_api_key") {
        settings.llm_api_key = value_string;
    } else if chars_eq(&key, "last_summary_date") {
        settings.last_summary_date = value_string;
    } else if chars_eq(&key, "window_x") {
        settings.window_x = read_i32_or(&value, 80);
    } else if chars_eq(&key, "window_y") {
        settings.window_y = read_i32_or(&value, 80);
    } else if chars_eq(&key, "window_width") {
        let w = read_i32_or(&value, 420);
        settings.window_width = if w > 320 { w } else { 320 };
    } else if chars_eq(&key, "window_height") {
        let h = read_i32_or(&value, 620);
        settings.window_height = if h > 420 { h } else { 420 };
    }
}

/// Reads a settings file: starts from the defaults and applies each line.
pub fn parse_settings_text(text: &str) -> (r: Settings)
    ensures
        r@ == load_settings_text(text@),
{
    let v = chars_of(text);
    let lines = text_lines_chars(&v);
    let ghost ls = views(lines@);
    let mut settings = Settings::default();
    let mut i: usize = 0;
    assert(ls.take(0) =~= Seq::<Seq<char>>::empty());
    while i < lines.len()
        invariant
            i <= lines.len(),
            ls == views(lines@),
            ls == text_lines(v@),
            settings@ == apply_settings(default_settings(), ls.take(i as int)),
        decreases lines.len() - i,
    {
        assert(ls.take(i + 1).drop_last() =~= ls.take(i as int));
        assert(ls.take(i + 1).last() == lines@[i as int]@);
        apply_setting_line(&mut settings, &lines[i]);
        i += 1;
    }
    assert(ls.take(lines.len() as int) =~= ls);
    settings
}

/// A text that reads back unchanged as the value of a settings line.
pub open spec fn value_survives(s: Seq<char>) -> bool {
    s.len() == 0 || survives_trim_end(s)
}

/// Settings that the settings file keeps: numbers within the ranges that the
/// reader enforces and texts that survive its trimming of line ends.
pub open spec fn storable_settings(v: SettingsView) -> bool {
    &&& 1 <= v.summary_weekday <= 7
    &&& v.window_alpha >= 30
    &&& v.window_width >= 320
    &&& v.window_height >= 420
    &&& value_survives(v.background_color)
    &&& value_survives(v.llm_api_url)
    &&& value_survives(v.llm_model)
    &&& value_survives(v.llm_api_key)
    &&& value_survives(v.last_summary_date)
}

spec fn entry_line(keys: Seq<Seq<char>>, values: Seq<Seq<char>>, i: int) -> Seq<char> {
    keys[i] + seq!['='] + values[i]
}

spec fn entry_lines(keys: Seq<Seq<char>>, values: Seq<Seq<char>>, n: nat) -> Seq<Seq<char>> {
    Seq::new(n, |i: int| entry_line(keys, values, i))
}

spec fn no_char(s: Seq<char>, c: char) -> bool {
    forall|i: int| 0 <= i < s.len() ==> #[trigger] s[i] != c
}

proof fn lemma_entries_pieces(keys: Seq<Seq<char>>, values: Seq<Seq<char>>, n: nat)
    requires
        n <= keys.len(),
        n <= values.len(),
        forall|i: int| 0 <= i < n ==> no_char(#[trigger] keys[i], '\n') && no_char(values[i], '\n'),
    ensures
        split_on(entries_text(keys, values, n), '\n') == entry_lines(keys, values, n) + seq![
            Seq::<char>::empty(),
        ],
    decreases n,
{
    if n == 0 {
        assert(entries_text(keys, values, 0) == Seq::<char>::empty());
        assert(entry_lines(keys, values, 0) + seq![Seq::<char>::empty()] =~= seq![
            Seq::<char>::empty(),
        ]);
    } else {
        let k = (n - 1) as int;
        lemma_entries_pieces(keys, values, (n - 1) as nat);
        let prev = entries_text(keys, values, (n - 1) as nat);
        let line = entry_line(keys, values, k);
        assert(no_char(keys[k], '\n') && no_char(values[k], '\n'));
        assert forall|i: int| 0 <= i < line.len() implies #[trigger] line[i] != '\n' by {
            if i < keys[k].len() {
                assert(line[i] == keys[k][i]);
            } else if i > keys[k].len() {
                assert(line[i] == values[k][i - keys[k].len() - 1]);
            }
        }
        lemma_split_on_extend(prev, line, '\n');
        assert(Seq::<char>::empty() + line =~= line);
        assert(entries_text(keys, values, n) =~= (prev + line).push('\n'));
        assert((prev + line).push('\n').drop_last() =~= prev + line);
        let before = entry_lines(keys, values, (n - 1) as nat) + seq![Seq::<char>::empty()];
        assert(before.update(before.len() - 1, line).push(Seq::<char>::empty()) =~= entry_lines(
            keys,
            values,
            n,
        ) + seq![Seq::<char>::empty()]);
    }
}

proof fn lemma_index_of_after(a: Seq<char>, c: char, b: Seq<char>)
    requires
        no_char(a, c),
    ensures
        index_of(a + seq![c] + b, c) == Some(a.len() as int),
    decreases a.len(),
{
    let s = a + seq![c] + b;
    if a.len() > 0 {
        lemma_index_of_after(a.drop_first(), c, b);
        assert(s.drop_first() =~= a.drop_first() + seq![c] + b);
    }
}

proof fn lemma_unescape_plain(s: Seq<char>)
    requires
        no_char(s, '\\'),
    ensures
        unescape_text(s) == s,
    decreases s.len(),
{
    if s.len() > 0 {
        lemma_unescape_plain(s.drop_first());
        assert(seq![s[0]] + s.drop_first() =~= s);
    }
}

proof fn lemma_escape_value(s: Seq<char>)
    requires
        value_survives(s),
    ensures
        trim_end(escape_text(s)) == escape_text(s),
        unescape_text(escape_text(s)) == s,
        no_char(escape_text(s), '\n'),
{
    lemma_unescape_escape(s);
    lemma_escape_no_separators(s);
    if s.len() > 0 {
        lemma_escape_survives(s);
    } else {
        assert(escape_text(s) == Seq::<char>::empty());
    }
}

/// Fact about the keys of the settings file.
proof fn lemma_settings_keys()
    ensures
        settings_keys().len() == 13,
        forall|i: int|
            0 <= i < 13 ==> no_char(#[trigger] settings_keys()[i], '=') && no_char(
                settings_keys()[i],
                '\n',
            ) && settings_keys()[i].len() > 0 && !is_ws(settings_keys()[i][0]) && !is_ws(
                settings_keys()[i].last(),
            ),
{
    reveal_strlit("summary_weekday");
    reveal_strlit("auto_summary");
    reveal_strlit("launch_on_startup");
    reveal_strlit("background_color");
    reveal_strlit("window_alpha");
    reveal_strlit("llm_api_url");
    reveal_strlit("llm_model");
    reveal_strlit("llm_api_key");
    reveal_strlit("last_summary_date");
    reveal_strlit("window_x");
    reveal_strlit("window_y");
    reveal_strlit("window_width");
    reveal_strlit("window_height");
}

/// The settings with field `i` (in file order) taken from `v`.
spec fn set_entry(st: SettingsView, v: SettingsView, i: int) -> SettingsView {
    if i == 0 {
        SettingsView { summary_weekday: v.summary_weekday, ..st }
    } else if i == 1 {
        SettingsView { auto_summary: v.auto_summary, ..st }
    } else if i == 2 {
        SettingsView { launch_on_startup: v.launch_on_startup, ..st }
    } else if i == 3 {
        SettingsView { background_color: v.background_color, ..st }
    } else if i == 4 {
        SettingsView { window_alpha: v.window_alpha, ..st }
    } else if i == 5 {
        SettingsView { llm_api_url: v.llm_api_url, ..st }
    } else if i == 6 {
        SettingsView { llm_model: v.llm_model, ..st }
    } else if i == 7 {
        SettingsView { llm_api_key: v.llm_api_key, ..st }
    } else if i == 8 {
        SettingsView { last_summary_date: v.last_summary_date, ..st }
    } else if i == 9 {
        SettingsView { window_x: v.window_x, ..st }
    } else if i == 10 {
        SettingsView { window_y: v.window_y, ..st }
    } else if i == 11 {
        SettingsView { window_width: v.window_width, ..st }
    } else {
        SettingsView { window_height: v.window_height, ..st }
    }
}

spec fn set_entries(st: SettingsView, v: SettingsView, n: nat) -> SettingsView
    decreases n,
{
    if n == 0 {
        st
    } else {
        set_entry(set_entries(st, v, (n - 1) as nat), v, n - 1)
    }
}

proof fn lemma_settings_values(v: SettingsView)
    requires
        storable_settings(v),
    ensures
        forall|i: int| 0 <= i < 13 ==> no_char(#[trigger] settings_values(v)[i], '\n'),
        forall|i: int|
            0 <= i < 13 ==> unescape_text(trim_end(#[trigger] settings_values(v)[i]))
                == #[trigger] value_read(v, i),
{
    let vals = settings_values(v);
    lemma_nat_digits(v.summary_weekday as nat);
    lemma_nat_digits(v.window_alpha as nat);
    lemma_fmt_signed_chars(v.window_x as int, 0);
    lemma_fmt_signed_chars(v.window_y as int, 0);
    lemma_fmt_signed_chars(v.window_width as int, 0);
    lemma_fmt_signed_chars(v.window_height as int, 0);
    lemma_escape_value(v.background_color);
    lemma_escape_value(v.llm_api_url);
    lemma_escape_value(v.llm_model);
    lemma_escape_value(v.llm_api_key);
    lemma_escape_value(v.last_summary_date);
    // No value holds a line feed; those written without escaping hold no backslash either.
    assert forall|i: int| 0 <= i < 13 implies no_char(#[trigger] vals[i], '\n') && ((3 <= i <= 8 && i != 4) || no_char(vals[i], '\\')) by {
        if i == 0 || i == 4 {
            let d = vals[i];
            assert forall|j: int| 0 <= j < d.len() implies #[trigger] d[j] != '\n' && d[j] != '\\' by {
                assert(is_digit(d[j]));
            }
        } else if i >= 9 {
            let d = vals[i];
            assert forall|j: int| 0 <= j < d.len() implies #[trigger] d[j] != '\n' && d[j] != '\\' by {
                assert(is_digit(d[j]) || d[j] == '-');
            }
        }
    }
    assert forall|i: int| 0 <= i < 13 implies unescape_text(trim_end(#[trigger] vals[i])) == #[trigger] value_read(v, i) by {
        if i == 0 || i == 4 || i >= 9 {
            lemma_unescape_plain(vals[i]);
            if i == 0 {
                assert(is_digit(vals[i].last()));
            } else if i == 4 {
                assert(is_digit(vals[i].last()));
            }
        } else if i == 1 || i == 2 {
            assert(no_char(vals[i], '\\'));
            lemma_unescape_plain(vals[i]);
        }
    }
}

/// What the reader takes as the value of entry `i` of the settings file written for `v`.
spec fn value_read(v: SettingsView, i: int) -> Seq<char> {
    if i == 0 {
        nat_digits(v.summary_weekday as nat)
    } else if i == 1 {
        flag_text(v.auto_summary)
    } else if i == 2 {
        flag_text(v.launch_on_startup)
    } else if i == 3 {
        v.background_color
    } else if i == 4 {
        nat_digits(v.window_alpha as nat)
    } else if i == 5 {
        v.llm_api_url
    } else if i == 6 {
        v.llm_model
    } else if i == 7 {
        v.llm_api_key
    } else if i == 8 {
        v.last_summary_date
    } else if i == 9 {
        fmt_signed(v.window_x as int, 0)
    } else if i == 10 {
        fmt_signed(v.window_y as int, 0)
    } else if i == 11 {
        fmt_signed(v.window_width as int, 0)
    } else {
        fmt_signed(v.window_height as int, 0)
    }
}

proof fn lemma_apply_entry(st: SettingsView, v: SettingsView, i: int)
    requires
        storable_settings(v),
        0 <= i < 13,
    ensures
        apply_setting(st, entry_line(settings_keys(), settings_values(v), i)) == set_entry(st, v, i),
{
    reveal_strlit("summary_weekday");
    reveal_strlit("auto_summary");
    reveal_strlit("launch_on_startup");
    reveal_strlit("background_color");
    reveal_strlit("window_alpha");
    reveal_strlit("llm_api_url");
    reveal_strlit("llm_model");
    reveal_strlit("llm_api_key");
    reveal_strlit("last_summary_date");
    reveal_strlit("window_x");
    reveal_strlit("window_y");
    reveal_strlit("window_width");
    reveal_strlit("window_height");
    lemma_settings_keys();
    lemma_settings_values(v);
    let keys = settings_keys();
    let vals = settings_values(v);
    let key = keys[i];
    let val = vals[i];
    let line = entry_line(keys, vals, i);
    assert(no_char(key, '='));
    lemma_index_of_after(key, '=', val);
    assert(line.take(key.len() as int) =~= key);
    assert(line.skip(key.len() as int + 1) =~= val);
    lemma_trim_unchanged(key);
    assert(unescape_text(trim_end(val)) == value_read(v, i));
    if i == 0 {
        lemma_parse_fmt_unsigned(v.summary_weekday as nat, 0, u32::MAX as int);
        assert(fmt_unsigned(v.summary_weekday as nat, 0) == nat_digits(v.summary_weekday as nat));
    } else if i == 1 || i == 2 {
        assert(seq!['0'][0] != seq!['1'][0]);
    } else if i == 4 {
        lemma_parse_fmt_unsigned(v.window_alpha as nat, 0, u16::MAX as int);
        assert(fmt_unsigned(v.window_alpha as nat, 0) == nat_digits(v.window_alpha as nat));
    } else if i == 9 {
        lemma_parse_fmt_signed(v.window_x as int, 0, i32::MIN as int, i32::MAX as int);
    } else if i == 10 {
        lemma_parse_fmt_signed(v.window_y as int, 0, i32::MIN as int, i32::MAX as int);
    } else if i == 11 {
        lemma_parse_fmt_signed(v.window_width as int, 0, i32::MIN as int, i32::MAX as int);
    } else if i == 12 {
        lemma_parse_fmt_signed(v.window_height as int, 0, i32::MIN as int, i32::MAX as int);
    }
}

proof fn lemma_apply_entries(v: SettingsView, n: nat)
    requires
        storable_settings(v),
        n <= 13,
    ensures
        apply_settings(default_settings(), entry_lines(settings_keys(), settings_values(v), n))
            == set_entries(default_settings(), v, n),
    decreases n,
{
    let ls = entry_lines(settings_keys(), settings_values(v), n);
    if n == 0 {
        assert(ls =~= Seq::<Seq<char>>::empty());
    } else {
        lemma_apply_entries(v, (n - 1) as nat);
        assert(ls.drop_last() =~= entry_lines(settings_keys(), settings_values(v), (n - 1) as nat));
        lemma_apply_entry(set_entries(default_settings(), v, (n - 1) as nat), v, n - 1);
    }
}

/// Reading the settings file written for `v` gives `v` back, when the
/// numbers are within the ranges that the reader enforces and the texts
/// survive its trimming of line ends.
pub proof fn lemma_settings_file_round_trip(v: SettingsView)
    requires
        storable_settings(v),
    ensures
        load_settings_text(settings_file_text(v)) == v,
{
    let keys = settings_keys();
    let vals = settings_values(v);
    lemma_settings_keys();
    lemma_settings_values(v);
    assert forall|i: int| 0 <= i < 13 implies no_char(#[trigger] keys[i], '\n') && no_char(vals[i], '\n') by {}
    lemma_entries_pieces(keys, vals, 13);
    let p = entry_lines(keys, vals, 13) + seq![Seq::<char>::empty()];
    assert(p.last().len() == 0);
    assert(p.drop_last() =~= entry_lines(keys, vals, 13));
    lemma_apply_entries(v, 13);
    reveal_with_fuel(set_entries, 14);
    assert(set_entries(default_settings(), v, 13) == v);
}

} // verus!
