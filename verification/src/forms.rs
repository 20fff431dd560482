//! The dialogs' logic: the to-do form (its initial values and the checks on
//! what was typed), the date pickers, the settings form and the search of
//! completed tasks.
use vstd::prelude::*;
use crate::datetime::{parse_text, LocalDateTime};
use crate::board::{order_key, sort_by_key, sorted_tasks, TaskOrder};
use crate::colors::{alpha_of_text, color_text_sliceable, normalize_color_text, normalized_color, parse_alpha_text};
use crate::store::{task_views, Settings, SettingsView, Task, TaskView};
use crate::text::{
    chars_of, fmt_unsigned, push_char, push_unsigned_padded, split_words, string_of, trim, trim_chars,
    views, words,
};
use crate::win32::SYSTEMTIME;

verus! {

/// What the to-do form holds: title, due time as text, and note.
pub struct TodoFormResult {
    pub title: String,
    pub due: String,
    pub note: String,
}

impl TodoFormResult {
    /// The form filled in with a task, for editing it.
    pub fn from_task(task: &Task) -> (r: TodoFormResult)
        ensures
            r.title@ == task.title@,
            r.due@ == task.due.storage_text(),
            r.note@ == task.note@,
    {
        TodoFormResult { title: task.title.clone(), due: task.due.storage_string(), note: task.note.clone() }
    }

    /// An empty form for a new task, due now.
    pub fn blank(now: LocalDateTime) -> (r: TodoFormResult)
        ensures
            r.title@.len() == 0,
            r.due@ == now.storage_text(),
            r.note@.len() == 0,
    {
        TodoFormResult { title: String::new(), due: now.storage_string(), note: String::new() }
    }
}

/// The title of the to-do form.
pub fn todo_form_title(editing: bool) -> (r: &'static str)
    ensures
        r@ == if editing {
            "编辑待办"@
        } else {
            "新建待办"@
        },
{
    if editing {
        "编辑待办"
    } else {
        "新建待办"
    }
}

/// Why the to-do form cannot be saved.
pub enum TodoFormError {
    /// The title is blank: `待办事项不能为空`.
    EmptyTitle,
    /// The due time does not parse; the parser's message.
    BadDue(String),
}

/// Checks the to-do form: the title, trimmed, must not be blank, and the due
/// time must parse (a date alone means 18:00).
pub fn check_todo_form(title: &str, due: &str) -> (r: Result<(String, LocalDateTime), TodoFormError>)
    ensures
        trim(title@).len() == 0 ==> r matches Err(TodoFormError::EmptyTitle),
        trim(title@).len() > 0 ==> match r {
            Ok((t, d)) => t@ == trim(title@) && parse_text(due@, 18, 0) == Ok::<LocalDateTime, Seq<char>>(d),
            Err(TodoFormError::BadDue(e)) => parse_text(due@, 18, 0) == Err::<LocalDateTime, Seq<char>>(e@),
            Err(TodoFormError::EmptyTitle) => false,
        },
{
    let t = trim_chars(&chars_of(title));
    if t.len() == 0 {
        return Err(TodoFormError::EmptyTitle);
    }
    match LocalDateTime::parse(due) {
        Ok(d) => Ok((string_of(&t), d)),
        Err(e) => Err(TodoFormError::BadDue(e)),
    }
}

/// `HH:MM` of a time of day.
pub open spec fn clock_text(dt: LocalDateTime) -> Seq<char> {
    fmt_unsigned(dt.hour as nat, 2) + seq![':'] + fmt_unsigned(dt.minute as nat, 2)
}

/// The date of a range bound typed as text: none when blank or not a date
/// (a date alone means 00:00).
pub open spec fn start_bound_of(s: Seq<char>) -> Option<LocalDateTime> {
    if trim(s).len() == 0 {
        None
    } else {
        match parse_text(trim(s), 0, 0) {
            Ok(d) => Some(d),
            Err(_) => None,
        }
    }
}

/// How the form's date picker and time box start from the due text: a due
/// time that parses gives its date and `HH:MM`; otherwise the first word is
/// read as a date (else `now`) and the second word is the time (else `18:00`).
pub open spec fn due_initial(value: Seq<char>, now: LocalDateTime) -> (LocalDateTime, Seq<char>) {
    match parse_text(value, 18, 0) {
        Ok(dt) => (dt, clock_text(dt)),
        Err(_) => {
            let ws = words(value);
            let date = if ws.len() > 0 {
                match start_bound_of(ws[0]) {
                    Some(d) => d,
                    None => now,
                }
            } else {
                now
            };
            let time = if ws.len() > 1 && trim(ws[1]).len() > 0 {
                ws[1]
            } else {
                "18:00"@
            };
            (date, time)
        },
    }
}

/// Splits a due text into the date for the picker and the text for the time box.
pub fn split_due_initial(value: &str, now: LocalDateTime) -> (r: (LocalDateTime, String))
    ensures
        (r.0, r.1@) == due_initial(value@, now),
{
    if let Ok(dt) = LocalDateTime::parse(value) {
        let mut time = String::new();
        push_unsigned_padded(&mut time, dt.hour as u64, 2);
        push_char(&mut time, ':');
        push_unsigned_padded(&mut time, dt.minute as u64, 2);
        assert(time@ =~= clock_text(dt));
        return (dt, time);
    }
    let ws = split_words(&chars_of(value));
    let date = if ws.len() > 0 {
        assert(views(ws@)[0] == ws@[0]@);
        let first = string_of(&ws[0]);
        match LocalDateTime::parse_start_bound(first.as_str()) {
            Ok(Some(d)) => d,
            _ => now,
        }
    } else {
        now
    };
    let time = if ws.len() > 1 {
        assert(views(ws@)[1] == ws@[1]@);
        let t = trim_chars(&ws[1]);
        if t.len() > 0 {
            string_of(&ws[1])
        } else {
            String::from_str("18:00")
        }
    } else {
        String::from_str("18:00")
    };
    (date, time)
}

/// The due text from the form's date picker and time box: the date alone
/// when the time box is blank, else the date, a space and the trimmed time.
pub fn due_text(date: &LocalDateTime, time: &str) -> (r: String)
    ensures
        r@ == if trim(time@).len() == 0 {
            date.date_text()
        } else {
            date.date_text() + " "@ + trim(time@)
        },
{
    let t = trim_chars(&chars_of(time));
    let mut out = date.date_string();
    if t.len() > 0 {
        out.append(" ");
        out.append(string_of(&t).as_str());
    }
    out
}

/// The date a picker shows, at the given time of day, if it is a valid date.
pub fn picker_datetime(st: SYSTEMTIME, hour: u32, minute: u32) -> (r: Option<LocalDateTime>)
    ensures
        ({
            let dt = LocalDateTime {
                year: st.wYear as i32,
                month: st.wMonth as u32,
                day: st.wDay as u32,
                hour,
                minute,
            };
            r == if dt.is_valid() {
                Some(dt)
            } else {
                None::<LocalDateTime>
            }
        }),
{
    let dt = LocalDateTime {
        year: st.wYear as i32,
        month: st.wMonth as u32,
        day: st.wDay as u32,
        hour,
        minute,
    };
    match dt.validate() {
        Ok(()) => Some(dt),
        Err(_) => None,
    }
}

/// The system date for a date picker: the date's year, month and day (each
/// cut to 16 bits), midnight.
pub fn system_time_from_date(date: LocalDateTime) -> (r: SYSTEMTIME)
    ensures
        r == (SYSTEMTIME {
            wYear: date.year as u16,
            wMonth: date.month as u16,
            wDayOfWeek: 0,
            wDay: date.day as u16,
            wHour: 0,
            wMinute: 0,
            wSecond: 0,
            wMilliseconds: 0,
        }),
{
    SYSTEMTIME {
        wYear: #[verifier::truncate] (date.year as u16),
        wMonth: #[verifier::truncate] (date.month as u16),
        wDayOfWeek: 0,
        wDay: #[verifier::truncate] (date.day as u16),
        wHour: 0,
        wMinute: 0,
        wSecond: 0,
        wMilliseconds: 0,
    }
}

/// The weekday chosen in the settings form's list (index 0 = Monday), kept
/// within 1..=7.
pub open spec fn weekday_choice(index: u32) -> u32 {
    let w = index + 1;
    if w < 1 {
        1
    } else if w > 7 {
        7
    } else {
        w as u32
    }
}

/// The settings that the settings form gives, or the first error: the
/// background colour is checked before the opacity.
pub open spec fn settings_form_result(
    base: SettingsView,
    weekday_index: u32,
    auto_summary: bool,
    launch_on_startup: bool,
    background: Seq<char>,
    alpha: Seq<char>,
    api_url: Seq<char>,
    model: Seq<char>,
    api_key: Seq<char>,
) -> Result<SettingsView, Seq<char>> {
    match normalized_color(background) {
        Err(e) => Err(e),
        Ok(c) => match alpha_of_text(alpha) {
            Err(e) => Err(e),
            Ok(a) => Ok(
                SettingsView {
                    summary_weekday: weekday_choice(weekday_index),
                    auto_summary,
                    launch_on_startup,
                    background_color: c,
                    window_alpha: a,
                    llm_api_url: api_url,
                    llm_model: model,
                    llm_api_key: api_key,
                    ..base
                },
            ),
        },
    }
}

/// Reads the settings form over the current settings `base`.
pub fn settings_from_form(
    base: &Settings,
    weekday_index: u32,
    auto_summary: bool,
    launch_on_startup: bool,
    background: &str,
    alpha: &str,
    api_url: String,
    model: String,
    api_key: String,
) -> (r: Result<Settings, String>)
    requires
        weekday_index < u32::MAX,
        color_text_sliceable(background@),
    ensures
        match r {
            Ok(s) => settings_form_result(base@, weekday_index, auto_summary, launch_on_startup, background@, alpha@, api_url@, model@, api_key@)
                == Ok::<SettingsView, Seq<char>>(s@),
            Err(e) => settings_form_result(base@, weekday_index, auto_summary, launch_on_startup, background@, alpha@, api_url@, model@, api_key@)
                == Err::<SettingsView, Seq<char>>(e@),
        },
{
    let w = weekday_index + 1;
    let w = if w < 1 { 1 } else if w > 7 { 7 } else { w };
    let color = normalize_color_text(background)?;
    let a = parse_alpha_text(alpha)?;
    let mut s = base.duplicate();
    s.summary_weekday = w;
    s.auto_summary = auto_summary;
    s.launch_on_startup = launch_on_startup;
    s.background_color = color;
    s.window_alpha = a;
    s.llm_api_url = api_url;
    s.llm_model = model;
    s.llm_api_key = api_key;
    Ok(s)
}

/// What the settings form shows when it opens.
pub struct SettingsFormInit {
    /// Position in the weekday list (0 = Monday).
    pub weekday_index: u32,
    pub auto_summary: bool,
    pub launch_on_startup: bool,
    pub background: String,
    /// The opacity as a decimal number.
    pub alpha: String,
    pub api_url: String,
    pub model: String,
    pub api_key: String,
}

/// The settings form's initial contents.
pub fn settings_form_init(settings: &Settings) -> (r: SettingsFormInit)
    ensures
        r.weekday_index == if settings.summary_weekday >= 1 { settings.summary_weekday - 1 } else { 0 },
        r.auto_summary == settings.auto_summary,
        r.launch_on_startup == settings.launch_on_startup,
        r.background@ == settings.background_color@,
        r.alpha@ == fmt_unsigned(settings.window_alpha as nat, 0),
        r.api_url@ == settings.llm_api_url@,
        r.model@ == settings.llm_model@,
        r.api_key@ == settings.llm_api_key@,
{
    let mut alpha = String::new();
    push_unsigned_padded(&mut alpha, settings.window_alpha as u64, 0);
    SettingsFormInit {
        weekday_index: if settings.summary_weekday >= 1 { settings.summary_weekday - 1 } else { 0 },
        auto_summary: settings.auto_summary,
        launch_on_startup: settings.launch_on_startup,
        background: settings.background_color.clone(),
        alpha,
        api_url: settings.llm_api_url.clone(),
        model: settings.llm_model.clone(),
        api_key: settings.llm_api_key.clone(),
    }
}

/// Saving the settings form as it opened gives back the same settings,
/// when the weekday is one of 1..=7, the background colour is already
/// written as `#RRGGBB` in upper case and the opacity is at least 30.
pub proof fn lemma_settings_form_unchanged(base: SettingsView)
    requires
        1 <= base.summary_weekday <= 7,
        normalized_color(base.background_color) == Ok::<Seq<char>, Seq<char>>(base.background_color),
        30 <= base.window_alpha,
    ensures
        settings_form_result(
            base,
            (base.summary_weekday - 1) as u32,
            base.auto_summary,
            base.launch_on_startup,
            base.background_color,
            fmt_unsigned(base.window_alpha as nat, 0),
            base.llm_api_url,
            base.llm_model,
            base.llm_api_key,
        ) == Ok::<SettingsView, Seq<char>>(base),
{
    let a = fmt_unsigned(base.window_alpha as nat, 0);
    crate::text::lemma_fmt_unsigned(base.window_alpha as nat, 0);
    crate::text::lemma_parse_fmt_unsigned(base.window_alpha as nat, 0, 65535);
    assert(crate::text::is_digit(a[0]));
    assert(crate::text::is_digit(a.last()));
    crate::text::lemma_trim_unchanged(a);
    let r = settings_form_result(
        base,
        (base.summary_weekday - 1) as u32,
        base.auto_summary,
        base.launch_on_startup,
        base.background_color,
        a,
        base.llm_api_url,
        base.llm_model,
        base.llm_api_key,
    );
    assert(r == Ok::<SettingsView, Seq<char>>(base));
}

/// The lower-case form of a text, as `str::to_lowercase` gives it (full
/// Unicode case mapping).
pub uninterp spec fn lowercase(s: Seq<char>) -> Seq<char>;

/// `str::to_lowercase`. Its contract claims only that the result is
/// `lowercase` of the text: the same text always lowers to the same result.
/// The Unicode case mapping itself is not stated.
#[verifier::external_body]
fn to_lowercase(s: &str) -> (r: String)
    ensures
        r@ == lowercase(s@),
{
    s.to_lowercase()
}

/// `needle` occurs in `hay` (as `str::contains`).
pub open spec fn contains_text(hay: Seq<char>, needle: Seq<char>) -> bool {
    exists|i: int| 0 <= i && i + needle.len() <= hay.len() && #[trigger] hay.subrange(i, i + needle.len()) == needle
}

/// Whether `needle` occurs in `hay`.
pub fn contains_chars(hay: &Vec<char>, needle: &Vec<char>) -> (r: bool)
    ensures
        r == contains_text(hay@, needle@),
{
    if needle.len() > hay.len() {
        return false;
    }
    let n = needle.len();
    let last = hay.len() - n;
    let mut i: usize = 0;
    while i <= last
        invariant
            n == needle.len(),
            last == hay.len() - n,
            i <= last + 1,
            forall|k: int| 0 <= k < i ==> #[trigger] hay@.subrange(k, k + n) != needle@,
        decreases last + 1 - i,
    {
        let mut j: usize = 0;
        while j < n && hay[i + j] == needle[j]
            invariant
                j <= n,
                n == needle.len(),
                i <= last,
                last == hay.len() - n,
                hay@.subrange(i as int, i + j) == needle@.take(j as int),
            decreases n - j,
        {
            assert(hay@.subrange(i as int, i + j + 1) =~= needle@.take(j + 1));
            j += 1;
        }
        if j == n {
            assert(needle@.take(n as int) =~= needle@);
            assert(hay@.subrange(i as int, i + n) == needle@);
            return true;
        }
        assert(hay@.subrange(i as int, i + n)[j as int] != needle@[j as int]);
        i += 1;
    }
    proof {
        assert forall|k: int| 0 <= k && k + n <= hay@.len() implies #[trigger] hay@.subrange(k, k + n) != needle@ by {}
    }
    false
}

/// A completed task matches a search: its lower-cased title contains the
/// lower-cased name (any title when the name is blank), and it was completed
/// within the bounds that are given.
pub open spec fn search_hit(t: TaskView, name_lc: Seq<char>, start: Option<LocalDateTime>, end: Option<LocalDateTime>) -> bool {
    &&& t.completed
    &&& (name_lc.len() == 0 || contains_text(lowercase(t.title), name_lc))
    &&& match t.completed_at {
        None => false,
        Some(d) => (match start {
            Some(s) => d.minute_number() >= s.minute_number(),
            None => true,
        }) && (match end {
            Some(e) => d.minute_number() <= e.minute_number(),
            None => true,
        }),
    }
}

/// The tasks that match a search, in list order.
pub open spec fn search_matches(
    s: Seq<TaskView>,
    name_lc: Seq<char>,
    start: Option<LocalDateTime>,
    end: Option<LocalDateTime>,
) -> Seq<TaskView>
    decreases s.len(),
{
    if s.len() == 0 {
        s
    } else if search_hit(s.last(), name_lc, start, end) {
        search_matches(s.drop_last(), name_lc, start, end).push(s.last())
    } else {
        search_matches(s.drop_last(), name_lc, start, end)
    }
}

/// One found task in the search result text.
pub open spec fn search_entry(t: TaskView) -> Seq<char> {
    "["@ + crate::text::nat_digits(t.id as nat) + "] "@ + t.title + "\r\n完成："@ + match t.completed_at {
        Some(d) => d.storage_text(),
        None => "未记录"@,
    } + "\r\n截止："@ + t.due.storage_text() + "\r\n备注："@ + crate::summary::note_or(t.note, "无"@)
        + "\r\n\r\n"@
}

/// The entries of the found tasks, in order.
pub open spec fn search_entries(ts: Seq<TaskView>) -> Seq<char>
    decreases ts.len(),
{
    if ts.len() == 0 {
        Seq::empty()
    } else {
        search_entries(ts.drop_last()) + search_entry(ts.last())
    }
}

/// The search result text: the count, then each found task.
pub open spec fn search_text(ts: Seq<TaskView>) -> Seq<char> {
    "共找到 "@ + crate::text::nat_digits(ts.len()) + " 条完成记录\r\n\r\n"@ + search_entries(ts)
}

/// Both bounds are given and the start is later than the end.
pub open spec fn bounds_reversed(start: Option<LocalDateTime>, end: Option<LocalDateTime>) -> bool {
    match (start, end) {
        (Some(s), Some(e)) => s.minute_number() > e.minute_number(),
        _ => false,
    }
}

/// Searches the completed tasks by name and completion time; the start may
/// not be later than the end. Found tasks come latest completion first.
pub fn search_completed(
    tasks: &Vec<Task>,
    name: &str,
    start: Option<LocalDateTime>,
    end: Option<LocalDateTime>,
) -> (r: Result<String, String>)
    ensures
        bounds_reversed(start, end) ==> (r matches Err(m) && m@ == "开始日期不能晚于结束日期"@),
        !bounds_reversed(start, end) ==> (r matches Ok(text) && text@ == search_text(
            sort_by_key(
                search_matches(task_views(tasks@), lowercase(trim(name@)), start, end),
                order_key(TaskOrder::DoneLatestFirst),
            ),
        )),
{
    if let (Some(s), Some(e)) = (start, end) {
        if s.minutes_key() > e.minutes_key() {
            return Err(String::from_str("开始日期不能晚于结束日期"));
        }
    }
    let trimmed = string_of(&trim_chars(&chars_of(name)));
    let name_lc = chars_of(to_lowercase(trimmed.as_str()).as_str());
    let ghost tv = task_views(tasks@);
    let mut picked: Vec<Task> = Vec::new();
    let mut i: usize = 0;
    assert(tv.take(0) =~= Seq::<TaskView>::empty());
    while i < tasks.len()
        invariant
            i <= tasks.len(),
            tv == task_views(tasks@),
            name_lc@ == lowercase(trim(name@)),
            task_views(picked@) == search_matches(tv.take(i as int), name_lc@, start, end),
        decreases tasks.len() - i,
    {
        assert(tv.take(i + 1).drop_last() =~= tv.take(i as int));
        assert(tv.take(i + 1).last() == tasks@[i as int]@);
        let t = &tasks[i];
        let name_ok = name_lc.len() == 0 || {
            let title_lc = chars_of(to_lowercase(t.title.as_str()).as_str());
            contains_chars(&title_lc, &name_lc)
        };
        let time_ok = match t.completed_at {
            None => false,
            Some(d) => {
                let k = d.minutes_key();
                (match start {
                    Some(s) => k >= s.minutes_key(),
                    None => true,
                }) && (match end {
                    Some(e) => k <= e.minutes_key(),
                    None => true,
                })
            },
        };
        if t.completed && name_ok && time_ok {
            let ghost before = picked@;
            picked.push(t.duplicate());
            assert(task_views(picked@) =~= task_views(before).push(tasks@[i as int]@));
        }
        i += 1;
    }
    assert(tv.take(tasks.len() as int) =~= tv);
    let found = sorted_tasks(picked, TaskOrder::DoneLatestFirst);
    Ok(search_report(&found))
}

/// Appends the entry of one found task.
fn push_search_entry(text: &mut String, t: &Task)
    ensures
        final(text)@ == old(text)@ + search_entry(t@),
{
    text.append("[");
    crate::text::push_digits(text, t.id);
    text.append("] ");
    text.append(t.title.as_str());
    text.append("\r\n完成：");
    match t.completed_at {
        Some(d) => text.append(d.storage_string().as_str()),
        None => text.append("未记录"),
    }
    text.append("\r\n截止：");
    text.append(t.due.storage_string().as_str());
    text.append("\r\n备注：");
    crate::summary::push_note_or(text, &t.note, "无");
    text.append("\r\n\r\n");
    assert(text@ =~= old(text)@ + search_entry(t@));
}

/// The search result text for the found tasks, in the order given.
pub fn search_report(found: &Vec<Task>) -> (r: String)
    ensures
        r@ == search_text(task_views(found@)),
{
    let mut text = String::from_str("共找到 ");
    crate::text::push_digits(&mut text, found.len() as u64);
    text.append(" 条完成记录\r\n\r\n");
    let ghost fv = task_views(found@);
    let ghost head = text@;
    let mut k: usize = 0;
    assert(fv.take(0) =~= Seq::<TaskView>::empty());
    while k < found.len()
        invariant
            k <= found.len(),
            fv == task_views(found@),
            text@ == head + search_entries(fv.take(k as int)),
        decreases found.len() - k,
    {
        assert(fv.take(k + 1).drop_last() =~= fv.take(k as int));
        assert(fv.take(k + 1).last() == found@[k as int]@);
        push_search_entry(&mut text, &found[k]);
        k += 1;
        assert(text@ =~= head + search_entries(fv.take(k as int)));
    }
    assert(fv.take(found.len() as int) =~= fv);
    text
}

/// The conditions under which a search finds a task, each bound on its own:
/// completed, with a completion time not before `start` when a start is
/// given and not after `end` when an end is given, and a lower-cased title
/// that holds the lower-cased name (any title for a blank name).
proof fn lemma_search_matches_members(
    s: Seq<TaskView>,
    name_lc: Seq<char>,
    start: Option<LocalDateTime>,
    end: Option<LocalDateTime>,
)
    ensures
        forall|t: TaskView| #[trigger] search_matches(s, name_lc, start, end).contains(t) <==> (s.contains(t) && search_hit(t, name_lc, start, end)),
    decreases s.len(),
{
    if s.len() > 0 {
        let init = s.drop_last();
        lemma_search_matches_members(init, name_lc, start, end);
        let p = search_matches(init, name_lc, start, end);
        let m = search_matches(s, name_lc, start, end);
        assert forall|t: TaskView| #[trigger] m.contains(t) <==> (s.contains(t) && search_hit(t, name_lc, start, end)) by {
            if m.contains(t) {
                let j = choose|j: int| 0 <= j < m.len() && m[j] == t;
                if j < p.len() {
                    assert(m[j] == p[j]);
                    assert(p.contains(t));
                    let k = choose|k: int| 0 <= k < init.len() && init[k] == t;
                    assert(s[k] == t);
                } else {
                    assert(s[s.len() - 1] == t);
                }
            }
            if s.contains(t) && search_hit(t, name_lc, start, end) {
                let k = choose|k: int| 0 <= k < s.len() && s[k] == t;
                if k < s.len() - 1 {
                    assert(init[k] == t);
                    assert(p.contains(t));
                    let j = choose|j: int| 0 <= j < p.len() && p[j] == t;
                    assert(m[j] == t);
                } else {
                    assert(m[m.len() - 1] == t);
                }
            }
        }
    }
}

/// A search finds exactly the completed tasks of the list whose completion
/// time is not before `start` when a start is given and not after `end` when
/// an end is given (each bound applied on its own) and whose lower-cased
/// title holds the lower-cased name (any title for a blank name); it lists
/// them latest completion first.
pub proof fn lemma_search_finds(s: Seq<TaskView>, name_lc: Seq<char>, start: Option<LocalDateTime>, end: Option<LocalDateTime>)
    ensures
        ({
            let r = sort_by_key(search_matches(s, name_lc, start, end), order_key(TaskOrder::DoneLatestFirst));
            &&& forall|t: TaskView| #[trigger] r.contains(t) <==> {
                &&& s.contains(t)
                &&& t.completed
                &&& t.completed_at is Some
                &&& (start is Some ==> t.completed_at->0.minute_number() >= start->0.minute_number())
                &&& (end is Some ==> t.completed_at->0.minute_number() <= end->0.minute_number())
                &&& (name_lc.len() == 0 || contains_text(lowercase(t.title), name_lc))
            }
            &&& forall|i: int, j: int| 0 <= i < j < r.len() ==> (#[trigger] r[i]).completed_at->0.minute_number()
                >= (#[trigger] r[j]).completed_at->0.minute_number()
        }),
{
    let m = search_matches(s, name_lc, start, end);
    lemma_search_matches_members(s, name_lc, start, end);
    crate::board::lemma_sort_by_key(m, order_key(TaskOrder::DoneLatestFirst));
    let r = sort_by_key(m, order_key(TaskOrder::DoneLatestFirst));
    assert forall|t: TaskView| #[trigger] r.contains(t) <==> m.contains(t) by {
        broadcast use vstd::seq_lib::group_to_multiset_ensures;
        if r.contains(t) {
            assert(r.to_multiset().count(t) > 0);
        }
        if m.contains(t) {
            assert(m.to_multiset().count(t) > 0);
        }
    }
    assert forall|i: int, j: int| 0 <= i < j < r.len() implies (#[trigger] r[i]).completed_at->0.minute_number()
        >= (#[trigger] r[j]).completed_at->0.minute_number() by {
        assert(r.contains(r[i]) && r.contains(r[j]));
        assert(m.contains(r[i]) && m.contains(r[j]));
        assert(search_hit(r[i], name_lc, start, end));
        assert(search_hit(r[j], name_lc, start, end));
        assert((order_key(TaskOrder::DoneLatestFirst))(r[i]) <= (order_key(TaskOrder::DoneLatestFirst))(r[j]));
    }
}

} // verus!
