//! Weekly summaries: the prompt for a language model, the local draft used
//! when no model answers, and the decisions around a model call.
use vstd::prelude::*;
use crate::datetime::LocalDateTime;
use crate::board::Board;
use crate::store::{task_views, Task, TaskView, Settings, SettingsView};
use crate::text::{chars_of, nat_digits, push_char, push_digits, string_of, trim, trim_chars, trim_end, trim_start};

verus! {

/// `std::path::PathBuf`, declared so that the path a summary was written to
/// can be carried through as an opaque value; nothing is claimed about it.
#[verifier::external_type_specification]
#[verifier::external_body]
pub struct ExPathBuf(std::path::PathBuf);

/// A generated summary and where it was stored.
pub struct SummaryResult {
    pub text: String,
    pub path: std::path::PathBuf,
    pub used_llm: bool,
    pub note: String,
    pub date: String,
}

/// A task's note as the summaries show it: trimmed, or `default` when blank.
pub open spec fn note_or(note: Seq<char>, default: Seq<char>) -> Seq<char> {
    if trim(note).len() == 0 {
        default
    } else {
        trim(note)
    }
}

/// The prompt line of one completed task.
pub open spec fn prompt_task_line(t: TaskView) -> Seq<char> {
    "- 完成时间："@ + match t.completed_at {
        Some(d) => d.storage_text(),
        None => "未记录完成时间"@,
    } + "；事项："@ + t.title + "；截止："@ + t.due.storage_text() + "；备注："@ + note_or(
        t.note,
        "无"@,
    ) + seq!['\n']
}

/// The prompt lines of the tasks, in order.
pub open spec fn prompt_task_lines(ts: Seq<TaskView>) -> Seq<char>
    decreases ts.len(),
{
    if ts.len() == 0 {
        Seq::empty()
    } else {
        prompt_task_lines(ts.drop_last()) + prompt_task_line(ts.last())
    }
}

/// Weekday name of a date-time, as `cn_weekday` gives it.
pub open spec fn weekday_text(dt: LocalDateTime) -> Seq<char> {
    crate::datetime::weekday_label(((dt.day_number() + 3) % 7 + 1) as u32)
}

/// The prompt that asks a model for a summary of the tasks completed between `start` and `end`.
pub open spec fn prompt_text(ts: Seq<TaskView>, start: LocalDateTime, end: LocalDateTime) -> Seq<char> {
    "请根据以下完成事项生成一份简洁、专业的中文工作总结。\n"@
        + "要求：包含本周完成、关键产出、风险/阻塞、下周建议四部分；不要编造不存在的事实；语气适合发给主管或团队。\n\n"@
        + "统计范围："@ + start.storage_text() + "（"@ + weekday_text(start) + "）到 "@
        + end.storage_text() + "（"@ + weekday_text(end) + "）\n"@ + "完成事项数量："@
        + nat_digits(ts.len()) + "\n\n"@ + prompt_task_lines(ts)
}

pub(crate) fn push_note_or(out: &mut String, note: &String, default: &str)
    ensures
        final(out)@ == old(out)@ + note_or(note@, default@),
{
    let n = chars_of(note.as_str());
    let t = trim_chars(&n);
    if t.len() == 0 {
        out.append(default);
    } else {
        out.append(string_of(&t).as_str());
    }
}

fn push_prompt_task_line(prompt: &mut String, task: &Task)
    ensures
        final(prompt)@ == old(prompt)@ + prompt_task_line(task@),
{
    prompt.append("- 完成时间：");
    match task.completed_at {
        Some(dt) => prompt.append(dt.storage_string().as_str()),
        None => prompt.append("未记录完成时间"),
    }
    prompt.append("；事项：");
    prompt.append(task.title.as_str());
    prompt.append("；截止：");
    prompt.append(task.due.storage_string().as_str());
    prompt.append("；备注：");
    push_note_or(prompt, &task.note, "无");
    push_char(prompt, '\n');
    assert(prompt@ =~= old(prompt)@ + prompt_task_line(task@));
}

/// The prompt for the model.
pub fn build_prompt(tasks: &[Task], start: LocalDateTime, end: LocalDateTime) -> (r: String)
    ensures
        r@ == prompt_text(task_views(tasks@), start, end),
{
    let mut prompt = String::new();
    prompt.append("请根据以下完成事项生成一份简洁、专业的中文工作总结。\n");
    prompt.append("要求：包含本周完成、关键产出、风险/阻塞、下周建议四部分；不要编造不存在的事实；语气适合发给主管或团队。\n\n");
    prompt.append("统计范围：");
    prompt.append(start.storage_string().as_str());
    prompt.append("（");
    prompt.append(start.cn_weekday());
    prompt.append("）到 ");
    prompt.append(end.storage_string().as_str());
    prompt.append("（");
    prompt.append(end.cn_weekday());
    prompt.append("）\n");
    prompt.append("完成事项数量：");
    push_digits(&mut prompt, tasks.len() as u64);
    prompt.append("\n\n");
    let ghost head = prompt@;
    let ghost tv = task_views(tasks@);
    let mut i: usize = 0;
    assert(tv.take(0) =~= Seq::<TaskView>::empty());
    assert(head == prompt@ + prompt_task_lines(tv.take(0)));
    while i < tasks.len()
        invariant
            i <= tasks.len(),
            tv == task_views(tasks@),
            prompt@ == head + prompt_task_lines(tv.take(i as int)),
        decreases tasks.len() - i,
    {
        let task = &tasks[i];
        push_prompt_task_line(&mut prompt, task);
        proof {
            assert(tv.take(i + 1).drop_last() =~= tv.take(i as int));
            assert(tv.take(i + 1).last() == task@);
        }
        i += 1;
    }
    assert(tv.take(tasks.len() as int) =~= tv);
    assert(prompt@ =~= prompt_text(tv, start, end));
    prompt
}

/// The draft line of one completed task.
pub open spec fn draft_task_line(t: TaskView) -> Seq<char> {
    "- "@ + match t.completed_at {
        Some(d) => d.short_text(),
        None => "未记录"@,
    } + "："@ + t.title + "（截止 "@ + t.due.short_text() + "）"@ + (if trim(t.note).len() == 0 {
        Seq::<char>::empty()
    } else {
        "；备注："@ + trim(t.note)
    }) + seq!['\n']
}

/// The draft lines of the tasks, in order.
pub open spec fn draft_task_lines(ts: Seq<TaskView>) -> Seq<char>
    decreases ts.len(),
{
    if ts.len() == 0 {
        Seq::empty()
    } else {
        draft_task_lines(ts.drop_last()) + draft_task_line(ts.last())
    }
}

/// The local draft summary: a title with the range, an optional remark, the
/// completed tasks (or a line saying there are none), their count, and fixed
/// sections on risks and next steps.
pub open spec fn draft_text(
    ts: Seq<TaskView>,
    start: LocalDateTime,
    end: LocalDateTime,
    remark: Option<Seq<char>>,
) -> Seq<char> {
    "# 工作总结（"@ + start.storage_text() + " 至 "@ + end.storage_text() + "）\n\n"@ + match remark {
        Some(r) => "> 说明："@ + r + "。\n\n"@,
        None => Seq::empty(),
    } + "## 本周完成\n\n"@ + (if ts.len() == 0 {
        "- 本周期暂无已完成事项记录。\n"@
    } else {
        draft_task_lines(ts)
    }) + "\n## 关键产出\n\n"@ + "- 共完成 "@ + nat_digits(ts.len()) + " 项工作。\n"@
        + "\n## 风险/阻塞\n\n- 请根据实际情况补充延期、协作或资源风险。\n"@
        + "\n## 下周建议\n\n- 优先处理临近截止时间的事项，并继续补充任务备注，便于下次自动总结。\n"@
}

#[verifier::spinoff_prover]
fn push_draft_task_line(text: &mut String, task: &Task)
    ensures
        final(text)@ == old(text)@ + draft_task_line(task@),
{
    text.append("- ");
    match task.completed_at {
        Some(dt) => text.append(dt.short_string().as_str()),
        None => text.append("未记录"),
    }
    text.append("：");
    text.append(task.title.as_str());
    text.append("（截止 ");
    text.append(task.due.short_string().as_str());
    text.append("）");
    let n = chars_of(task.note.as_str());
    let t = trim_chars(&n);
    if t.len() != 0 {
        text.append("；备注：");
        text.append(string_of(&t).as_str());
    }
    push_char(text, '\n');
    assert(text@ =~= old(text)@ + draft_task_line(task@));
}

/// The local draft summary of the tasks completed between `start` and `end`,
/// with an optional remark on why no model wrote it.
pub fn build_local_summary(tasks: &[Task], start: LocalDateTime, end: LocalDateTime, note: Option<&str>) -> (r: String)
    ensures
        r@ == draft_text(
            task_views(tasks@),
            start,
            end,
            match note {
                Some(n) => Some(n@),
                None => None,
            },
        ),
{
    let mut text = String::new();
    text.append("# 工作总结（");
    text.append(start.storage_string().as_str());
    text.append(" 至 ");
    text.append(end.storage_string().as_str());
    text.append("）\n\n");
    match note {
        Some(n) => {
            text.append("> 说明：");
            text.append(n);
            text.append("。\n\n");
        },
        None => {},
    }
    text.append("## 本周完成\n\n");
    let ghost tv = task_views(tasks@);
    if tasks.len() == 0 {
        text.append("- 本周期暂无已完成事项记录。\n");
    } else {
        let ghost head = text@;
        let mut i: usize = 0;
        assert(tv.take(0) =~= Seq::<TaskView>::empty());
        assert(head == text@ + draft_task_lines(tv.take(0)));
        while i < tasks.len()
            invariant
                i <= tasks.len(),
                tv == task_views(tasks@),
                text@ == head + draft_task_lines(tv.take(i as int)),
            decreases tasks.len() - i,
        {
            let task = &tasks[i];
            push_draft_task_line(&mut text, task);
            proof {
                assert(tv.take(i + 1).drop_last() =~= tv.take(i as int));
                assert(tv.take(i + 1).last() == task@);
            }
            i += 1;
        }
        assert(tv.take(tasks.len() as int) =~= tv);
    }
    text.append("\n## 关键产出\n\n");
    text.append("- 共完成 ");
    push_digits(&mut text, tasks.len() as u64);
    text.append(" 项工作。\n");
    text.append("\n## 风险/阻塞\n\n- 请根据实际情况补充延期、协作或资源风险。\n");
    text.append("\n## 下周建议\n\n- 优先处理临近截止时间的事项，并继续补充任务备注，便于下次自动总结。\n");
    assert(text@ =~= draft_text(
        tv,
        start,
        end,
        match note {
            Some(n) => Some(n@),
            None => None,
        },
    ));
    text
}

/// `s` without trailing `c` characters (as `str::trim_end_matches` with a char).
pub open spec fn strip_trailing(s: Seq<char>, c: char) -> Seq<char>
    decreases s.len(),
{
    if s.len() > 0 && s.last() == c {
        strip_trailing(s.drop_last(), c)
    } else {
        s
    }
}

/// The chat-completions endpoint for a configured API URL: trimmed, without
/// trailing slashes, and ending in `/chat/completions`.
pub open spec fn chat_url(value: Seq<char>) -> Seq<char> {
    let t = strip_trailing(trim(value), '/');
    let suffix = "/chat/completions"@;
    if t.len() >= suffix.len() && t.subrange(t.len() - suffix.len(), t.len() as int) == suffix {
        t
    } else {
        t + suffix
    }
}

/// Turns a configured API URL into the chat-completions endpoint.
pub fn normalize_chat_completions_url(value: &str) -> (r: String)
    ensures
        r@ == chat_url(value@),
{
    let v = chars_of(value);
    let t0 = trim_chars(&v);
    let mut n = t0.len();
    assert(t0@.take(n as int) =~= t0@);
    while n > 0 && t0[n - 1] == '/'
        invariant
            n <= t0.len(),
            strip_trailing(t0@, '/') == strip_trailing(t0@.take(n as int), '/'),
        decreases n,
    {
        assert(t0@.take(n - 1) =~= t0@.take(n as int).drop_last());
        n -= 1;
    }
    let mut t: Vec<char> = Vec::new();
    let mut i: usize = 0;
    while i < n
        invariant
            i <= n <= t0.len(),
            t@ =~= t0@.take(i as int),
        decreases n - i,
    {
        t.push(t0[i]);
        i += 1;
    }
    let suffix = chars_of("/chat/completions");
    let mut ends = t.len() >= suffix.len();
    if ends {
        let base = t.len() - suffix.len();
        let mut j: usize = 0;
        while j < suffix.len()
            invariant
                base + suffix.len() == t.len(),
                j <= suffix.len(),
                ends <==> forall|k: int| 0 <= k < j ==> t@[base + k] == suffix@[k],
            decreases suffix.len() - j,
        {
            if t[base + j] != suffix[j] {
                ends = false;
            }
            j += 1;
        }
        assert(ends <==> t@.subrange(base as int, t.len() as int) =~= suffix@);
    }
    let mut out = string_of(&t);
    if !ends {
        out.append("/chat/completions");
    }
    out
}

/// A model is configured: both the API URL and the model name are not blank.
pub open spec fn llm_configured_spec(url: Seq<char>, model: Seq<char>) -> bool {
    trim(url).len() > 0 && trim(model).len() > 0
}

/// Whether the settings name a model to call.
pub fn llm_configured(settings: &Settings) -> (r: bool)
    ensures
        r == llm_configured_spec(settings.llm_api_url@, settings.llm_model@),
{
    let url = chars_of(settings.llm_api_url.as_str());
    let model = chars_of(settings.llm_model.as_str());
    trim_chars(&url).len() != 0 && trim_chars(&model).len() != 0
}

/// The endpoint and the model to call, or why a call cannot be made.
pub fn llm_target(settings: &Settings) -> (r: Result<(String, String), String>)
    ensures
        match r {
            Ok((url, model)) => url@ == chat_url(trim(settings.llm_api_url@)) && url@.len() > 0
                && model@ == trim(settings.llm_model@) && model@.len() > 0,
            Err(e) => (chat_url(trim(settings.llm_api_url@)).len() == 0 && e@ == "API URL 未配置"@)
                || (chat_url(trim(settings.llm_api_url@)).len() > 0 && trim(settings.llm_model@).len()
                == 0 && e@ == "模型名未配置"@),
        },
{
    let raw = chars_of(settings.llm_api_url.as_str());
    let trimmed = string_of(&trim_chars(&raw));
    let url = normalize_chat_completions_url(trimmed.as_str());
    let url_chars = chars_of(url.as_str());
    if url_chars.len() == 0 {
        return Err(String::from_str("API URL 未配置"));
    }
    let m = chars_of(settings.llm_model.as_str());
    let model = trim_chars(&m);
    if model.len() == 0 {
        return Err(String::from_str("模型名未配置"));
    }
    Ok((url, string_of(&model)))
}

/// The value of the `Authorization` header: `Bearer` and the trimmed API key,
/// or none when the key is blank.
pub fn bearer_header_value(settings: &Settings) -> (r: Option<String>)
    ensures
        match r {
            Some(h) => trim(settings.llm_api_key@).len() > 0 && h@ == "Bearer "@ + trim(
                settings.llm_api_key@,
            ),
            None => trim(settings.llm_api_key@).len() == 0,
        },
{
    let k = chars_of(settings.llm_api_key.as_str());
    let key = trim_chars(&k);
    if key.len() == 0 {
        return None;
    }
    let mut h = String::from_str("Bearer ");
    h.append(string_of(&key).as_str());
    Some(h)
}

/// The text of a model's reply: the first choice's message content, else the
/// `output_text` field, else an error.
pub fn reply_text(choice_content: Option<String>, output_text: Option<String>) -> (r: Result<String, String>)
    ensures
        match choice_content {
            Some(c) => r == Ok::<String, String>(c),
            None => match output_text {
                Some(o) => r == Ok::<String, String>(o),
                None => r matches Err(e) && e@ == "无法从响应中提取文本内容"@,
            },
        },
{
    match choice_content {
        Some(c) => Ok(c),
        None => match output_text {
            Some(o) => Ok(o),
            None => Err(String::from_str("无法从响应中提取文本内容")),
        },
    }
}

/// The error for a reply whose status is not a success: `API 返回错误状态 {status}：{body}`.
pub fn status_failure(status: &str, body: &str) -> (r: String)
    ensures
        r@ == "API 返回错误状态 "@ + status@ + "："@ + body@,
{
    let mut m = String::from_str("API 返回错误状态 ");
    m.append(status);
    m.append("：");
    m.append(body);
    m
}

/// The error for a summary that could not be written: `写入周报失败：{err}`.
pub fn write_failure(err: &str) -> (r: String)
    ensures
        r@ == "写入周报失败："@ + err@,
{
    let mut m = String::from_str("写入周报失败：");
    m.append(err);
    m
}

/// Summary text, whether a model wrote it, and the note for the user, given
/// what the model call gave (`None` when no model is configured).
pub open spec fn outcome_spec(
    ts: Seq<TaskView>,
    start: LocalDateTime,
    end: LocalDateTime,
    reply: Option<Result<Seq<char>, Seq<char>>>,
) -> (Seq<char>, bool, Seq<char>) {
    match reply {
        Some(Ok(t)) => if trim(t).len() > 0 {
            (t, true, "已使用大模型生成"@)
        } else {
            (draft_text(ts, start, end, Some("大模型返回为空"@)), false, "大模型返回为空，已生成本地草稿"@)
        },
        Some(Err(e)) => (
            draft_text(ts, start, end, Some("大模型调用失败，已生成本地草稿"@)),
            false,
            "大模型调用失败，已生成本地草稿："@ + e,
        ),
        None => (
            draft_text(ts, start, end, Some("尚未配置大模型 API URL 和模型名"@)),
            false,
            "尚未配置大模型，已生成本地草稿"@,
        ),
    }
}

/// The views of what the model call gave, if it was made.
pub open spec fn reply_views(reply: Option<Result<String, String>>) -> Option<Result<Seq<char>, Seq<char>>> {
    match reply {
        Some(Ok(t)) => Some(Ok(t@)),
        Some(Err(e)) => Some(Err(e@)),
        None => None,
    }
}

/// Decides the summary text, whether a model wrote it, and the note for the user.
pub fn summary_outcome(
    tasks: &[Task],
    start: LocalDateTime,
    end: LocalDateTime,
    reply: Option<Result<String, String>>,
) -> (r: (String, bool, String))
    ensures
        (r.0@, r.1, r.2@) == outcome_spec(
            task_views(tasks@),
            start,
            end,
            match reply {
                Some(Ok(t)) => Some(Ok(t@)),
                Some(Err(e)) => Some(Err(e@)),
                None => None,
            },
        ),
        !r.1 ==> exists|rm: Seq<char>| r.0@ == #[trigger] draft_text(task_views(tasks@), start, end, Some(rm)),
{
    proof {
        lemma_summary_outcome_text(task_views(tasks@), start, end, reply_views(reply));
    }
    match reply {
        Some(Ok(text)) => {
            let c = chars_of(text.as_str());
            if trim_chars(&c).len() != 0 {
                (text, true, String::from_str("已使用大模型生成"))
            } else {
                (
                    build_local_summary(tasks, start, end, Some("大模型返回为空")),
                    false,
                    String::from_str("大模型返回为空，已生成本地草稿"),
                )
            }
        },
        Some(Err(err)) => {
            let mut note = String::from_str("大模型调用失败，已生成本地草稿：");
            note.append(err.as_str());
            (build_local_summary(tasks, start, end, Some("大模型调用失败，已生成本地草稿")), false, note)
        },
        None => (
            build_local_summary(tasks, start, end, Some("尚未配置大模型 API URL 和模型名")),
            false,
            String::from_str("尚未配置大模型，已生成本地草稿"),
        ),
    }
}

/// The file name of the summary for `date`: `summary-{date}.md`.
pub fn summary_file_name(date: &str) -> (r: String)
    ensures
        r@ == "summary-"@ + date@ + ".md"@,
{
    let mut n = String::from_str("summary-");
    n.append(date);
    n.append(".md");
    n
}

/// Where the generation of a summary stands.
pub enum SummaryStage {
    /// Nothing has been done yet.
    Start,
    /// The model has been asked; its reply is awaited.
    AwaitingReply,
    /// The text is decided and is being written to the date's file.
    AwaitingWrite { text: String, used_llm: bool, note: String, date: String },
    /// The result has been given.
    Finished,
}

/// What the outside world reports to a summary being generated.
pub enum SummaryEvent {
    /// Generation is to begin.
    Begin,
    /// The model answered with a text, or the call failed with a message.
    ModelReplied(Result<String, String>),
    /// The summary file was written at a path, or writing failed with a message.
    Written(Result<std::path::PathBuf, String>),
}

/// What generating a summary asks of the outside world next.
pub enum SummaryAction {
    /// Send this prompt to the configured model.
    CallModel(String),
    /// Write the summary text to the file of this date.
    Write { date: String, text: String },
    /// Generation is over, with this result.
    Finish(Result<SummaryResult, String>),
}

/// A summary of the tasks completed between `start` and `end`, being generated.
pub struct SummaryJob {
    pub tasks: Vec<Task>,
    pub start: LocalDateTime,
    pub end: LocalDateTime,
    pub use_model: bool,
    pub stage: SummaryStage,
}

/// The stage of a job once its text is decided: the outcome and the date of `end`.
pub open spec fn awaits_write(stage: SummaryStage, outcome: (Seq<char>, bool, Seq<char>), end: LocalDateTime) -> bool {
    match stage {
        SummaryStage::AwaitingWrite { text, used_llm, note, date } => text@ == outcome.0 && used_llm
            == outcome.1 && note@ == outcome.2 && date@ == end.date_text(),
        _ => false,
    }
}

/// The action that writes a decided outcome to the file of `end`'s date.
pub open spec fn writes(action: SummaryAction, outcome: (Seq<char>, bool, Seq<char>), end: LocalDateTime) -> bool {
    match action {
        SummaryAction::Write { date, text } => date@ == end.date_text() && text@ == outcome.0,
        _ => false,
    }
}

/// The views of a model's reply.
pub open spec fn reply_view(r: Result<String, String>) -> Result<Seq<char>, Seq<char>> {
    match r {
        Ok(t) => Ok(t@),
        Err(e) => Err(e@),
    }
}

/// The result of a job whose text was decided in `stage`, once the file was
/// written at a path (or failed to be).
pub open spec fn finished_with(action: SummaryAction, stage: SummaryStage, written: Result<std::path::PathBuf, String>) -> bool {
    match (action, stage) {
        (SummaryAction::Finish(res), SummaryStage::AwaitingWrite { text, used_llm, note, date }) => match written {
            Ok(p) => match res {
                Ok(sr) => sr.text@ == text@ && sr.path == p && sr.used_llm == used_llm && sr.note@ == note@
                    && sr.date@ == date@,
                Err(_) => false,
            },
            Err(e) => match res {
                Ok(_) => false,
                Err(m) => m@ == "写入周报失败："@ + e@,
            },
        },
        _ => false,
    }
}

impl SummaryJob {
    /// A job for the tasks completed between `start` and `end`; the model is
    /// used when the settings name one.
    pub fn new(settings: &Settings, tasks: Vec<Task>, start: LocalDateTime, end: LocalDateTime) -> (r: SummaryJob)
        ensures
            r.tasks@ == tasks@,
            r.start == start,
            r.end == end,
            r.use_model == llm_configured_spec(settings.llm_api_url@, settings.llm_model@),
            r.stage is Start,
    {
        SummaryJob { tasks, start, end, use_model: llm_configured(settings), stage: SummaryStage::Start }
    }

    /// The event that the job waits for in its stage.
    pub open spec fn accepts(self, event: SummaryEvent) -> bool {
        match (self.stage, event) {
            (SummaryStage::Start, SummaryEvent::Begin) => true,
            (SummaryStage::AwaitingReply, SummaryEvent::ModelReplied(_)) => true,
            (SummaryStage::AwaitingWrite { .. }, SummaryEvent::Written(_)) => true,
            _ => false,
        }
    }

    /// Whether the job waits for `event` in its stage.
    pub fn expects(&self, event: &SummaryEvent) -> (r: bool)
        ensures
            r == self.accepts(*event),
    {
        match (&self.stage, event) {
            (SummaryStage::Start, SummaryEvent::Begin) => true,
            (SummaryStage::AwaitingReply, SummaryEvent::ModelReplied(_)) => true,
            (SummaryStage::AwaitingWrite { .. }, SummaryEvent::Written(_)) => true,
            _ => false,
        }
    }
}

/// One step of generating a summary: with a model configured, its prompt is
/// sent first; the reply (or, without a model, a local draft) decides the
/// text, which is written to the file of the end date; the result carries
/// the text, where it was written, whether a model wrote it and a note.
pub fn generate_and_store_summary(job: &mut SummaryJob, event: SummaryEvent) -> (action: SummaryAction)
    requires
        old(job).accepts(event),
    ensures
        final(job).tasks == old(job).tasks,
        final(job).start == old(job).start,
        final(job).end == old(job).end,
        final(job).use_model == old(job).use_model,
        ({
            let tv = task_views(old(job).tasks@);
            let start = old(job).start;
            let end = old(job).end;
            match event {
                SummaryEvent::Begin => if old(job).use_model {
                    (action matches SummaryAction::CallModel(p) && p@ == prompt_text(tv, start, end))
                        && final(job).stage is AwaitingReply
                } else {
                    writes(action, outcome_spec(tv, start, end, None), end)
                        && awaits_write(final(job).stage, outcome_spec(tv, start, end, None), end)
                },
                SummaryEvent::ModelReplied(r) => writes(action, outcome_spec(tv, start, end, Some(reply_view(r))), end)
                    && awaits_write(final(job).stage, outcome_spec(tv, start, end, Some(reply_view(r))), end),
                SummaryEvent::Written(w) => finished_with(action, old(job).stage, w) && final(job).stage is Finished,
            }
        }),
{
    match event {
        SummaryEvent::Begin => {
            if job.use_model {
                job.stage = SummaryStage::AwaitingReply;
                SummaryAction::CallModel(build_prompt(job.tasks.as_slice(), job.start, job.end))
            } else {
                decide_text(job, None)
            }
        },
        SummaryEvent::ModelReplied(r) => decide_text(job, Some(r)),
        SummaryEvent::Written(w) => {
            let mut stage = SummaryStage::Finished;
            std::mem::swap(&mut stage, &mut job.stage);
            match stage {
                SummaryStage::AwaitingWrite { text, used_llm, note, date } => match w {
                    Ok(path) => SummaryAction::Finish(Ok(SummaryResult { text, path, used_llm, note, date })),
                    Err(e) => SummaryAction::Finish(Err(write_failure(e.as_str()))),
                },
                _ => SummaryAction::Finish(Err(String::new())),
            }
        },
    }
}

fn decide_text(job: &mut SummaryJob, reply: Option<Result<String, String>>) -> (action: SummaryAction)
    ensures
        final(job).tasks == old(job).tasks,
        final(job).start == old(job).start,
        final(job).end == old(job).end,
        final(job).use_model == old(job).use_model,
        ({
            let o = outcome_spec(
                task_views(old(job).tasks@),
                old(job).start,
                old(job).end,
                match reply {
                    Some(r) => Some(reply_view(r)),
                    None => None,
                },
            );
            writes(action, o, old(job).end) && awaits_write(final(job).stage, o, old(job).end)
        }),
{
    let (text, used_llm, note) = summary_outcome(job.tasks.as_slice(), job.start, job.end, reply);
    let date = job.end.date_string();
    let action = SummaryAction::Write { date: date.clone(), text: text.clone() };
    job.stage = SummaryStage::AwaitingWrite { text, used_llm, note, date };
    action
}

impl Board {
    /// Whether the weekly summary should start by itself now: it is switched
    /// on, none is being written, today is the chosen weekday and none was
    /// written today.
    pub fn should_auto_summarize(&self, now: &LocalDateTime) -> (r: bool)
        ensures
            r == (self.settings.auto_summary && !self.summary_in_progress
                && self.settings.summary_weekday == (now.day_number() + 3) % 7 + 1
                && self.settings.last_summary_date@ != now.date_text()),
    {
        if !self.settings.auto_summary || self.summary_in_progress {
            return false;
        }
        if self.settings.summary_weekday != now.weekday_mon1() {
            return false;
        }
        let today = now.date_string();
        let last = chars_of(self.settings.last_summary_date.as_str());
        !crate::store::chars_eq(&last, today.as_str())
    }

    /// Starts a summary of the past week (the seven days up to `now`),
    /// unless one is being written already, which the status then says.
    pub fn begin_summary(&mut self, now: LocalDateTime) -> (r: Option<SummaryJob>)
        ensures
            old(self).summary_in_progress ==> r is None && final(self).status@ == "周报已经在生成中"@
                && final(self).summary_in_progress,
            !old(self).summary_in_progress ==> (r matches Some(job) && job.end == now
                && job.start == now.plus_days(-7)
                && task_views(job.tasks@) == crate::board::sort_by_key(
                    crate::board::done_tasks(task_views(old(self).tasks@), now.plus_days(-7), now),
                    crate::board::order_key(crate::board::TaskOrder::DoneLatestFirst),
                )
                && job.use_model == llm_configured_spec(old(self).settings.llm_api_url@, old(self).settings.llm_model@)
                && job.stage is Start)
                && final(self).summary_in_progress && final(self).status@ == "正在生成周报..."@,
            final(self).tasks == old(self).tasks,
            final(self).settings == old(self).settings,
            final(self).selected_id == old(self).selected_id,
            final(self).scroll == old(self).scroll,
    {
        if self.summary_in_progress {
            self.status = String::from_str("周报已经在生成中");
            return None;
        }
        proof {
            crate::calendar::lemma_civil_to_days_bound(now.year as int, now.month as int, now.day as int);
        }
        let end = now;
        let start = end.add_days(-7);
        let tasks = self.completed_between(start, end);
        self.summary_in_progress = true;
        self.status = String::from_str("正在生成周报...");
        Some(SummaryJob::new(&self.settings, tasks, start, end))
    }

    /// Takes in how a summary ended (`path_text` is how its file's path reads):
    /// records the date written and the note, or the failure, in the status;
    /// for a summary asked for by hand, gives the title and text to show.
    pub fn finish_summary(&mut self, outcome: Result<SummaryResult, String>, path_text: &str, manual: bool) -> (r: Option<(String, String)>)
        ensures
            !final(self).summary_in_progress,
            match outcome {
                Ok(res) => final(self).settings@ == (SettingsView { last_summary_date: res.date@, ..old(self).settings@ })
                    && final(self).status@ == res.note@ + "："@ + path_text@
                    && if manual {
                        r matches Some((title, text)) && text@ == res.text@ && title@ == if res.used_llm {
                            "周报（大模型）"@
                        } else {
                            "周报（本地草稿）"@
                        }
                    } else {
                        r is None
                    },
                Err(e) => final(self).settings == old(self).settings
                    && final(self).status@ == "周报生成失败："@ + e@
                    && if manual {
                        r matches Some((title, text)) && title@ == "周报生成失败"@ && text@ == e@
                    } else {
                        r is None
                    },
            },
            final(self).tasks == old(self).tasks,
            final(self).selected_id == old(self).selected_id,
            final(self).scroll == old(self).scroll,
    {
        self.summary_in_progress = false;
        match outcome {
            Ok(res) => {
                self.settings.last_summary_date = res.date;
                let mut status = res.note;
                status.append("：");
                status.append(path_text);
                self.status = status;
                if manual {
                    let title = if res.used_llm {
                        String::from_str("周报（大模型）")
                    } else {
                        String::from_str("周报（本地草稿）")
                    };
                    Some((title, res.text))
                } else {
                    None
                }
            },
            Err(e) => {
                let mut status = String::from_str("周报生成失败：");
                status.append(e.as_str());
                self.status = status;
                if manual {
                    Some((String::from_str("周报生成失败"), e))
                } else {
                    None
                }
            },
        }
    }
}

proof fn lemma_trim_end_last(s: Seq<char>)
    ensures
        trim_end(s).len() > 0 ==> !crate::text::is_ws(trim_end(s).last()),
        trim_end(s).len() > 0 ==> trim_end(s)[0] == s[0],
    decreases s.len(),
{
    if s.len() > 0 && crate::text::is_ws(s.last()) {
        lemma_trim_end_last(s.drop_last());
    }
}

proof fn lemma_trim_start_first(s: Seq<char>)
    ensures
        trim_start(s).len() > 0 ==> !crate::text::is_ws(trim_start(s)[0]),
        trim_start(s).len() > 0 ==> trim_start(s).last() == s.last(),
    decreases s.len(),
{
    if s.len() > 0 && crate::text::is_ws(s[0]) {
        lemma_trim_start_first(s.drop_first());
    }
}

proof fn lemma_strip_trailing_prefix(s: Seq<char>, c: char)
    ensures
        strip_trailing(s, c).len() <= s.len(),
        strip_trailing(s, c).len() > 0 ==> strip_trailing(s, c)[0] == s[0] && strip_trailing(s, c).last() != c,
    decreases s.len(),
{
    if s.len() > 0 && s.last() == c {
        lemma_strip_trailing_prefix(s.drop_last(), c);
    }
}

/// The chat-completions endpoint always ends in `/chat/completions`, and
/// normalizing it again changes nothing.
pub proof fn lemma_chat_url_idempotent(value: Seq<char>)
    ensures
        ({
            let u = chat_url(value);
            let suffix = "/chat/completions"@;
            &&& u.len() >= suffix.len()
            &&& u.subrange(u.len() - suffix.len(), u.len() as int) == suffix
            &&& chat_url(u) == u
        }),
{
    reveal_strlit("/chat/completions");
    let suffix = "/chat/completions"@;
    let tv = trim(value);
    let t = strip_trailing(tv, '/');
    let u = chat_url(value);
    lemma_trim_end_last(value);
    lemma_trim_start_first(trim_end(value));
    lemma_strip_trailing_prefix(tv, '/');
    if t.len() >= suffix.len() && t.subrange(t.len() - suffix.len(), t.len() as int) == suffix {
        assert(u == t);
        assert(u.last() == u.subrange(u.len() - suffix.len(), u.len() as int)[suffix.len() - 1]);
    } else {
        assert(u == t + suffix);
        assert(u.subrange(u.len() - suffix.len(), u.len() as int) =~= suffix);
        if t.len() > 0 {
            assert(u[0] == t[0]);
        }
    }
    assert(u.last() == 's');
    assert(!crate::text::is_ws(u[0]));
    crate::text::lemma_trim_unchanged(u);
    assert(strip_trailing(u, '/') == u);
}

/// The summary text is the model's own (non-blank) text only when it is
/// used; in every other case it is the local draft of the same tasks over
/// the same period, with a remark saying why.
pub proof fn lemma_summary_outcome_text(
    ts: Seq<TaskView>,
    start: LocalDateTime,
    end: LocalDateTime,
    reply: Option<Result<Seq<char>, Seq<char>>>,
)
    ensures
        ({
            let o = outcome_spec(ts, start, end, reply);
            &&& !o.1 ==> exists|r: Seq<char>| o.0 == #[trigger] draft_text(ts, start, end, Some(r))
            &&& o.1 ==> (reply matches Some(Ok(t)) && o.0 == t && trim(t).len() > 0)
        }),
{
    match reply {
        Some(Ok(t)) => {
            if trim(t).len() == 0 {
                let r = "大模型返回为空"@;
                assert(outcome_spec(ts, start, end, reply).0 == draft_text(ts, start, end, Some(r)));
            }
        },
        Some(Err(e)) => {
            let r = "大模型调用失败，已生成本地草稿"@;
            assert(outcome_spec(ts, start, end, reply).0 == draft_text(ts, start, end, Some(r)));
        },
        None => {
            let r = "尚未配置大模型 API URL 和模型名"@;
            assert(outcome_spec(ts, start, end, reply).0 == draft_text(ts, start, end, Some(r)));
        },
    }
}

proof fn lemma_contains_within(a: Seq<char>, x: Seq<char>, c: Seq<char>, y: Seq<char>)
    requires
        crate::forms::contains_text(x, y),
    ensures
        crate::forms::contains_text(a + x + c, y),
{
    let i = choose|i: int| 0 <= i && i + y.len() <= x.len() && #[trigger] x.subrange(i, i + y.len()) == y;
    let h = a + x + c;
    assert(h.subrange(a.len() + i, a.len() + i + y.len()) =~= x.subrange(i, i + y.len()));
}

proof fn lemma_contains_self(y: Seq<char>)
    ensures
        crate::forms::contains_text(y, y),
{
    assert(y.subrange(0int, 0int + y.len()) =~= y);
}

proof fn lemma_lines_list_each(ts: Seq<TaskView>, k: int)
    requires
        0 <= k < ts.len(),
    ensures
        crate::forms::contains_text(draft_task_lines(ts), draft_task_line(ts[k])),
    decreases ts.len(),
{
    let init = ts.drop_last();
    let e = Seq::<char>::empty();
    if k < ts.len() - 1 {
        lemma_lines_list_each(init, k);
        assert(init[k] == ts[k]);
        lemma_contains_within(e, draft_task_lines(init), draft_task_line(ts.last()), draft_task_line(ts[k]));
        assert(e + draft_task_lines(init) + draft_task_line(ts.last()) =~= draft_task_lines(ts));
    } else {
        lemma_contains_self(draft_task_line(ts[k]));
        lemma_contains_within(draft_task_lines(init), draft_task_line(ts[k]), e, draft_task_line(ts[k]));
        assert(draft_task_lines(init) + draft_task_line(ts[k]) + e =~= draft_task_lines(ts));
    }
}

/// The local draft lists every task it is given and counts them: it holds
/// each task's line and the line `- 共完成 {n} 项工作。` with `n` the number
/// of tasks.
pub proof fn lemma_draft_lists_tasks(ts: Seq<TaskView>, start: LocalDateTime, end: LocalDateTime, remark: Option<Seq<char>>)
    ensures
        forall|k: int| 0 <= k < ts.len() ==> crate::forms::contains_text(draft_text(ts, start, end, remark), #[trigger] draft_task_line(ts[k])),
        crate::forms::contains_text(draft_text(ts, start, end, remark), "- 共完成 "@ + nat_digits(ts.len()) + " 项工作。\n"@),
{
    let head = "# 工作总结（"@ + start.storage_text() + " 至 "@ + end.storage_text() + "）\n\n"@ + match remark {
        Some(r) => "> 说明："@ + r + "。\n\n"@,
        None => Seq::empty(),
    } + "## 本周完成\n\n"@;
    let body = if ts.len() == 0 {
        "- 本周期暂无已完成事项记录。\n"@
    } else {
        draft_task_lines(ts)
    };
    let count = "- 共完成 "@ + nat_digits(ts.len()) + " 项工作。\n"@;
    let tail = "\n## 风险/阻塞\n\n- 请根据实际情况补充延期、协作或资源风险。\n"@
        + "\n## 下周建议\n\n- 优先处理临近截止时间的事项，并继续补充任务备注，便于下次自动总结。\n"@;
    let d = draft_text(ts, start, end, remark);
    assert(d =~= (head + body + "\n## 关键产出\n\n"@) + count + tail);
    lemma_contains_self(count);
    lemma_contains_within(head + body + "\n## 关键产出\n\n"@, count, tail, count);
    assert forall|k: int| 0 <= k < ts.len() implies crate::forms::contains_text(d, #[trigger] draft_task_line(ts[k])) by {
        lemma_lines_list_each(ts, k);
        assert(d =~= head + body + ("\n## 关键产出\n\n"@ + count + tail));
        lemma_contains_within(head, body, "\n## 关键产出\n\n"@ + count + tail, draft_task_line(ts[k]));
    }
}

} // verus!
