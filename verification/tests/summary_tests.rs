use std::path::PathBuf;
use todo_widget::board::Board;
use todo_widget::datetime::LocalDateTime;
use todo_widget::store::{Settings, Task};
use todo_widget::summary::{
    bearer_header_value, build_local_summary, build_prompt, generate_and_store_summary, llm_configured, llm_target,
    normalize_chat_completions_url, reply_text, status_failure, summary_file_name, summary_outcome, write_failure,
    SummaryAction, SummaryEvent, SummaryJob, SummaryResult,
};

fn dt(year: i32, month: u32, day: u32, hour: u32, minute: u32) -> LocalDateTime {
    LocalDateTime { year, month, day, hour, minute }
}

fn done(id: u64, title: &str, note: &str) -> Task {
    Task {
        id,
        title: title.to_string(),
        due: dt(2026, 7, 10, 18, 0),
        note: note.to_string(),
        created_at: dt(2026, 7, 1, 9, 0),
        completed: true,
        completed_at: Some(dt(2026, 7, 6, 9, 30)),
    }
}

const START: LocalDateTime = LocalDateTime { year: 2026, month: 7, day: 1, hour: 9, minute: 0 };
const END: LocalDateTime = LocalDateTime { year: 2026, month: 7, day: 8, hour: 9, minute: 0 };

#[test]
fn prompt_text() {
    let p = build_prompt(&[done(1, "写周报", " 已发 ")], START, END);
    assert!(p.starts_with("请根据以下完成事项生成一份简洁、专业的中文工作总结。\n"));
    assert!(p.contains("统计范围：2026-07-01 09:00（星期三）到 2026-07-08 09:00（星期三）\n"));
    assert!(p.contains("完成事项数量：1\n\n"));
    assert!(p.ends_with("- 完成时间：2026-07-06 09:30；事项：写周报；截止：2026-07-10 18:00；备注：已发\n"));
}

#[test]
fn local_draft() {
    let empty = build_local_summary(&[], START, END, Some("尚未配置大模型 API URL 和模型名"));
    assert_eq!(
        empty,
        "# 工作总结（2026-07-01 09:00 至 2026-07-08 09:00）\n\n\
         > 说明：尚未配置大模型 API URL 和模型名。\n\n\
         ## 本周完成\n\n\
         - 本周期暂无已完成事项记录。\n\
         \n## 关键产出\n\n\
         - 共完成 0 项工作。\n\
         \n## 风险/阻塞\n\n- 请根据实际情况补充延期、协作或资源风险。\n\
         \n## 下周建议\n\n- 优先处理临近截止时间的事项，并继续补充任务备注，便于下次自动总结。\n"
    );
    let one = build_local_summary(&[done(1, "写周报", " 已发 "), done(2, "开会", "")], START, END, None);
    assert!(one.contains("## 本周完成\n\n- 07-06 09:30：写周报（截止 07-10 18:00）；备注：已发\n- 07-06 09:30：开会（截止 07-10 18:00）\n"));
    assert!(one.contains("- 共完成 2 项工作。\n"));
    assert!(!one.contains("说明"));
}

#[test]
fn model_settings() {
    let mut s = Settings::default();
    assert!(!llm_configured(&s));
    s.llm_api_url = " https://api.example.com/v1/ ".to_string();
    assert!(!llm_configured(&s));
    s.llm_model = " gpt ".to_string();
    assert!(llm_configured(&s));
    assert_eq!(llm_target(&s), Ok(("https://api.example.com/v1/chat/completions".to_string(), "gpt".to_string())));
    s.llm_model = "  ".to_string();
    assert_eq!(llm_target(&s).unwrap_err(), "模型名未配置");
    assert_eq!(bearer_header_value(&s), None);
    s.llm_api_key = " SECRET-REDACTED ".to_string();
    assert_eq!(bearer_header_value(&s), Some("Bearer SECRET-REDACTED".to_string()));
}

#[test]
fn chat_endpoint() {
    assert_eq!(normalize_chat_completions_url(" https://x.test/v1// "), "https://x.test/v1/chat/completions");
    assert_eq!(normalize_chat_completions_url("https://x.test/v1/chat/completions/"), "https://x.test/v1/chat/completions");
    assert_eq!(normalize_chat_completions_url(""), "/chat/completions");
    let once = normalize_chat_completions_url("https://x.test/api");
    assert_eq!(normalize_chat_completions_url(&once), once);
}

#[test]
fn replies_and_errors() {
    assert_eq!(reply_text(Some("a".to_string()), Some("b".to_string())), Ok("a".to_string()));
    assert_eq!(reply_text(None, Some("b".to_string())), Ok("b".to_string()));
    assert_eq!(reply_text(None, None).unwrap_err(), "无法从响应中提取文本内容");
    assert_eq!(status_failure("500 Internal Server Error", "oops"), "API 返回错误状态 500 Internal Server Error：oops");
    assert_eq!(write_failure("denied"), "写入周报失败：denied");
    assert_eq!(summary_file_name("2026-07-08"), "summary-2026-07-08.md");
}

#[test]
fn outcomes() {
    let ts = [done(1, "写周报", "")];
    let (text, used, note) = summary_outcome(&ts, START, END, Some(Ok("总结".to_string())));
    assert_eq!((text.as_str(), used, note.as_str()), ("总结", true, "已使用大模型生成"));
    let (text, used, note) = summary_outcome(&ts, START, END, Some(Ok("  ".to_string())));
    assert!(!used);
    assert_eq!(note, "大模型返回为空，已生成本地草稿");
    assert_eq!(text, build_local_summary(&ts, START, END, Some("大模型返回为空")));
    let (_, used, note) = summary_outcome(&ts, START, END, Some(Err("超时".to_string())));
    assert!(!used);
    assert_eq!(note, "大模型调用失败，已生成本地草稿：超时");
    let (_, _, note) = summary_outcome(&ts, START, END, None);
    assert_eq!(note, "尚未配置大模型，已生成本地草稿");
}

#[test]
fn job_with_a_model() {
    let mut s = Settings::default();
    s.llm_api_url = "https://x.test/v1".to_string();
    s.llm_model = "m".to_string();
    let tasks = vec![done(1, "写周报", "")];
    let mut job = SummaryJob::new(&s, tasks.clone(), START, END);
    assert!(job.expects(&SummaryEvent::Begin));
    match generate_and_store_summary(&mut job, SummaryEvent::Begin) {
        SummaryAction::CallModel(p) => assert_eq!(p, build_prompt(&tasks, START, END)),
        _ => panic!("a model is configured"),
    }
    assert!(!job.expects(&SummaryEvent::Begin));
    match generate_and_store_summary(&mut job, SummaryEvent::ModelReplied(Ok("本周总结".to_string()))) {
        SummaryAction::Write { date, text } => {
            assert_eq!(date, "2026-07-08");
            assert_eq!(text, "本周总结");
        }
        _ => panic!("the text goes to a file next"),
    }
    let path = PathBuf::from("data/summaries/summary-2026-07-08.md");
    match generate_and_store_summary(&mut job, SummaryEvent::Written(Ok(path.clone()))) {
        SummaryAction::Finish(Ok(r)) => {
            assert_eq!(r.text, "本周总结");
            assert_eq!(r.path, path);
            assert!(r.used_llm);
            assert_eq!(r.note, "已使用大模型生成");
            assert_eq!(r.date, "2026-07-08");
        }
        _ => panic!("the summary is done"),
    }
}

#[test]
fn job_without_a_model() {
    let s = Settings::default();
    let tasks = vec![done(1, "写周报", "")];
    let mut job = SummaryJob::new(&s, tasks.clone(), START, END);
    match generate_and_store_summary(&mut job, SummaryEvent::Begin) {
        SummaryAction::Write { date, text } => {
            assert_eq!(date, "2026-07-08");
            assert_eq!(text, build_local_summary(&tasks, START, END, Some("尚未配置大模型 API URL 和模型名")));
        }
        _ => panic!("no model: the draft is written"),
    }
    match generate_and_store_summary(&mut job, SummaryEvent::Written(Err("disk full".to_string()))) {
        SummaryAction::Finish(Err(e)) => assert_eq!(e, "写入周报失败：disk full"),
        _ => panic!("writing failed"),
    }
}

#[test]
fn board_summaries() {
    let mut b = Board::new(vec![done(1, "写周报", "")], Settings::default());
    let friday = dt(2026, 7, 10, 9, 0);
    assert!(b.should_auto_summarize(&friday));
    assert!(!b.should_auto_summarize(&dt(2026, 7, 9, 9, 0)));
    b.settings.last_summary_date = "2026-07-10".to_string();
    assert!(!b.should_auto_summarize(&friday));
    let job = b.begin_summary(friday).unwrap();
    assert_eq!(job.start, dt(2026, 7, 3, 9, 0));
    assert_eq!(job.end, friday);
    assert_eq!(job.tasks.len(), 1);
    assert!(b.summary_in_progress);
    assert_eq!(b.status, "正在生成周报...");
    assert!(!b.should_auto_summarize(&dt(2026, 7, 17, 9, 0)));
    assert!(b.begin_summary(friday).is_none());
    assert_eq!(b.status, "周报已经在生成中");
    let result = SummaryResult {
        text: "正文".to_string(),
        path: PathBuf::from("p.md"),
        used_llm: false,
        note: "尚未配置大模型，已生成本地草稿".to_string(),
        date: "2026-07-10".to_string(),
    };
    let shown = b.finish_summary(Ok(result), "p.md", true);
    assert_eq!(shown, Some(("周报（本地草稿）".to_string(), "正文".to_string())));
    assert!(!b.summary_in_progress);
    assert_eq!(b.status, "尚未配置大模型，已生成本地草稿：p.md");
    assert_eq!(b.settings.last_summary_date, "2026-07-10");
    b.summary_in_progress = true;
    assert_eq!(b.finish_summary(Err("x".to_string()), "", false), None);
    assert_eq!(b.status, "周报生成失败：x");
}
