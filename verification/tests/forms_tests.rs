use todo_widget::datetime::LocalDateTime;
use todo_widget::forms::{
    check_todo_form, contains_chars, due_text, picker_datetime, search_completed, search_report, settings_form_init,
    settings_from_form, split_due_initial, system_time_from_date, todo_form_title, TodoFormError, TodoFormResult,
};
use todo_widget::store::{Settings, Task};
use todo_widget::win32::SYSTEMTIME;

fn dt(year: i32, month: u32, day: u32, hour: u32, minute: u32) -> LocalDateTime {
    LocalDateTime { year, month, day, hour, minute }
}

fn done_task(id: u64, title: &str, note: &str, done: Option<LocalDateTime>) -> Task {
    Task {
        id,
        title: title.to_string(),
        due: dt(2026, 7, 10, 18, 0),
        note: note.to_string(),
        created_at: dt(2026, 7, 1, 9, 0),
        completed: true,
        completed_at: done,
    }
}

fn chars(s: &str) -> Vec<char> {
    s.chars().collect()
}

#[test]
fn todo_form_contents() {
    let t = done_task(1, "标题", "备注", None);
    let f = TodoFormResult::from_task(&t);
    assert_eq!((f.title.as_str(), f.due.as_str(), f.note.as_str()), ("标题", "2026-07-10 18:00", "备注"));
    let blank = TodoFormResult::blank(dt(2026, 7, 7, 9, 3));
    assert_eq!((blank.title.as_str(), blank.due.as_str(), blank.note.as_str()), ("", "2026-07-07 09:03", ""));
    assert_eq!(todo_form_title(true), "编辑待办");
    assert_eq!(todo_form_title(false), "新建待办");
}

#[test]
fn todo_form_checks() {
    assert!(matches!(check_todo_form("   ", "2026-07-07"), Err(TodoFormError::EmptyTitle)));
    match check_todo_form(" 写报告 ", "2026-07-07 9:30") {
        Ok((title, due)) => {
            assert_eq!(title, "写报告");
            assert_eq!(due, dt(2026, 7, 7, 9, 30));
        }
        Err(_) => panic!("form should pass"),
    }
    match check_todo_form("写报告", "2026-02-30") {
        Err(TodoFormError::BadDue(e)) => assert_eq!(e, "2 月最多只有 28 天"),
        _ => panic!("due should be refused"),
    }
}

#[test]
fn due_initial_values() {
    let now = dt(2026, 7, 7, 9, 0);
    assert_eq!(split_due_initial("2026-07-08 7:05", now), (dt(2026, 7, 8, 7, 5), "07:05".to_string()));
    assert_eq!(split_due_initial("2026-07-08", now), (dt(2026, 7, 8, 18, 0), "18:00".to_string()));
    assert_eq!(split_due_initial("2026-07-08 25:00", now), (dt(2026, 7, 8, 0, 0), "25:00".to_string()));
    assert_eq!(split_due_initial("someday later", now), (now, "later".to_string()));
    assert_eq!(split_due_initial("", now), (now, "18:00".to_string()));
}

#[test]
fn due_text_from_pickers() {
    let d = dt(2026, 7, 8, 18, 0);
    assert_eq!(due_text(&d, "  "), "2026-07-08");
    assert_eq!(due_text(&d, " 9:30 "), "2026-07-08 9:30");
}

#[test]
fn pickers() {
    let st = SYSTEMTIME { wYear: 2026, wMonth: 2, wDayOfWeek: 0, wDay: 28, wHour: 5, wMinute: 6, wSecond: 7, wMilliseconds: 8 };
    assert_eq!(picker_datetime(st, 23, 59), Some(dt(2026, 2, 28, 23, 59)));
    let bad = SYSTEMTIME { wDay: 30, ..st };
    assert_eq!(picker_datetime(bad, 0, 0), None);
    let back = system_time_from_date(dt(2026, 7, 8, 18, 30));
    assert_eq!(back, SYSTEMTIME { wYear: 2026, wMonth: 7, wDayOfWeek: 0, wDay: 8, wHour: 0, wMinute: 0, wSecond: 0, wMilliseconds: 0 });
    assert_eq!(system_time_from_date(dt(70000, 1, 1, 0, 0)).wYear, (70000 % 65536) as u16);
}

#[test]
fn settings_form() {
    let base = Settings::default();
    let s = settings_from_form(&base, 0, false, true, " #abcdef ", " 128 ", "u".to_string(), "m".to_string(), "k".to_string())
        .unwrap();
    assert_eq!(s.summary_weekday, 1);
    assert!(!s.auto_summary);
    assert!(s.launch_on_startup);
    assert_eq!(s.background_color, "#ABCDEF");
    assert_eq!(s.window_alpha, 128);
    assert_eq!((s.llm_api_url.as_str(), s.llm_model.as_str(), s.llm_api_key.as_str()), ("u", "m", "k"));
    assert_eq!(s.window_width, base.window_width);
    let s = settings_from_form(&base, 20, true, false, "#000000", "200", String::new(), String::new(), String::new()).unwrap();
    assert_eq!(s.summary_weekday, 7);
    let e = settings_from_form(&base, 1, true, false, "#00", "5", String::new(), String::new(), String::new());
    assert_eq!(e.unwrap_err(), "背景色请使用 6 位十六进制格式，例如 #F5F7FA");
    let e = settings_from_form(&base, 1, true, false, "#000000", "5", String::new(), String::new(), String::new());
    assert_eq!(e.unwrap_err(), "透明度请输入 30 到 255 之间的数字");
}

#[test]
fn settings_form_saved_unchanged_gives_same_settings() {
    let base = Settings::default();
    let init = settings_form_init(&base);
    assert_eq!(init.weekday_index, 4);
    assert_eq!(init.alpha, "232");
    let s = settings_from_form(
        &base,
        init.weekday_index,
        init.auto_summary,
        init.launch_on_startup,
        &init.background,
        &init.alpha,
        init.api_url,
        init.model,
        init.api_key,
    )
    .unwrap();
    assert_eq!(s.summary_weekday, base.summary_weekday);
    assert_eq!(s.background_color, base.background_color);
    assert_eq!(s.window_alpha, base.window_alpha);
    assert_eq!(s.auto_summary, base.auto_summary);
}

#[test]
fn substring_search() {
    assert!(contains_chars(&chars("weekly report"), &chars("report")));
    assert!(contains_chars(&chars("abc"), &chars("")));
    assert!(!contains_chars(&chars("abc"), &chars("abcd")));
    assert!(!contains_chars(&chars("周报总结"), &chars("月报")));
    assert!(contains_chars(&chars("周报总结"), &chars("总结")));
}

#[test]
fn searching_completed_tasks() {
    let tasks = vec![
        done_task(1, "Weekly Report", "", Some(dt(2026, 7, 1, 10, 0))),
        done_task(2, "lunch", " 和同事 ", Some(dt(2026, 7, 3, 12, 0))),
        done_task(3, "report draft", "", Some(dt(2026, 7, 5, 9, 0))),
        done_task(4, "no time", "", None),
        Task { completed: false, ..done_task(5, "open report", "", Some(dt(2026, 7, 4, 9, 0))) },
    ];
    let all = search_completed(&tasks, "", None, None).unwrap();
    assert!(all.starts_with("共找到 3 条完成记录\r\n\r\n[3] report draft\r\n"));
    let found = search_completed(&tasks, "  REPORT ", None, None).unwrap();
    assert_eq!(
        found,
        "共找到 2 条完成记录\r\n\r\n\
         [3] report draft\r\n完成：2026-07-05 09:00\r\n截止：2026-07-10 18:00\r\n备注：无\r\n\r\n\
         [1] Weekly Report\r\n完成：2026-07-01 10:00\r\n截止：2026-07-10 18:00\r\n备注：无\r\n\r\n"
    );
    let ranged = search_completed(&tasks, "", Some(dt(2026, 7, 2, 0, 0)), Some(dt(2026, 7, 4, 23, 59))).unwrap();
    assert_eq!(
        ranged,
        "共找到 1 条完成记录\r\n\r\n[2] lunch\r\n完成：2026-07-03 12:00\r\n截止：2026-07-10 18:00\r\n备注：和同事\r\n\r\n"
    );
    let none = search_completed(&tasks, "missing", None, None).unwrap();
    assert_eq!(none, "共找到 0 条完成记录\r\n\r\n");
    let err = search_completed(&tasks, "", Some(dt(2026, 7, 5, 0, 0)), Some(dt(2026, 7, 4, 23, 59)));
    assert_eq!(err.unwrap_err(), "开始日期不能晚于结束日期");
}

#[test]
fn search_report_text() {
    assert_eq!(search_report(&Vec::new()), "共找到 0 条完成记录\r\n\r\n");
    let ts = vec![done_task(9, "报告", "", None)];
    assert_eq!(
        search_report(&ts),
        "共找到 1 条完成记录\r\n\r\n[9] 报告\r\n完成：未记录\r\n截止：2026-07-10 18:00\r\n备注：无\r\n\r\n"
    );
}
