use todo_widget::datetime::LocalDateTime;
use todo_widget::store::{
    escape_field, next_task_id, parse_settings_text, parse_task_line, parse_tasks_text, settings_text, tasks_text,
    unescape_field, Settings, Task,
};

fn dt(year: i32, month: u32, day: u32, hour: u32, minute: u32) -> LocalDateTime {
    LocalDateTime { year, month, day, hour, minute }
}

fn task(id: u64, title: &str, note: &str, completed_at: Option<LocalDateTime>) -> Task {
    Task {
        id,
        title: title.to_string(),
        due: dt(2026, 7, 7, 18, 0),
        note: note.to_string(),
        created_at: dt(2026, 7, 1, 9, 30),
        completed: completed_at.is_some(),
        completed_at,
    }
}

fn same(a: &Task, b: &Task) -> bool {
    a.id == b.id
        && a.title == b.title
        && a.due == b.due
        && a.note == b.note
        && a.created_at == b.created_at
        && a.completed == b.completed
        && a.completed_at == b.completed_at
}

#[test]
fn escaping_fields() {
    assert_eq!(escape_field("a\tb\nc\rd\\e"), "a\\tb\\nc\\rd\\\\e");
    assert_eq!(unescape_field("a\\tb\\nc\\rd\\\\e"), "a\tb\nc\rd\\e");
    assert_eq!(unescape_field("x\\qy"), "x\\qy");
    assert_eq!(unescape_field("end\\"), "end\\");
    for s in ["", "plain", "\\\\\t", "中文\n备注", "\\t literal"] {
        assert_eq!(unescape_field(&escape_field(s)), s);
        let e = escape_field(s);
        assert!(!e.contains('\t') && !e.contains('\n') && !e.contains('\r'));
    }
}

#[test]
fn next_ids() {
    assert_eq!(next_task_id(&[]), 1);
    let ts = vec![task(3, "a", "n", None), task(9, "b", "n", None), task(4, "c", "n", None)];
    assert_eq!(next_task_id(&ts), 10);
}

#[test]
fn task_lines() {
    let t = parse_task_line("7\t2026-07-01 09:30\t2026-07-07 18:00\t1\t2026-07-06 10:00\t标题\\t二\t备注").unwrap();
    assert_eq!(t.id, 7);
    assert_eq!(t.title, "标题\t二");
    assert_eq!(t.note, "备注");
    assert!(t.completed);
    assert_eq!(t.completed_at, Some(dt(2026, 7, 6, 10, 0)));
    assert_eq!(t.created_at, dt(2026, 7, 1, 9, 30));
    let open = parse_task_line("8\t2026-07-01 09:30\t2026-07-07\t0\t \tt\tn").unwrap();
    assert!(!open.completed);
    assert_eq!(open.completed_at, None);
    assert_eq!(open.due, dt(2026, 7, 7, 18, 0));
    let bad_done = parse_task_line("8\t2026-07-01 09:30\t2026-07-07\t1\tsoon\tt\tn").unwrap();
    assert_eq!(bad_done.completed_at, None);
    assert!(parse_task_line("8\t2026-07-01 09:30\t2026-07-07\t0\t\tt").is_none());
    assert!(parse_task_line("x\t2026-07-01 09:30\t2026-07-07\t0\t\tt\tn").is_none());
    assert!(parse_task_line("8\tbad\t2026-07-07\t0\t\tt\tn").is_none());
}

#[test]
fn tasks_file_round_trip() {
    let ts = vec![
        task(1, "写周报", "带\t制表符\n和换行", None),
        task(2, "完成了", "备注", Some(dt(2026, 7, 6, 10, 0))),
        task(3, "反斜杠\\", "x", None),
    ];
    let text = tasks_text(&ts);
    assert!(text.starts_with("id\tcreated_at\tdue\tcompleted\tcompleted_at\ttitle\tnote\n"));
    let back = parse_tasks_text(&text);
    assert_eq!(back.len(), ts.len());
    for (a, b) in ts.iter().zip(back.iter()) {
        assert!(same(a, b));
    }
}

#[test]
fn tasks_file_skips_bad_lines() {
    let text = "id\tcreated_at\tdue\tcompleted\tcompleted_at\ttitle\tnote\n\
                garbage\n\
                5\t2026-07-01 09:30\t2026-07-07 18:00\t0\t\tt\tn\r\n\
                \n";
    let back = parse_tasks_text(text);
    assert_eq!(back.len(), 1);
    assert_eq!(back[0].id, 5);
    assert_eq!(back[0].note, "n");
}

#[test]
fn settings_defaults() {
    let s = Settings::default();
    assert_eq!(s.summary_weekday, 5);
    assert!(s.auto_summary);
    assert!(!s.launch_on_startup);
    assert_eq!(s.background_color, "#F5F7FA");
    assert_eq!(s.window_alpha, 232);
    assert_eq!((s.window_x, s.window_y, s.window_width, s.window_height), (80, 80, 420, 620));
    let parsed = parse_settings_text("");
    assert_eq!(parsed.summary_weekday, 5);
    assert_eq!(parsed.background_color, "#F5F7FA");
}

#[test]
fn settings_file_round_trip() {
    let mut s = Settings::default();
    s.summary_weekday = 3;
    s.auto_summary = false;
    s.launch_on_startup = true;
    s.background_color = "#112233".to_string();
    s.window_alpha = 200;
    s.llm_api_url = "https://example.com/v1".to_string();
    s.llm_model = "model-x".to_string();
    s.llm_api_key = "SECRET-REDACTED".to_string();
    s.last_summary_date = "2026-07-03".to_string();
    s.window_x = -20;
    s.window_y = 15;
    s.window_width = 500;
    s.window_height = 700;
    let text = settings_text(&s);
    assert!(text.starts_with("summary_weekday=3\nauto_summary=0\nlaunch_on_startup=1\n"));
    let back = parse_settings_text(&text);
    assert_eq!(back.summary_weekday, 3);
    assert!(!back.auto_summary);
    assert!(back.launch_on_startup);
    assert_eq!(back.background_color, s.background_color);
    assert_eq!(back.window_alpha, 200);
    assert_eq!(back.llm_api_url, s.llm_api_url);
    assert_eq!(back.llm_model, s.llm_model);
    assert_eq!(back.llm_api_key, s.llm_api_key);
    assert_eq!(back.last_summary_date, s.last_summary_date);
    assert_eq!((back.window_x, back.window_y, back.window_width, back.window_height), (-20, 15, 500, 700));
}

#[test]
fn settings_values_are_kept_in_range() {
    let back = parse_settings_text(
        "summary_weekday=9\nwindow_alpha=3\nwindow_width=100\nwindow_height=x\nauto_summary=yes\n unknown = 1\nno equals sign\n",
    );
    assert_eq!(back.summary_weekday, 7);
    assert_eq!(back.window_alpha, 30);
    assert_eq!(back.window_width, 320);
    assert_eq!(back.window_height, 620);
    assert!(!back.auto_summary);
    let back = parse_settings_text("summary_weekday=0\nwindow_alpha=999\n");
    assert_eq!(back.summary_weekday, 1);
    assert_eq!(back.window_alpha, 255);
}
