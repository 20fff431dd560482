use todo_widget::board::{action_at, due_accent, due_status, layout_toolbar, row_at, Board, RectI, ToolbarAction};
use todo_widget::datetime::LocalDateTime;
use todo_widget::store::{Settings, Task};
use todo_widget::win32::rgb;

fn dt(year: i32, month: u32, day: u32, hour: u32, minute: u32) -> LocalDateTime {
    LocalDateTime { year, month, day, hour, minute }
}

fn task(id: u64, due: LocalDateTime, completed_at: Option<LocalDateTime>) -> Task {
    Task {
        id,
        title: format!("task {}", id),
        due,
        note: String::new(),
        created_at: dt(2026, 7, 1, 9, 0),
        completed: completed_at.is_some(),
        completed_at,
    }
}

fn ids(ts: &[Task]) -> Vec<u64> {
    ts.iter().map(|t| t.id).collect()
}

fn sample_board() -> Board {
    Board::new(
        vec![
            task(1, dt(2026, 7, 9, 18, 0), None),
            task(2, dt(2026, 7, 8, 18, 0), Some(dt(2026, 7, 5, 10, 0))),
            task(3, dt(2026, 7, 8, 9, 0), None),
            task(4, dt(2026, 7, 9, 18, 0), None),
            task(5, dt(2026, 7, 1, 18, 0), Some(dt(2026, 7, 6, 10, 0))),
            task(6, dt(2026, 7, 1, 18, 0), Some(dt(2026, 6, 1, 10, 0))),
        ],
        Settings::default(),
    )
}

#[test]
fn new_board() {
    let b = sample_board();
    assert_eq!(b.status, "准备就绪");
    assert_eq!(b.selected_id, None);
    assert_eq!(b.scroll, 0);
    assert!(!b.summary_in_progress);
}

#[test]
fn active_tasks_by_due_time_stably() {
    let b = sample_board();
    assert_eq!(ids(&b.active_sorted()), vec![3, 1, 4]);
}

#[test]
fn completed_tasks_latest_first() {
    let b = sample_board();
    let done = b.completed_between(dt(2026, 7, 1, 0, 0), dt(2026, 7, 7, 0, 0));
    assert_eq!(ids(&done), vec![5, 2]);
    let none = b.completed_between(dt(2026, 8, 1, 0, 0), dt(2026, 8, 7, 0, 0));
    assert!(none.is_empty());
}

#[test]
fn adding_editing_completing_deleting() {
    let mut b = sample_board();
    let id = b.add_task("新任务".to_string(), dt(2026, 7, 10, 8, 0), "备注".to_string(), dt(2026, 7, 7, 8, 0));
    assert_eq!(id, 7);
    assert_eq!(b.selected_id, Some(7));
    assert_eq!(b.tasks.len(), 7);
    assert!(!b.tasks[6].completed);
    assert_eq!(b.update_task(7, "改".to_string(), dt(2026, 7, 11, 8, 0), "n".to_string()), Ok(()));
    assert_eq!(b.tasks[6].title, "改");
    assert_eq!(b.update_task(99, "x".to_string(), dt(2026, 7, 11, 8, 0), String::new()).unwrap_err(), "没有找到要编辑的待办");
    assert_eq!(b.complete_task(7, dt(2026, 7, 8, 8, 0)), Ok(()));
    assert!(b.tasks[6].completed);
    assert_eq!(b.tasks[6].completed_at, Some(dt(2026, 7, 8, 8, 0)));
    assert_eq!(b.selected_id, None);
    assert_eq!(b.complete_task(99, dt(2026, 7, 8, 8, 0)).unwrap_err(), "没有找到要完成的待办");
    b.selected_id = Some(3);
    assert_eq!(b.delete_task(3), Ok(()));
    assert_eq!(b.selected_id, None);
    assert!(b.tasks.iter().all(|t| t.id != 3));
    assert_eq!(b.delete_task(3).unwrap_err(), "没有找到要删除的记录");
}

#[test]
fn recording_saves() {
    let mut b = sample_board();
    assert_eq!(b.record_save("已新建待办", "保存失败：", Ok(())), Ok(()));
    assert_eq!(b.status, "已新建待办");
    assert_eq!(b.record_save("已新建待办", "保存失败：", Err("磁盘已满".to_string())).unwrap_err(), "保存失败：磁盘已满");
    assert_eq!(b.status, "保存失败：磁盘已满");
}

#[test]
fn toolbar_layout_and_hits() {
    let buttons = layout_toolbar(420);
    assert_eq!(buttons.len(), 6);
    assert_eq!(buttons[0], (ToolbarAction::Add, RectI { left: 208, top: 26, right: 236, bottom: 54 }));
    assert_eq!(buttons[5], (ToolbarAction::Close, RectI { left: 368, top: 26, right: 396, bottom: 54 }));
    assert_eq!(action_at(&buttons, 210, 30), Some(ToolbarAction::Add));
    assert_eq!(action_at(&buttons, 396, 54), Some(ToolbarAction::Close));
    assert_eq!(action_at(&buttons, 238, 30), None);
    let rows = vec![(4u64, RectI { left: 14, top: 118, right: 406, bottom: 194 })];
    assert_eq!(row_at(&rows, 20, 120), Some(4));
    assert_eq!(row_at(&rows, 20, 200), None);
}

#[test]
fn due_hints_and_accents() {
    assert_eq!(due_status(0), "已逾期，建议优先处理");
    assert_eq!(due_status(1440), "今天截止，请尽快完成");
    assert_eq!(due_status(2880), "明后天截止，可提前安排");
    assert_eq!(due_status(2881), "进度稳定，可按计划推进");
    assert_eq!(due_accent(-5), rgb(205, 63, 63));
    assert_eq!(due_accent(60), rgb(220, 124, 24));
    assert_eq!(due_accent(2000), rgb(185, 142, 36));
    assert_eq!(due_accent(9000), rgb(59, 103, 189));
}

#[test]
fn completed_task_moves_to_the_completed_list() {
    let mut b = sample_board();
    let now = dt(2026, 7, 7, 12, 0);
    assert_eq!(b.complete_task(4, now), Ok(()));
    let done = b.completed_between(dt(2026, 7, 1, 0, 0), dt(2026, 7, 8, 0, 0));
    assert_eq!(ids(&done), vec![4, 5, 2]);
    assert_eq!(ids(&b.active_sorted()), vec![3, 1]);
}

#[test]
fn ids_stay_unique_through_edits() {
    let mut b = sample_board();
    b.add_task("a".to_string(), dt(2026, 7, 10, 8, 0), String::new(), dt(2026, 7, 7, 8, 0));
    b.add_task("b".to_string(), dt(2026, 7, 11, 8, 0), String::new(), dt(2026, 7, 7, 8, 0));
    assert_eq!(b.update_task(2, "c".to_string(), dt(2026, 7, 12, 8, 0), String::new()), Ok(()));
    assert_eq!(b.complete_task(7, dt(2026, 7, 8, 8, 0)), Ok(()));
    assert_eq!(b.delete_task(1), Ok(()));
    let mut seen = ids(&b.tasks);
    let n = seen.len();
    seen.sort();
    seen.dedup();
    assert_eq!(seen.len(), n);
    assert_eq!(ids(&b.tasks), vec![2, 3, 4, 5, 6, 7, 8]);
}
