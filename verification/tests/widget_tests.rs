use todo_widget::board::{Board, RectI, ToolbarAction};
use todo_widget::colors::Theme;
use todo_widget::datetime::LocalDateTime;
use todo_widget::store::{Settings, Task};
use todo_widget::widget::{
    button_color, button_label, decode_main_message, dragged_window, frame_rects, header_subtitle, hit_test_resize,
    initial_window, row_background, row_menu_command, row_note, row_rects, task_detail, visible_rows, window_alpha,
    Click, MainMessage, RowMenuCommand, ToolbarCommand,
};
use todo_widget::win32::{rgb, POINT, RECT};

fn dt(year: i32, month: u32, day: u32, hour: u32, minute: u32) -> LocalDateTime {
    LocalDateTime { year, month, day, hour, minute }
}

fn open_task(id: u64, day: u32, note: &str) -> Task {
    Task {
        id,
        title: format!("t{}", id),
        due: dt(2026, 7, day, 18, 0),
        note: note.to_string(),
        created_at: dt(2026, 7, 1, 9, 0),
        completed: false,
        completed_at: None,
    }
}

fn board_with(n: u64) -> Board {
    let tasks = (1..=n).map(|i| open_task(i, (i % 28) as u32 + 1, "")).collect();
    Board::new(tasks, Settings::default())
}

#[test]
fn rows_that_fit() {
    assert_eq!(visible_rows(620), 5);
    assert_eq!(visible_rows(100), 1);
    assert_eq!(visible_rows(-1000), 1);
    assert_eq!(visible_rows(166 + 86 * 3 - 1), 2);
}

#[test]
fn lay_out_scrolls_within_range() {
    let mut b = board_with(8);
    b.scroll = 100;
    let shown = b.lay_out(420, 620);
    assert_eq!(b.scroll, 3);
    assert_eq!(shown.len(), 5);
    assert_eq!(b.row_rects.len(), 5);
    assert_eq!(b.row_rects[0].1, RectI { left: 14, top: 118, right: 406, bottom: 194 });
    assert_eq!(b.row_rects[1].1, RectI { left: 14, top: 204, right: 406, bottom: 280 });
    assert_eq!(b.row_rects[0].0, shown[0].id);
    let active = b.active_sorted();
    assert_eq!(shown[0].id, active[3].id);
    assert_eq!(b.button_rects.len(), 6);
    let mut small = board_with(2);
    let shown = small.lay_out(420, 620);
    assert_eq!(small.scroll, 0);
    assert_eq!(shown.len(), 2);
}

#[test]
fn wheel_scrolls_one_row() {
    let mut b = board_with(8);
    b.wheel(620, -120);
    assert_eq!(b.scroll, 1);
    b.wheel(620, -120);
    b.wheel(620, -120);
    b.wheel(620, -120);
    assert_eq!(b.scroll, 3);
    b.wheel(620, 120);
    assert_eq!(b.scroll, 2);
    b.scroll = 0;
    b.wheel(620, 120);
    assert_eq!(b.scroll, 0);
    assert_eq!(b.active_len(), 8);
}

#[test]
fn clicks() {
    let mut b = board_with(3);
    b.lay_out(420, 620);
    assert_eq!(b.click(210, 30), Click::Toolbar(ToolbarAction::Add));
    let first = b.row_rects[0].0;
    assert_eq!(b.click(20, 130), Click::Row(first));
    assert_eq!(b.selected_id, Some(first));
    assert_eq!(b.click(20, 60), Click::Drag);
    assert_eq!(b.click(20, 600), Click::Nothing);
    let second = b.row_rects[1].0;
    assert_eq!(b.right_click(20, 210), Some(second));
    assert_eq!(b.selected_id, Some(second));
    assert_eq!(b.right_click(20, 600), None);
    assert_eq!(b.selected_id, Some(second));
}

#[test]
fn toolbar_commands() {
    let mut b = board_with(1);
    assert_eq!(b.toolbar_command(ToolbarAction::Complete), ToolbarCommand::SelectFirst);
    b.selected_id = Some(1);
    assert_eq!(b.toolbar_command(ToolbarAction::Complete), ToolbarCommand::CompleteTask(1));
    assert_eq!(b.toolbar_command(ToolbarAction::Close), ToolbarCommand::CloseWindow);
    assert_eq!(row_menu_command(1003), Some(RowMenuCommand::ShowNote));
    assert_eq!(row_menu_command(0), None);
}

#[test]
fn labels_colours_and_text() {
    let theme = Theme::from_settings(&Settings::default());
    assert_eq!(button_label(ToolbarAction::Search), "查");
    assert_eq!(button_label(ToolbarAction::Close), "×");
    assert_eq!(button_color(ToolbarAction::Close, &theme), rgb(192, 66, 66));
    assert_eq!(button_color(ToolbarAction::Search, &theme), theme.text_primary);
    assert_eq!(row_background(&theme, true), theme.selected_bg);
    assert_eq!(row_background(&theme, false), theme.card_bg);
    assert_eq!(row_note(&open_task(1, 7, "  记得带伞 "), 10), "记得带伞");
    assert_eq!(row_note(&open_task(1, 7, "  "), -10), "已逾期，建议优先处理");
    assert_eq!(header_subtitle(&dt(2026, 7, 7, 8, 0)), "2026-07-07  星期二  ·  拖动顶部移动，拖动边缘调大小");
    let mut b = board_with(0);
    b.status = "已保存".to_string();
    assert_eq!(b.footer_text(), "已保存");
    b.summary_in_progress = true;
    assert_eq!(b.footer_text(), "周报生成中...");
}

#[test]
fn task_details() {
    let tasks = vec![open_task(1, 7, " 带伞 "), open_task(2, 8, "")];
    assert_eq!(task_detail(&tasks, 1), "t1\n截止：2026-07-07 18:00\n\n带伞");
    assert_eq!(task_detail(&tasks, 2), "t2\n截止：2026-07-08 18:00\n\n无备注");
    assert_eq!(task_detail(&tasks, 3), "未找到记录");
}

#[test]
fn resize_hit_tests() {
    let w = RECT { left: 100, top: 100, right: 500, bottom: 700 };
    let at = |x: i32, y: i32| -> isize { (((y as u16 as u32) << 16) | (x as u16 as u32)) as i32 as isize };
    assert_eq!(hit_test_resize(w, at(101, 101)), 13);
    assert_eq!(hit_test_resize(w, at(495, 101)), 14);
    assert_eq!(hit_test_resize(w, at(101, 695)), 16);
    assert_eq!(hit_test_resize(w, at(495, 695)), 17);
    assert_eq!(hit_test_resize(w, at(101, 300)), 10);
    assert_eq!(hit_test_resize(w, at(492, 300)), 11);
    assert_eq!(hit_test_resize(w, at(300, 107)), 12);
    assert_eq!(hit_test_resize(w, at(300, 692)), 15);
    assert_eq!(hit_test_resize(w, at(300, 300)), 1);
    assert_eq!(hit_test_resize(RECT { left: -50, top: -50, right: 50, bottom: 50 }, at(-45, 0)), 10);
}

#[test]
fn window_geometry() {
    let moved = dragged_window(POINT { x: 10, y: 10 }, RECT { left: 100, top: 50, right: 520, bottom: 670 }, POINT { x: 30, y: 5 });
    assert_eq!(moved, (120, 45, 420, 620));
    let mut s = Settings::default();
    s.window_width = 200;
    s.window_height = 900;
    assert_eq!(initial_window(&s), (80, 80, 340, 900));
    s.window_alpha = 10;
    assert_eq!(window_alpha(&s), 30);
    let mut b = Board::new(Vec::new(), Settings::default());
    b.record_window_rect(RECT { left: 5, top: 6, right: 105, bottom: 806 });
    assert_eq!((b.settings.window_x, b.settings.window_y, b.settings.window_width, b.settings.window_height), (5, 6, 340, 800));
}

#[test]
fn frame_and_row_parts() {
    let f = frame_rects(420, 620);
    assert_eq!(f.header, RectI { left: 12, top: 12, right: 408, bottom: 104 });
    assert_eq!(f.empty_card, RectI { left: 14, top: 126, right: 406, bottom: 562 });
    assert_eq!(frame_rects(420, 200).empty_card.bottom, 188);
    assert_eq!(f.footer, RectI { left: 14, top: 578, right: 406, bottom: 608 });
    let r = row_rects(RectI { left: 14, top: 118, right: 406, bottom: 194 });
    assert_eq!(r.accent, RectI { left: 24, top: 130, right: 32, bottom: 182 });
    assert_eq!(r.badge, RectI { left: 304, top: 130, right: 392, bottom: 156 });
    assert_eq!(r.note, RectI { left: 42, top: 160, right: 390, bottom: 184 });
}

#[test]
fn main_messages() {
    assert_eq!(decode_main_message(0x0201, 0, (50 << 16) | 20), MainMessage::LeftDown { x: 20, y: 50 });
    assert_eq!(decode_main_message(0x0205, 0, (0xFFFF << 16) | 0xFFFE), MainMessage::RightUp { x: -2, y: -1 });
    assert_eq!(decode_main_message(0x020A, 0xFF88_0000, 0), MainMessage::Wheel { delta: -120 });
    assert_eq!(decode_main_message(0x0113, 1, 0), MainMessage::SummaryTimer);
    assert_eq!(decode_main_message(0x0113, 2, 0), MainMessage::OtherTimer);
    assert_eq!(decode_main_message(0x8000 + 10, 0, 0), MainMessage::SummaryReady);
    assert_eq!(decode_main_message(0x0010, 0, 0), MainMessage::Close);
    assert_eq!(decode_main_message(0x1234, 0, 0), MainMessage::Other);
}
