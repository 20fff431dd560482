//! What the widget window shows and how it answers the mouse: the rows that
//! fit, scrolling, the text of the header, rows and footer, and the resize
//! border.
use vstd::prelude::*;
use crate::board::{
    active_tasks, due_hint, due_status, layout_toolbar, order_key, sort_by_key, toolbar_button,
    toolbar_order, Board, RectI, TaskOrder, ToolbarAction,
};
use crate::colors::Theme;
use crate::store::{task_views, Settings, SettingsView, Task, TaskView};
use crate::text::{chars_of, string_of, trim, trim_chars};
use crate::win32::{rgb_spec, POINT, RECT};

verus! {

/// Rows of tasks that fit in a client area `height` pixels high: rows are
/// 86 pixels from y = 118, above a 48-pixel footer, and at least one fits.
pub open spec fn visible_row_count(height: int) -> int {
    let avail = height - 118 - 48;
    (if avail < 86 {
        86
    } else {
        avail
    }) / 86
}

/// The rectangle of the `index`-th visible task row.
pub open spec fn row_rect(width: int, index: int) -> RectI {
    let y = 118 + index * 86;
    RectI { left: 14, top: y as i32, right: (width - 14) as i32, bottom: (y + 86 - 10) as i32 }
}

/// `a - b`, or zero when `b` is larger (as `usize::saturating_sub`).
pub open spec fn sat_sub(a: int, b: int) -> int {
    if a > b {
        a - b
    } else {
        0
    }
}

/// The scroll position kept within the rows that can scroll out of view.
pub open spec fn clamped_scroll(scroll: int, active: int, visible: int) -> int {
    let max_scroll = sat_sub(active, visible);
    if scroll < max_scroll {
        scroll
    } else {
        max_scroll
    }
}

/// The number of rows that fit in a client area `height` pixels high.
pub fn visible_rows(height: i32) -> (r: usize)
    requires
        height >= i32::MIN + 166,
    ensures
        r == visible_row_count(height as int),
        r >= 1,
{
    let avail = height - 118 - 48;
    let avail = if avail < 86 { 86 } else { avail };
    (avail / 86) as usize
}

proof fn lemma_row_fits(height: int, visible: int, index: int)
    requires
        visible == visible_row_count(height),
        0 <= index < visible,
        height <= i32::MAX,
    ensures
        118 + index * 86 + 86 - 10 <= i32::MAX,
{
    let avail = if height - 166 < 86 {
        86
    } else {
        height - 166
    };
    assert(visible * 86 <= avail) by (nonlinear_arith)
        requires
            visible == avail / 86,
            avail >= 86,
    ;
    assert(index * 86 <= visible * 86 - 86) by (nonlinear_arith)
        requires
            0 <= index < visible,
    ;
}

impl Board {
    /// Lays the window out for a client area `width` by `height`: places the
    /// toolbar, keeps the scroll position within range, and gives the task
    /// rows that are shown, recording where each one is.
    pub fn lay_out(&mut self, width: i32, height: i32) -> (shown: Vec<Task>)
        requires
            width >= i32::MIN + 212,
            height >= i32::MIN + 166,
        ensures
            final(self).button_rects@.len() == 6,
            forall|i: int| 0 <= i < 6 ==> #[trigger] final(self).button_rects@[i] == (toolbar_order()[i], toolbar_button(width as int, i)),
            ({
                let active = sort_by_key(active_tasks(task_views(old(self).tasks@)), order_key(TaskOrder::Due));
                let visible = visible_row_count(height as int);
                let scroll = clamped_scroll(old(self).scroll as int, active.len() as int, visible);
                &&& final(self).scroll == scroll
                &&& task_views(shown@) == active.subrange(scroll, if scroll + visible < active.len() { scroll + visible } else { active.len() as int })
            }),
            final(self).row_rects@.len() == shown@.len(),
            forall|i: int| 0 <= i < shown@.len() ==> #[trigger] final(self).row_rects@[i] == (shown@[i].id, row_rect(width as int, i)),
            final(self).tasks == old(self).tasks,
            final(self).settings == old(self).settings,
            final(self).selected_id == old(self).selected_id,
            final(self).status == old(self).status,
            final(self).summary_in_progress == old(self).summary_in_progress,
    {
        self.button_rects = layout_toolbar(width);
        let active = self.active_sorted();
        let visible = visible_rows(height);
        let max_scroll = if active.len() > visible { active.len() - visible } else { 0 };
        if max_scroll < self.scroll {
            self.scroll = max_scroll;
        }
        let ghost av = task_views(active@);
        let end = if active.len() - self.scroll > visible {
            self.scroll + visible
        } else {
            active.len()
        };
        let mut shown: Vec<Task> = Vec::new();
        let mut rows: Vec<(u64, RectI)> = Vec::new();
        let mut k: usize = self.scroll;
        while k < end
            invariant
                self.scroll <= k <= end <= active.len(),
                end <= self.scroll + visible,
                visible == visible_row_count(height as int),
                width >= i32::MIN + 212,
                height >= i32::MIN + 166,
                av == task_views(active@),
                task_views(shown@) == av.subrange(self.scroll as int, k as int),
                rows@.len() == shown@.len(),
                forall|i: int| 0 <= i < shown@.len() ==> #[trigger] rows@[i] == (shown@[i].id, row_rect(width as int, i)),
            decreases end - k,
        {
            let index = k - self.scroll;
            proof {
                lemma_row_fits(height as int, visible as int, index as int);
            }
            let y = 118 + (index as i32) * 86;
            let t = active[k].duplicate();
            rows.push((t.id, RectI { left: 14, top: y, right: width - 14, bottom: y + 86 - 10 }));
            let ghost before = shown@;
            shown.push(t);
            assert(task_views(shown@) =~= task_views(before).push(av[k as int]));
            assert(av.subrange(self.scroll as int, k + 1) =~= av.subrange(self.scroll as int, k as int).push(av[k as int]));
            k += 1;
        }
        self.row_rects = rows;
        shown
    }
}

/// The label of a toolbar button.
pub open spec fn button_label_text(action: ToolbarAction) -> Seq<char> {
    match action {
        ToolbarAction::Add => "+"@,
        ToolbarAction::Complete => "完"@,
        ToolbarAction::Search => "查"@,
        ToolbarAction::Summary => "周"@,
        ToolbarAction::Settings => "设"@,
        ToolbarAction::Close => "×"@,
    }
}

/// The label of a toolbar button.
pub fn button_label(action: ToolbarAction) -> (r: &'static str)
    ensures
        r@ == button_label_text(action),
{
    match action {
        ToolbarAction::Add => "+",
        ToolbarAction::Complete => "完",
        ToolbarAction::Search => "查",
        ToolbarAction::Summary => "周",
        ToolbarAction::Settings => "设",
        ToolbarAction::Close => "×",
    }
}

/// The label colour of a toolbar button: red for close, green for complete,
/// blue for summary and add, the theme's text colour otherwise.
pub fn button_color(action: ToolbarAction, theme: &Theme) -> (r: u32)
    ensures
        r == match action {
            ToolbarAction::Close => rgb_spec(192, 66, 66),
            ToolbarAction::Complete => rgb_spec(37, 128, 85),
            ToolbarAction::Summary => rgb_spec(59, 103, 189),
            ToolbarAction::Add => rgb_spec(42, 92, 196),
            _ => theme.text_primary,
        },
{
    match action {
        ToolbarAction::Close => crate::win32::rgb(192, 66, 66),
        ToolbarAction::Complete => crate::win32::rgb(37, 128, 85),
        ToolbarAction::Summary => crate::win32::rgb(59, 103, 189),
        ToolbarAction::Add => crate::win32::rgb(42, 92, 196),
        _ => theme.text_primary,
    }
}

/// The background of a task row: the selection colour when it is selected.
pub fn row_background(theme: &Theme, selected: bool) -> (r: u32)
    ensures
        r == if selected {
            theme.selected_bg
        } else {
            theme.card_bg
        },
{
    if selected {
        theme.selected_bg
    } else {
        theme.card_bg
    }
}

/// The second line of a task row: its trimmed note, or the due hint when
/// the note is blank.
pub open spec fn row_note_text(note: Seq<char>, diff_minutes: int) -> Seq<char> {
    if trim(note).len() == 0 {
        due_hint(diff_minutes)
    } else {
        trim(note)
    }
}

/// The second line of a task row due in `diff_minutes` minutes.
pub fn row_note(task: &Task, diff_minutes: i64) -> (r: String)
    ensures
        r@ == row_note_text(task.note@, diff_minutes as int),
{
    let t = trim_chars(&chars_of(task.note.as_str()));
    if t.len() == 0 {
        String::from_str(due_status(diff_minutes))
    } else {
        string_of(&t)
    }
}

/// The line under the title: the date, the weekday and how to move and
/// resize the window.
pub fn header_subtitle(now: &crate::datetime::LocalDateTime) -> (r: String)
    ensures
        r@ == now.date_text() + "  "@ + crate::datetime::weekday_label(((now.day_number() + 3) % 7 + 1) as u32)
            + "  ·  拖动顶部移动，拖动边缘调大小"@,
{
    let mut out = now.date_string();
    out.append("  ");
    out.append(now.cn_weekday());
    out.append("  ·  拖动顶部移动，拖动边缘调大小");
    out
}

/// What a click at a point of the window does.
#[derive(Clone, Copy, Debug, PartialEq, Eq, Structural)]
pub enum Click {
    /// A toolbar button was pressed.
    Toolbar(ToolbarAction),
    /// A task row was selected.
    Row(u64),
    /// The header was grabbed to move the window.
    Drag,
    /// Nothing happens.
    Nothing,
}

/// Number of tasks that are not completed.
pub open spec fn active_count(s: Seq<TaskView>) -> int {
    active_tasks(s).len() as int
}

impl Board {
    /// The footer line: a notice while a summary is being written, else the status.
    pub fn footer_text(&self) -> (r: String)
        ensures
            r@ == if self.summary_in_progress {
                "周报生成中..."@
            } else {
                self.status@
            },
    {
        if self.summary_in_progress {
            String::from_str("周报生成中...")
        } else {
            self.status.clone()
        }
    }

    /// A left click at `(x, y)`: a toolbar button is pressed, else a task row
    /// is selected, else a click in the header (above y = 104) starts moving
    /// the window.
    pub fn click(&mut self, x: i32, y: i32) -> (r: Click)
        ensures
            r == match crate::board::first_hit(old(self).button_rects@, x as int, y as int) {
                Some(i) => Click::Toolbar(old(self).button_rects@[i].0),
                None => match crate::board::first_hit(old(self).row_rects@, x as int, y as int) {
                    Some(i) => Click::Row(old(self).row_rects@[i].0),
                    None => if y < 104 {
                        Click::Drag
                    } else {
                        Click::Nothing
                    },
                },
            },
            final(self).selected_id == match r {
                Click::Row(id) => Some(id),
                _ => old(self).selected_id,
            },
            final(self).tasks == old(self).tasks,
            final(self).settings == old(self).settings,
            final(self).scroll == old(self).scroll,
            final(self).row_rects == old(self).row_rects,
            final(self).button_rects == old(self).button_rects,
            final(self).status == old(self).status,
            final(self).summary_in_progress == old(self).summary_in_progress,
    {
        if let Some(action) = crate::board::action_at(&self.button_rects, x, y) {
            return Click::Toolbar(action);
        }
        if let Some(id) = crate::board::row_at(&self.row_rects, x, y) {
            self.selected_id = Some(id);
            return Click::Row(id);
        }
        if y < 104 {
            Click::Drag
        } else {
            Click::Nothing
        }
    }

    /// A right click at `(x, y)`: selects the task row there, if any, and
    /// gives its id (the row's menu is then shown).
    pub fn right_click(&mut self, x: i32, y: i32) -> (r: Option<u64>)
        ensures
            r == match crate::board::first_hit(old(self).row_rects@, x as int, y as int) {
                Some(i) => Some(old(self).row_rects@[i].0),
                None => None,
            },
            final(self).selected_id == match r {
                Some(id) => Some(id),
                None => old(self).selected_id,
            },
            final(self).tasks == old(self).tasks,
            final(self).settings == old(self).settings,
            final(self).scroll == old(self).scroll,
            final(self).row_rects == old(self).row_rects,
            final(self).button_rects == old(self).button_rects,
            final(self).status == old(self).status,
            final(self).summary_in_progress == old(self).summary_in_progress,
    {
        let row = crate::board::row_at(&self.row_rects, x, y);
        if let Some(id) = row {
            self.selected_id = Some(id);
        }
        row
    }

    /// Number of tasks that are not completed.
    pub fn active_len(&self) -> (r: usize)
        ensures
            r == active_count(task_views(self.tasks@)),
    {
        let ghost tv = task_views(self.tasks@);
        let mut n: usize = 0;
        let mut i: usize = 0;
        assert(tv.take(0) =~= Seq::<TaskView>::empty());
        while i < self.tasks.len()
            invariant
                i <= self.tasks.len(),
                tv == task_views(self.tasks@),
                n == active_tasks(tv.take(i as int)).len(),
                n <= i,
            decreases self.tasks.len() - i,
        {
            assert(tv.take(i + 1).drop_last() =~= tv.take(i as int));
            assert(tv.take(i + 1).last() == self.tasks@[i as int]@);
            if !self.tasks[i].completed {
                n += 1;
            }
            i += 1;
        }
        assert(tv.take(self.tasks.len() as int) =~= tv);
        n
    }

    /// The mouse wheel turned by `delta` over a client area whose bottom is
    /// at `client_bottom`: toward the user (negative) scrolls one row down,
    /// as far as the last row, otherwise one row up, as far as the first.
    pub fn wheel(&mut self, client_bottom: i32, delta: i16)
        requires
            client_bottom >= i32::MIN + 166,
        ensures
            ({
                let max_scroll = sat_sub(active_count(task_views(old(self).tasks@)), visible_row_count(client_bottom as int));
                final(self).scroll == if delta < 0 {
                    if old(self).scroll + 1 < max_scroll { old(self).scroll + 1 } else { max_scroll }
                } else {
                    sat_sub(old(self).scroll as int, 1)
                }
            }),
            final(self).tasks == old(self).tasks,
            final(self).settings == old(self).settings,
            final(self).selected_id == old(self).selected_id,
            final(self).row_rects == old(self).row_rects,
            final(self).button_rects == old(self).button_rects,
            final(self).status == old(self).status,
            final(self).summary_in_progress == old(self).summary_in_progress,
    {
        let active = self.active_len();
        let visible = visible_rows(client_bottom);
        let max_scroll = if active > visible { active - visible } else { 0 };
        if delta < 0 {
            self.scroll = if self.scroll < max_scroll { self.scroll + 1 } else { max_scroll };
        } else {
            self.scroll = if self.scroll > 0 { self.scroll - 1 } else { 0 };
        }
    }
}

/// Width of the border in which the pointer resizes the window.
pub const RESIZE_BORDER: i32 = 8;

/// The smallest window width and height.
pub const MIN_MAIN_WIDTH: i32 = 340;

/// The smallest window height.
pub const MIN_MAIN_HEIGHT: i32 = 460;

/// The hit-test code for a point of a window: a corner or an edge within
/// the resize border, otherwise the client area.
pub open spec fn resize_hit(window: RECT, x: int, y: int) -> usize {
    let left = x < window.left + 8;
    let right = x >= window.right - 8;
    let top = y < window.top + 8;
    let bottom = y >= window.bottom - 8;
    if top && left {
        13
    } else if top && right {
        14
    } else if bottom && left {
        16
    } else if bottom && right {
        17
    } else if left {
        10
    } else if right {
        11
    } else if top {
        12
    } else if bottom {
        15
    } else {
        1
    }
}

/// Which part of `window` the point packed in `lparam` (screen coordinates)
/// is on, as a hit-test code.
pub fn hit_test_resize(window: RECT, lparam: isize) -> (r: usize)
    requires
        window.left <= i32::MAX - 8,
        window.top <= i32::MAX - 8,
        window.right >= i32::MIN + 8,
        window.bottom >= i32::MIN + 8,
    ensures
        r == resize_hit(
            window,
            crate::win32::signed16(lparam as int % 65536),
            crate::win32::signed16((lparam as int / 65536) % 65536),
        ),
{
    let x = crate::win32::get_x_lparam(lparam);
    let y = crate::win32::get_y_lparam(lparam);
    let left = x < window.left + RESIZE_BORDER;
    let right = x >= window.right - RESIZE_BORDER;
    let top = y < window.top + RESIZE_BORDER;
    let bottom = y >= window.bottom - RESIZE_BORDER;
    if top && left {
        13
    } else if top && right {
        14
    } else if bottom && left {
        16
    } else if bottom && right {
        17
    } else if left {
        10
    } else if right {
        11
    } else if top {
        12
    } else if bottom {
        15
    } else {
        1
    }
}

/// Where a window being dragged goes: its rectangle when the drag began,
/// moved by how far the pointer has gone since, as left, top, width, height.
pub fn dragged_window(cursor_start: POINT, window_start: RECT, cursor: POINT) -> (r: (i32, i32, i32, i32))
    requires
        i32::MIN <= cursor.x - cursor_start.x <= i32::MAX,
        i32::MIN <= cursor.y - cursor_start.y <= i32::MAX,
        i32::MIN <= window_start.left + (cursor.x - cursor_start.x) <= i32::MAX,
        i32::MIN <= window_start.top + (cursor.y - cursor_start.y) <= i32::MAX,
        i32::MIN <= window_start.right - window_start.left <= i32::MAX,
        i32::MIN <= window_start.bottom - window_start.top <= i32::MAX,
    ensures
        r.0 == window_start.left + (cursor.x - cursor_start.x),
        r.1 == window_start.top + (cursor.y - cursor_start.y),
        r.2 == window_start.right - window_start.left,
        r.3 == window_start.bottom - window_start.top,
{
    let dx = cursor.x - cursor_start.x;
    let dy = cursor.y - cursor_start.y;
    let width = window_start.right - window_start.left;
    let height = window_start.bottom - window_start.top;
    (window_start.left + dx, window_start.top + dy, width, height)
}

/// The window's place at start-up: the saved position, and the saved size
/// but at least 340 by 460, as left, top, width, height.
pub fn initial_window(settings: &Settings) -> (r: (i32, i32, i32, i32))
    ensures
        r.0 == settings.window_x,
        r.1 == settings.window_y,
        r.2 == if settings.window_width < 340 { 340 } else { settings.window_width },
        r.3 == if settings.window_height < 460 { 460 } else { settings.window_height },
{
    let width = if settings.window_width < MIN_MAIN_WIDTH { MIN_MAIN_WIDTH } else { settings.window_width };
    let height = if settings.window_height < MIN_MAIN_HEIGHT { MIN_MAIN_HEIGHT } else { settings.window_height };
    (settings.window_x, settings.window_y, width, height)
}

/// The opacity to give the window: the setting, kept within 30..=255.
pub fn window_alpha(settings: &Settings) -> (r: u8)
    ensures
        r == if settings.window_alpha < 30 { 30 } else { settings.window_alpha },
        30 <= r,
{
    if settings.window_alpha < 30 {
        30
    } else {
        settings.window_alpha
    }
}

impl Board {
    /// Records where the window now is: its position, and its size but at
    /// least 340 by 460.
    pub fn record_window_rect(&mut self, window: RECT)
        requires
            i32::MIN <= window.right - window.left <= i32::MAX,
            i32::MIN <= window.bottom - window.top <= i32::MAX,
        ensures
            final(self).settings@ == (SettingsView {
                window_x: window.left,
                window_y: window.top,
                window_width: if window.right - window.left < 340 { 340 } else { (window.right - window.left) as i32 },
                window_height: if window.bottom - window.top < 460 { 460 } else { (window.bottom - window.top) as i32 },
                ..old(self).settings@
            }),
            final(self).tasks == old(self).tasks,
            final(self).selected_id == old(self).selected_id,
            final(self).scroll == old(self).scroll,
            final(self).row_rects == old(self).row_rects,
            final(self).button_rects == old(self).button_rects,
            final(self).status == old(self).status,
            final(self).summary_in_progress == old(self).summary_in_progress,
    {
        let width = window.right - window.left;
        let height = window.bottom - window.top;
        self.settings.window_x = window.left;
        self.settings.window_y = window.top;
        self.settings.window_width = if width < MIN_MAIN_WIDTH { MIN_MAIN_WIDTH } else { width };
        self.settings.window_height = if height < MIN_MAIN_HEIGHT { MIN_MAIN_HEIGHT } else { height };
    }
}

/// The details of the first task with `id`: title, due time and the trimmed
/// note (`无备注` when blank); `未找到记录` when there is none.
pub open spec fn detail_text(tasks: Seq<TaskView>, id: u64) -> Seq<char> {
    match crate::board::index_of_id(tasks, id) {
        Some(i) => tasks[i].title + "\n截止："@ + tasks[i].due.storage_text() + "\n\n"@
            + crate::summary::note_or(tasks[i].note, "无备注"@),
        None => "未找到记录"@,
    }
}

/// The text shown for a task's details.
pub fn task_detail(tasks: &Vec<Task>, id: u64) -> (r: String)
    ensures
        r@ == detail_text(task_views(tasks@), id),
{
    match crate::board::find_task(tasks, id) {
        Some(i) => {
            let t = &tasks[i];
            assert(task_views(tasks@)[i as int] == t@);
            let mut out = t.title.clone();
            out.append("\n截止：");
            out.append(t.due.storage_string().as_str());
            out.append("\n\n");
            let note = trim_chars(&chars_of(t.note.as_str()));
            if note.len() == 0 {
                out.append("无备注");
            } else {
                out.append(string_of(&note).as_str());
            }
            out
        },
        None => String::from_str("未找到记录"),
    }
}

/// A message to the main window, decoded.
#[derive(Clone, Copy, Debug, PartialEq, Eq, Structural)]
pub enum MainMessage {
    Create,
    GetMinMaxInfo,
    HitTest,
    Size,
    Paint,
    LeftDown { x: i32, y: i32 },
    MouseMove,
    LeftUp,
    LeftDoubleClick { x: i32, y: i32 },
    RightUp { x: i32, y: i32 },
    Wheel { delta: i16 },
    /// The timer that checks whether the weekly summary is due.
    SummaryTimer,
    /// Another timer.
    OtherTimer,
    SummaryReady,
    Close,
    Destroy,
    /// Left to the system's default handling.
    Other,
}

/// The message that a finished summary posts to the main window.
pub const WM_SUMMARY_READY: u32 = 0x8000 + 10;

/// The id of the timer that checks for the weekly summary.
pub const TIMER_AUTO_SUMMARY: usize = 1;

/// The main window's reading of a message: which one it is, and the pointer
/// position or wheel turn packed in its parameters.
pub open spec fn main_message(msg: u32, wparam: usize, lparam: isize) -> MainMessage {
    let x = crate::win32::signed16(lparam as int % 65536) as i32;
    let y = crate::win32::signed16((lparam as int / 65536) % 65536) as i32;
    if msg == 0x0001 {
        MainMessage::Create
    } else if msg == 0x0024 {
        MainMessage::GetMinMaxInfo
    } else if msg == 0x0084 {
        MainMessage::HitTest
    } else if msg == 0x0005 {
        MainMessage::Size
    } else if msg == 0x000F {
        MainMessage::Paint
    } else if msg == 0x0201 {
        MainMessage::LeftDown { x, y }
    } else if msg == 0x0200 {
        MainMessage::MouseMove
    } else if msg == 0x0202 {
        MainMessage::LeftUp
    } else if msg == 0x0203 {
        MainMessage::LeftDoubleClick { x, y }
    } else if msg == 0x0205 {
        MainMessage::RightUp { x, y }
    } else if msg == 0x020A {
        MainMessage::Wheel { delta: crate::win32::signed16((wparam as int / 65536) % 65536) as i16 }
    } else if msg == 0x0113 {
        if wparam == 1 {
            MainMessage::SummaryTimer
        } else {
            MainMessage::OtherTimer
        }
    } else if msg == 0x8000 + 10 {
        MainMessage::SummaryReady
    } else if msg == 0x0010 {
        MainMessage::Close
    } else if msg == 0x0002 {
        MainMessage::Destroy
    } else {
        MainMessage::Other
    }
}

/// Decodes a message to the main window.
pub fn decode_main_message(msg: u32, wparam: usize, lparam: isize) -> (r: MainMessage)
    ensures
        r == main_message(msg, wparam, lparam),
{
    if msg == 0x0001 {
        MainMessage::Create
    } else if msg == 0x0024 {
        MainMessage::GetMinMaxInfo
    } else if msg == 0x0084 {
        MainMessage::HitTest
    } else if msg == 0x0005 {
        MainMessage::Size
    } else if msg == 0x000F {
        MainMessage::Paint
    } else if msg == 0x0201 {
        MainMessage::LeftDown { x: crate::win32::get_x_lparam(lparam), y: crate::win32::get_y_lparam(lparam) }
    } else if msg == 0x0200 {
        MainMessage::MouseMove
    } else if msg == 0x0202 {
        MainMessage::LeftUp
    } else if msg == 0x0203 {
        MainMessage::LeftDoubleClick { x: crate::win32::get_x_lparam(lparam), y: crate::win32::get_y_lparam(lparam) }
    } else if msg == 0x0205 {
        MainMessage::RightUp { x: crate::win32::get_x_lparam(lparam), y: crate::win32::get_y_lparam(lparam) }
    } else if msg == 0x020A {
        MainMessage::Wheel { delta: crate::win32::wheel_delta(wparam) }
    } else if msg == 0x0113 {
        if wparam == TIMER_AUTO_SUMMARY {
            MainMessage::SummaryTimer
        } else {
            MainMessage::OtherTimer
        }
    } else if msg == WM_SUMMARY_READY {
        MainMessage::SummaryReady
    } else if msg == 0x0010 {
        MainMessage::Close
    } else if msg == 0x0002 {
        MainMessage::Destroy
    } else {
        MainMessage::Other
    }
}

/// What pressing a toolbar button leads to.
#[derive(Clone, Copy, Debug, PartialEq, Eq, Structural)]
pub enum ToolbarCommand {
    /// Open the form for a new task.
    NewTask,
    /// Mark the selected task completed.
    CompleteTask(u64),
    /// Nothing is selected: tell the user `请先选中一条待办`.
    SelectFirst,
    OpenSearch,
    StartSummary,
    OpenSettings,
    CloseWindow,
}

impl Board {
    /// What a toolbar button does, given the selection.
    pub fn toolbar_command(&self, action: ToolbarAction) -> (r: ToolbarCommand)
        ensures
            r == match action {
                ToolbarAction::Add => ToolbarCommand::NewTask,
                ToolbarAction::Complete => match self.selected_id {
                    Some(id) => ToolbarCommand::CompleteTask(id),
                    None => ToolbarCommand::SelectFirst,
                },
                ToolbarAction::Search => ToolbarCommand::OpenSearch,
                ToolbarAction::Summary => ToolbarCommand::StartSummary,
                ToolbarAction::Settings => ToolbarCommand::OpenSettings,
                ToolbarAction::Close => ToolbarCommand::CloseWindow,
            },
    {
        match action {
            ToolbarAction::Add => ToolbarCommand::NewTask,
            ToolbarAction::Complete => match self.selected_id {
                Some(id) => ToolbarCommand::CompleteTask(id),
                None => ToolbarCommand::SelectFirst,
            },
            ToolbarAction::Search => ToolbarCommand::OpenSearch,
            ToolbarAction::Summary => ToolbarCommand::StartSummary,
            ToolbarAction::Settings => ToolbarCommand::OpenSettings,
            ToolbarAction::Close => ToolbarCommand::CloseWindow,
        }
    }
}

/// An entry of a task row's context menu.
#[derive(Clone, Copy, Debug, PartialEq, Eq, Structural)]
pub enum RowMenuCommand {
    Complete,
    Edit,
    ShowNote,
    Delete,
}

/// The menu entry that the menu's answer names, if any.
pub fn row_menu_command(cmd: usize) -> (r: Option<RowMenuCommand>)
    ensures
        r == if cmd == 1001 {
            Some(RowMenuCommand::Complete)
        } else if cmd == 1002 {
            Some(RowMenuCommand::Edit)
        } else if cmd == 1003 {
            Some(RowMenuCommand::ShowNote)
        } else if cmd == 1004 {
            Some(RowMenuCommand::Delete)
        } else {
            None
        },
{
    if cmd == 1001 {
        Some(RowMenuCommand::Complete)
    } else if cmd == 1002 {
        Some(RowMenuCommand::Edit)
    } else if cmd == 1003 {
        Some(RowMenuCommand::ShowNote)
    } else if cmd == 1004 {
        Some(RowMenuCommand::Delete)
    } else {
        None
    }
}

/// The fixed parts of the main window for a client area `width` by `height`.
#[derive(Clone, Copy, Debug, PartialEq, Eq, Structural)]
pub struct FrameRects {
    pub header: RectI,
    pub title: RectI,
    pub subtitle: RectI,
    pub empty_card: RectI,
    pub empty_text: RectI,
    pub footer: RectI,
    pub footer_text: RectI,
}

/// Lays out the header, the card shown when there is no task, and the footer.
pub fn frame_rects(width: i32, height: i32) -> (r: FrameRects)
    requires
        i32::MIN + 210 <= width,
        i32::MIN + 58 <= height,
    ensures
        r.header == (RectI { left: 12, top: 12, right: (width - 12) as i32, bottom: 104 }),
        r.title == (RectI { left: 26, top: 22, right: (width - 210) as i32, bottom: 56 }),
        r.subtitle == (RectI { left: 28, top: 58, right: (width - 190) as i32, bottom: 86 }),
        r.empty_card == (RectI {
            left: 14,
            top: 126,
            right: (width - 14) as i32,
            bottom: if height - 58 < 188 { 188 } else { (height - 58) as i32 },
        }),
        r.empty_text == (RectI { left: 28, top: 166, right: (width - 28) as i32, bottom: 228 }),
        r.footer == (RectI { left: 14, top: (height - 42) as i32, right: (width - 14) as i32, bottom: (height - 12) as i32 }),
        r.footer_text == (RectI { left: 26, top: (height - 38) as i32, right: (width - 26) as i32, bottom: (height - 14) as i32 }),
{
    let card_bottom = height - 48 - 10;
    FrameRects {
        header: RectI { left: 12, top: 12, right: width - 12, bottom: 104 },
        title: RectI { left: 26, top: 22, right: width - 210, bottom: 56 },
        subtitle: RectI { left: 28, top: 58, right: width - 190, bottom: 86 },
        empty_card: RectI { left: 14, top: 126, right: width - 14, bottom: if card_bottom < 188 { 188 } else { card_bottom } },
        empty_text: RectI { left: 28, top: 166, right: width - 28, bottom: 228 },
        footer: RectI { left: 14, top: height - 42, right: width - 14, bottom: height - 12 },
        footer_text: RectI { left: 26, top: height - 38, right: width - 26, bottom: height - 14 },
    }
}

/// The parts of a task row drawn in rectangle `rc`.
#[derive(Clone, Copy, Debug, PartialEq, Eq, Structural)]
pub struct RowRects {
    /// The coloured bar at the left.
    pub accent: RectI,
    pub title: RectI,
    /// The due-time badge and its text.
    pub badge: RectI,
    pub badge_text: RectI,
    pub note: RectI,
}

/// Lays out the parts of a task row.
pub fn row_rects(rc: RectI) -> (r: RowRects)
    requires
        rc.left <= i32::MAX - 28,
        rc.top <= i32::MAX - 42,
        rc.right >= i32::MIN + 104,
        rc.bottom >= i32::MIN + 12,
    ensures
        r.accent == (RectI { left: (rc.left + 10) as i32, top: (rc.top + 12) as i32, right: (rc.left + 18) as i32, bottom: (rc.bottom - 12) as i32 }),
        r.title == (RectI { left: (rc.left + 28) as i32, top: (rc.top + 10) as i32, right: (rc.right - 104) as i32, bottom: (rc.top + 38) as i32 }),
        r.badge == (RectI { left: (rc.right - 102) as i32, top: (rc.top + 12) as i32, right: (rc.right - 14) as i32, bottom: (rc.top + 38) as i32 }),
        r.badge_text == (RectI { left: (rc.right - 98) as i32, top: (rc.top + 12) as i32, right: (rc.right - 18) as i32, bottom: (rc.top + 38) as i32 }),
        r.note == (RectI { left: (rc.left + 28) as i32, top: (rc.top + 42) as i32, right: (rc.right - 16) as i32, bottom: (rc.bottom - 10) as i32 }),
{
    RowRects {
        accent: RectI { left: rc.left + 10, top: rc.top + 12, right: rc.left + 18, bottom: rc.bottom - 12 },
        title: RectI { left: rc.left + 28, top: rc.top + 10, right: rc.right - 104, bottom: rc.top + 38 },
        badge: RectI { left: rc.right - 102, top: rc.top + 12, right: rc.right - 14, bottom: rc.top + 38 },
        badge_text: RectI { left: rc.right - 98, top: rc.top + 12, right: rc.right - 18, bottom: rc.top + 38 },
        note: RectI { left: rc.left + 28, top: rc.top + 42, right: rc.right - 16, bottom: rc.bottom - 10 },
    }
}

} // verus!
