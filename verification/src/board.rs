//! The to-do board behind the widget window: the task list and its
//! operations, the toolbar and row layout, colours and the small decisions
//! that the window makes on user input.
use vstd::prelude::*;
use crate::win32::{rect, rgb, rgb_spec, RECT};
use crate::datetime::LocalDateTime;
use crate::store::{max_id, next_task_id, task_views, Settings, Task, TaskView};

verus! {

/// A toolbar button.
#[derive(Clone, Copy, Debug, PartialEq, Eq, Structural)]
pub enum ToolbarAction {
    Add,
    Complete,
    Search,
    Summary,
    Settings,
    Close,
}

/// A rectangle in client coordinates, edges included.
#[derive(Clone, Copy, Debug, PartialEq, Eq, Structural)]
pub struct RectI {
    pub left: i32,
    pub top: i32,
    pub right: i32,
    pub bottom: i32,
}

impl RectI {
    /// Whether `(x, y)` lies in the rectangle, edges included.
    pub open spec fn holds(self, x: int, y: int) -> bool {
        self.left <= x <= self.right && self.top <= y <= self.bottom
    }

    /// Whether `(x, y)` lies in the rectangle, edges included.
    pub fn contains(&self, x: i32, y: i32) -> (r: bool)
        ensures
            r == self.holds(x as int, y as int),
    {
        x >= self.left && x <= self.right && y >= self.top && y <= self.bottom
    }

    /// The same rectangle as a system `RECT`.
    pub fn to_rect(self) -> (r: RECT)
        ensures
            r == (RECT { left: self.left, top: self.top, right: self.right, bottom: self.bottom }),
    {
        rect(self.left, self.top, self.right, self.bottom)
    }
}

/// The toolbar buttons from left to right.
pub open spec fn toolbar_order() -> Seq<ToolbarAction> {
    seq![
        ToolbarAction::Add,
        ToolbarAction::Complete,
        ToolbarAction::Search,
        ToolbarAction::Summary,
        ToolbarAction::Settings,
        ToolbarAction::Close,
    ]
}

/// Rectangle of the `i`-th toolbar button in a window `width` pixels wide:
/// 28 x 28 pixels at y = 26, the first 212 pixels from the right edge, 32 apart.
pub open spec fn toolbar_button(width: int, i: int) -> RectI {
    let x = width - 212 + 32 * i;
    RectI { left: x as i32, top: 26, right: (x + 28) as i32, bottom: 54 }
}

/// The toolbar buttons and their rectangles.
pub fn layout_toolbar(width: i32) -> (r: Vec<(ToolbarAction, RectI)>)
    requires
        width >= i32::MIN + 212,
    ensures
        r@.len() == 6,
        forall|i: int| 0 <= i < 6 ==> #[trigger] r@[i] == (toolbar_order()[i], toolbar_button(width as int, i)),
{
    let actions = [
        ToolbarAction::Add,
        ToolbarAction::Complete,
        ToolbarAction::Search,
        ToolbarAction::Summary,
        ToolbarAction::Settings,
        ToolbarAction::Close,
    ];
    assert(actions@ =~= toolbar_order());
    let mut x = width - 212;
    let mut out: Vec<(ToolbarAction, RectI)> = Vec::new();
    let mut i: usize = 0;
    while i < 6
        invariant
            i <= 6,
            actions@ == toolbar_order(),
            width >= i32::MIN + 212,
            x == width - 212 + 32 * i,
            out@.len() == i,
            forall|j: int| 0 <= j < i ==> #[trigger] out@[j] == (toolbar_order()[j], toolbar_button(width as int, j)),
        decreases 6 - i,
    {
        out.push((actions[i], RectI { left: x, top: 26, right: x + 28, bottom: 54 }));
        x += 32;
        i += 1;
    }
    out
}

/// Index of the first rectangle that holds `(x, y)`.
pub open spec fn first_hit<T>(rects: Seq<(T, RectI)>, x: int, y: int) -> Option<int>
    decreases rects.len(),
{
    if rects.len() == 0 {
        None
    } else if rects[0].1.holds(x, y) {
        Some(0)
    } else {
        match first_hit(rects.drop_first(), x, y) {
            Some(i) => Some(i + 1),
            None => None,
        }
    }
}

proof fn lemma_first_hit_step<T>(rects: Seq<(T, RectI)>, i: int, x: int, y: int)
    requires
        0 <= i < rects.len(),
        first_hit(rects, x, y) == match first_hit(rects.skip(i), x, y) {
            Some(j) => Some(j + i),
            None => None::<int>,
        },
        !rects[i].1.holds(x, y),
    ensures
        first_hit(rects, x, y) == match first_hit(rects.skip(i + 1), x, y) {
            Some(j) => Some(j + i + 1),
            None => None::<int>,
        },
{
    assert(rects.skip(i).drop_first() =~= rects.skip(i + 1));
    assert(rects.skip(i)[0] == rects[i]);
}

/// The toolbar button at `(x, y)`, the first one listed if several hold it.
pub fn action_at(buttons: &Vec<(ToolbarAction, RectI)>, x: i32, y: i32) -> (r: Option<ToolbarAction>)
    ensures
        r == match first_hit(buttons@, x as int, y as int) {
            Some(i) => Some(buttons@[i].0),
            None => None,
        },
{
    let mut i: usize = 0;
    assert(buttons@.skip(0) =~= buttons@);
    while i < buttons.len()
        invariant
            i <= buttons.len(),
            first_hit(buttons@, x as int, y as int) == match first_hit(buttons@.skip(i as int), x as int, y as int) {
                Some(j) => Some(j + i),
                None => None::<int>,
            },
        decreases buttons.len() - i,
    {
        if buttons[i].1.contains(x, y) {
            assert(buttons@.skip(i as int)[0] == buttons@[i as int]);
            return Some(buttons[i].0);
        }
        proof {
            lemma_first_hit_step(buttons@, i as int, x as int, y as int);
        }
        i += 1;
    }
    assert(buttons@.skip(i as int) =~= Seq::<(ToolbarAction, RectI)>::empty());
    None
}

/// The id of the task row at `(x, y)`, the first one listed if several hold it.
pub fn row_at(rows: &Vec<(u64, RectI)>, x: i32, y: i32) -> (r: Option<u64>)
    ensures
        r == match first_hit(rows@, x as int, y as int) {
            Some(i) => Some(rows@[i].0),
            None => None,
        },
{
    let mut i: usize = 0;
    assert(rows@.skip(0) =~= rows@);
    while i < rows.len()
        invariant
            i <= rows.len(),
            first_hit(rows@, x as int, y as int) == match first_hit(rows@.skip(i as int), x as int, y as int) {
                Some(j) => Some(j + i),
                None => None::<int>,
            },
        decreases rows.len() - i,
    {
        if rows[i].1.contains(x, y) {
            assert(rows@.skip(i as int)[0] == rows@[i as int]);
            return Some(rows[i].0);
        }
        proof {
            lemma_first_hit_step(rows@, i as int, x as int, y as int);
        }
        i += 1;
    }
    assert(rows@.skip(i as int) =~= Seq::<(u64, RectI)>::empty());
    None
}

/// The hint shown under a task without a note, by minutes left until its due time.
pub open spec fn due_hint(diff_minutes: int) -> Seq<char> {
    if diff_minutes <= 0 {
        "已逾期，建议优先处理"@
    } else if diff_minutes <= 1440 {
        "今天截止，请尽快完成"@
    } else if diff_minutes <= 2880 {
        "明后天截止，可提前安排"@
    } else {
        "进度稳定，可按计划推进"@
    }
}

/// The hint for a task due in `diff_minutes` minutes.
pub fn due_status(diff_minutes: i64) -> (r: &'static str)
    ensures
        r@ == due_hint(diff_minutes as int),
{
    if diff_minutes <= 0 {
        "已逾期，建议优先处理"
    } else if diff_minutes <= 1440 {
        "今天截止，请尽快完成"
    } else if diff_minutes <= 2880 {
        "明后天截止，可提前安排"
    } else {
        "进度稳定，可按计划推进"
    }
}

/// The accent colour of a task row by minutes left: red when overdue, orange
/// within a day, amber within two days, blue otherwise.
pub fn due_accent(diff_minutes: i64) -> (r: u32)
    ensures
        r == if diff_minutes <= 0 {
            rgb_spec(205, 63, 63)
        } else if diff_minutes <= 1440 {
            rgb_spec(220, 124, 24)
        } else if diff_minutes <= 2880 {
            rgb_spec(185, 142, 36)
        } else {
            rgb_spec(59, 103, 189)
        },
{
    if diff_minutes <= 0 {
        rgb(205, 63, 63)
    } else if diff_minutes <= 1440 {
        rgb(220, 124, 24)
    } else if diff_minutes <= 2880 {
        rgb(185, 142, 36)
    } else {
        rgb(59, 103, 189)
    }
}

/// Integer division rounding toward zero, as `/` on machine integers.
pub open spec fn div_toward_zero(a: int, b: int) -> int {
    if a >= 0 {
        a / b
    } else {
        -((-a) / b)
    }
}

/// `base` moved `percent` percent of the way to `target`, truncated to a byte.
pub open spec fn mix_channel_spec(base: u8, target: u8, percent: u8) -> u8 {
    (base + div_toward_zero((target - base) * percent, 100)) as u8
}

/// Blends one colour channel toward another.
pub fn mix_channel(base: u8, target: u8, percent: u8) -> (r: u8)
    ensures
        r == mix_channel_spec(base, target, percent),
{
    let base = base as i32;
    let target = target as i32;
    let p = percent as i32;
    assert(-65025 <= (target - base) * p <= 65025) by (nonlinear_arith)
        requires
            -255 <= target - base <= 255,
            0 <= p <= 255,
    ;
    let prod = (target - base) * p;
    let q = prod / 100;
    assert(q == div_toward_zero(prod as int, 100));
    (#[verifier::truncate] ((base + q) as u8))
}

/// Blends a colour toward another, channel by channel.
pub fn mix_rgb(base: (u8, u8, u8), target: (u8, u8, u8), percent: u8) -> (r: u32)
    ensures
        r == rgb_spec(
            mix_channel_spec(base.0, target.0, percent),
            mix_channel_spec(base.1, target.1, percent),
            mix_channel_spec(base.2, target.2, percent),
        ),
{
    rgb(
        mix_channel(base.0, target.0, percent),
        mix_channel(base.1, target.1, percent),
        mix_channel(base.2, target.2, percent),
    )
}

/// Sort key of a task by due time.
pub open spec fn due_key(t: TaskView) -> int {
    t.due.minute_number()
}

/// Sort key of a task by completion time, latest first; tasks without a
/// completion time come before all others.
pub open spec fn done_desc_key(t: TaskView) -> int {
    match t.completed_at {
        Some(d) => -d.minute_number(),
        None => -0x4000_0000_0000_0000,
    }
}

/// `t` inserted into `s` after the last element whose key is not greater.
pub open spec fn insert_by_key(s: Seq<TaskView>, t: TaskView, key: spec_fn(TaskView) -> int) -> Seq<TaskView>
    decreases s.len(),
{
    if s.len() == 0 || key(s.last()) <= key(t) {
        s.push(t)
    } else {
        insert_by_key(s.drop_last(), t, key).push(s.last())
    }
}

/// `s` sorted by `key`, equal keys keeping their order (a stable sort).
pub open spec fn sort_by_key(s: Seq<TaskView>, key: spec_fn(TaskView) -> int) -> Seq<TaskView>
    decreases s.len(),
{
    if s.len() == 0 {
        s
    } else {
        insert_by_key(sort_by_key(s.drop_last(), key), s.last(), key)
    }
}

/// The tasks that are not completed, in list order.
pub open spec fn active_tasks(s: Seq<TaskView>) -> Seq<TaskView>
    decreases s.len(),
{
    if s.len() == 0 {
        s
    } else if !s.last().completed {
        active_tasks(s.drop_last()).push(s.last())
    } else {
        active_tasks(s.drop_last())
    }
}

/// A task completed within `start..=end` (by minute count).
pub open spec fn done_within(t: TaskView, start: LocalDateTime, end: LocalDateTime) -> bool {
    t.completed && match t.completed_at {
        Some(d) => start.minute_number() <= d.minute_number() <= end.minute_number(),
        None => false,
    }
}

/// The tasks completed within `start..=end`, in list order.
pub open spec fn done_tasks(s: Seq<TaskView>, start: LocalDateTime, end: LocalDateTime) -> Seq<TaskView>
    decreases s.len(),
{
    if s.len() == 0 {
        s
    } else if done_within(s.last(), start, end) {
        done_tasks(s.drop_last(), start, end).push(s.last())
    } else {
        done_tasks(s.drop_last(), start, end)
    }
}

/// Which order a task list is sorted in.
#[derive(Clone, Copy, PartialEq, Eq, Structural)]
pub enum TaskOrder {
    /// By due time, earliest first.
    Due,
    /// By completion time, latest first.
    DoneLatestFirst,
}

/// The key function of an order.
pub open spec fn order_key(o: TaskOrder) -> spec_fn(TaskView) -> int {
    match o {
        TaskOrder::Due => |t: TaskView| due_key(t),
        TaskOrder::DoneLatestFirst => |t: TaskView| done_desc_key(t),
    }
}

fn task_key(t: &Task, o: TaskOrder) -> (r: i64)
    ensures
        r == (order_key(o))(t@),
{
    match o {
        TaskOrder::Due => t.due.minutes_key(),
        TaskOrder::DoneLatestFirst => match t.completed_at {
            Some(d) => -d.minutes_key(),
            None => -0x4000_0000_0000_0000,
        },
    }
}

proof fn lemma_insert_at(s: Seq<TaskView>, t: TaskView, key: spec_fn(TaskView) -> int, j: int)
    requires
        0 <= j <= s.len(),
        forall|k: int| j <= k < s.len() ==> key(#[trigger] s[k]) > key(t),
        j == 0 || key(s[j - 1]) <= key(t),
    ensures
        insert_by_key(s, t, key) == s.insert(j, t),
    decreases s.len() - j,
{
    if j == s.len() {
        assert(s.insert(j, t) =~= s.push(t));
    } else {
        let init = s.drop_last();
        assert(key(s.last()) > key(t));
        assert forall|k: int| j <= k < init.len() implies key(#[trigger] init[k]) > key(t) by {
            assert(init[k] == s[k]);
        }
        if j > 0 {
            assert(init[j - 1] == s[j - 1]);
        }
        lemma_insert_at(init, t, key, j);
        assert(init.insert(j, t).push(s.last()) =~= s.insert(j, t));
    }
}

/// The tasks in the given order, equal keys keeping their list order.
pub(crate) fn sorted_tasks(tasks: Vec<Task>, o: TaskOrder) -> (r: Vec<Task>)
    ensures
        task_views(r@) == sort_by_key(task_views(tasks@), order_key(o)),
{
    let ghost key = order_key(o);
    let ghost tv = task_views(tasks@);
    let mut out: Vec<Task> = Vec::new();
    let mut keys: Vec<i64> = Vec::new();
    let mut rest = tasks;
    let ghost orig = rest@;
    let mut i: usize = 0;
    let n = rest.len();
    assert(tv.take(0) =~= Seq::<TaskView>::empty());
    assert(orig.skip(0) =~= orig);
    while rest.len() > 0
        invariant
            n == orig.len(),
            key == order_key(o),
            i + rest.len() == n,
            tv == task_views(orig),
            rest@ == orig.skip(i as int),
            keys@.len() == out@.len(),
            forall|k: int| 0 <= k < out@.len() ==> #[trigger] keys@[k] == key(out@[k]@),
            task_views(out@) == sort_by_key(tv.take(i as int), key),
        decreases rest.len(),
    {
        let ghost r0 = rest@;
        let t = rest.remove(0);
        assert(t == orig[i as int]);
        assert(rest@ =~= orig.skip(i + 1));
        let k = task_key(&t, o);
        let mut j = out.len();
        while j > 0 && keys[j - 1] > k
            invariant
                j <= out@.len(),
                keys@.len() == out@.len(),
                forall|m: int| 0 <= m < out@.len() ==> #[trigger] keys@[m] == key(out@[m]@),
                forall|m: int| j <= m < out@.len() ==> keys@[m] > k,
            decreases j,
        {
            j -= 1;
        }
        proof {
            assert(k == key(t@));
            let sv = task_views(out@);
            assert forall|m: int| j <= m < sv.len() implies key(#[trigger] sv[m]) > key(t@) by {
                assert(sv[m] == out@[m]@);
                assert(keys@[m] == key(out@[m]@));
                assert(keys@[m] > k);
            }
            if j > 0 {
                assert(keys@[j - 1] <= k);
            }
            lemma_insert_at(sv, t@, key, j as int);
            assert(tv.take(i + 1).drop_last() =~= tv.take(i as int));
            assert(tv.take(i + 1).last() == t@);
        }
        let ghost before = out@;
        let ghost before_keys = keys@;
        out.insert(j, t);
        keys.insert(j, k);
        proof {
            assert(task_views(out@) =~= task_views(before).insert(j as int, t@));
            assert forall|m: int| 0 <= m < out@.len() implies #[trigger] keys@[m] == key(out@[m]@) by {
                if m < j {
                    assert(out@[m] == before[m]);
                    assert(keys@[m] == before_keys[m]);
                } else if m == j {
                } else {
                    assert(out@[m] == before[m - 1]);
                    assert(keys@[m] == before_keys[m - 1]);
                }
            }
        }
        i += 1;
    }
    assert(tv.take(n as int) =~= tv);
    out
}

/// The board's task list and selection, the rows and buttons last laid out,
/// and the status line.
pub struct Board {
    pub tasks: Vec<Task>,
    pub settings: Settings,
    pub selected_id: Option<u64>,
    pub scroll: usize,
    pub row_rects: Vec<(u64, RectI)>,
    pub button_rects: Vec<(ToolbarAction, RectI)>,
    pub status: String,
    pub summary_in_progress: bool,
}

impl Board {
    /// A board over loaded tasks and settings, nothing selected, status `准备就绪`.
    pub fn new(tasks: Vec<Task>, settings: Settings) -> (r: Board)
        ensures
            r.tasks@ == tasks@,
            r.settings@ == settings@,
            r.selected_id is None,
            r.scroll == 0,
            r.row_rects@.len() == 0,
            r.button_rects@.len() == 0,
            r.status@ == "准备就绪"@,
            !r.summary_in_progress,
    {
        Board {
            tasks,
            settings,
            selected_id: None,
            scroll: 0,
            row_rects: Vec::new(),
            button_rects: Vec::new(),
            status: String::from_str("准备就绪"),
            summary_in_progress: false,
        }
    }

    /// The tasks that are not completed, earliest due first (ties in list order).
    pub fn active_sorted(&self) -> (r: Vec<Task>)
        ensures
            task_views(r@) == sort_by_key(active_tasks(task_views(self.tasks@)), order_key(TaskOrder::Due)),
    {
        let mut picked: Vec<Task> = Vec::new();
        let ghost tv = task_views(self.tasks@);
        let mut i: usize = 0;
        assert(tv.take(0) =~= Seq::<TaskView>::empty());
        while i < self.tasks.len()
            invariant
                i <= self.tasks.len(),
                tv == task_views(self.tasks@),
                task_views(picked@) == active_tasks(tv.take(i as int)),
            decreases self.tasks.len() - i,
        {
            assert(tv.take(i + 1).drop_last() =~= tv.take(i as int));
            assert(tv.take(i + 1).last() == self.tasks@[i as int]@);
            if !self.tasks[i].completed {
                let ghost before = picked@;
                let t = self.tasks[i].duplicate();
                picked.push(t);
                assert(task_views(picked@) =~= task_views(before).push(self.tasks@[i as int]@));
            }
            i += 1;
        }
        assert(tv.take(self.tasks.len() as int) =~= tv);
        sorted_tasks(picked, TaskOrder::Due)
    }

    /// The tasks completed within `start..=end`, latest completion first (ties in list order).
    pub fn completed_between(&self, start: LocalDateTime, end: LocalDateTime) -> (r: Vec<Task>)
        ensures
            task_views(r@) == sort_by_key(done_tasks(task_views(self.tasks@), start, end), order_key(TaskOrder::DoneLatestFirst)),
    {
        let mut picked: Vec<Task> = Vec::new();
        let ghost tv = task_views(self.tasks@);
        let mut i: usize = 0;
        assert(tv.take(0) =~= Seq::<TaskView>::empty());
        let s = start.minutes_key();
        let e = end.minutes_key();
        while i < self.tasks.len()
            invariant
                i <= self.tasks.len(),
                tv == task_views(self.tasks@),
                s == start.minute_number(),
                e == end.minute_number(),
                task_views(picked@) == done_tasks(tv.take(i as int), start, end),
            decreases self.tasks.len() - i,
        {
            assert(tv.take(i + 1).drop_last() =~= tv.take(i as int));
            assert(tv.take(i + 1).last() == self.tasks@[i as int]@);
            let keep = self.tasks[i].completed && match self.tasks[i].completed_at {
                Some(dt) => {
                    let m = dt.minutes_key();
                    m >= s && m <= e
                },
                None => false,
            };
            if keep {
                let ghost before = picked@;
                let t = self.tasks[i].duplicate();
                picked.push(t);
                assert(task_views(picked@) =~= task_views(before).push(self.tasks@[i as int]@));
            }
            i += 1;
        }
        assert(tv.take(self.tasks.len() as int) =~= tv);
        sorted_tasks(picked, TaskOrder::DoneLatestFirst)
    }
}

/// Position of the first task with id `id`.
pub open spec fn index_of_id(s: Seq<TaskView>, id: u64) -> Option<int>
    decreases s.len(),
{
    if s.len() == 0 {
        None
    } else if s[0].id == id {
        Some(0)
    } else {
        match index_of_id(s.drop_first(), id) {
            Some(i) => Some(i + 1),
            None => None,
        }
    }
}

/// The tasks whose id is not `id`, in list order.
pub open spec fn without_id(s: Seq<TaskView>, id: u64) -> Seq<TaskView>
    decreases s.len(),
{
    if s.len() == 0 {
        s
    } else if s.last().id != id {
        without_id(s.drop_last(), id).push(s.last())
    } else {
        without_id(s.drop_last(), id)
    }
}

/// No two tasks share an id.
pub open spec fn unique_ids(s: Seq<TaskView>) -> bool {
    forall|i: int, j: int| 0 <= i < j < s.len() ==> #[trigger] s[i].id != #[trigger] s[j].id
}

proof fn lemma_index_of_id_found(s: Seq<TaskView>, id: u64)
    ensures
        match index_of_id(s, id) {
            Some(i) => 0 <= i < s.len() && s[i].id == id && forall|k: int| 0 <= k < i ==> #[trigger] s[k].id != id,
            None => forall|k: int| 0 <= k < s.len() ==> #[trigger] s[k].id != id,
        },
    decreases s.len(),
{
    if s.len() > 0 && s[0].id != id {
        let t = s.drop_first();
        lemma_index_of_id_found(t, id);
        match index_of_id(t, id) {
            Some(i) => {
                assert forall|k: int| 0 <= k < i + 1 implies #[trigger] s[k].id != id by {
                    if k > 0 {
                        assert(s[k] == t[k - 1]);
                    }
                }
                assert(s[i + 1] == t[i]);
            },
            None => {
                assert forall|k: int| 0 <= k < s.len() implies #[trigger] s[k].id != id by {
                    if k > 0 {
                        assert(s[k] == t[k - 1]);
                    }
                }
            },
        }
    }
}

pub(crate) fn find_task(tasks: &Vec<Task>, id: u64) -> (r: Option<usize>)
    ensures
        match r {
            Some(i) => index_of_id(task_views(tasks@), id) == Some(i as int) && i < tasks.len(),
            None => index_of_id(task_views(tasks@), id) is None,
        },
{
    let ghost tv = task_views(tasks@);
    let mut i: usize = 0;
    assert(tv.skip(0) =~= tv);
    while i < tasks.len()
        invariant
            i <= tasks.len(),
            tv == task_views(tasks@),
            index_of_id(tv, id) == match index_of_id(tv.skip(i as int), id) {
                Some(j) => Some(j + i),
                None => None::<int>,
            },
        decreases tasks.len() - i,
    {
        assert(tv.skip(i as int)[0] == tasks@[i as int]@);
        if tasks[i].id == id {
            return Some(i);
        }
        assert(tv.skip(i as int).drop_first() =~= tv.skip(i + 1));
        i += 1;
    }
    assert(tv.skip(i as int) =~= Seq::<TaskView>::empty());
    None
}

impl Board {
    /// Adds a new open task with the next free id, selects it and scrolls to the top.
    pub fn add_task(&mut self, title: String, due: LocalDateTime, note: String, created_at: LocalDateTime) -> (id: u64)
        requires
            max_id(old(self).tasks@) < u64::MAX,
        ensures
            id == max_id(old(self).tasks@) + 1,
            task_views(final(self).tasks@) == task_views(old(self).tasks@).push(
                TaskView {
                    id,
                    title: title@,
                    due,
                    note: note@,
                    created_at,
                    completed: false,
                    completed_at: None,
                },
            ),
            final(self).selected_id == Some(id),
            final(self).scroll == 0,
            final(self).settings == old(self).settings,
            final(self).status == old(self).status,
    {
        let id = next_task_id(self.tasks.as_slice());
        let task = Task { id, title, due, note, created_at, completed: false, completed_at: None };
        let ghost before = self.tasks@;
        let ghost tv = task@;
        self.tasks.push(task);
        assert(task_views(self.tasks@) =~= task_views(before).push(tv));
        self.selected_id = Some(id);
        self.scroll = 0;
        id
    }

    /// Changes the title, due time and note of the first task with `id`.
    pub fn update_task(&mut self, id: u64, title: String, due: LocalDateTime, note: String) -> (r: Result<(), String>)
        ensures
            match index_of_id(task_views(old(self).tasks@), id) {
                Some(i) => r is Ok && task_views(final(self).tasks@) == task_views(old(self).tasks@).update(
                    i,
                    TaskView { title: title@, due, note: note@, ..task_views(old(self).tasks@)[i] },
                ),
                None => r matches Err(e) && e@ == "没有找到要编辑的待办"@ && final(self).tasks@ == old(self).tasks@,
            },
            final(self).selected_id == old(self).selected_id,
            final(self).scroll == old(self).scroll,
            final(self).settings == old(self).settings,
            final(self).status == old(self).status,
    {
        match find_task(&self.tasks, id) {
            None => Err(String::from_str("没有找到要编辑的待办")),
            Some(i) => {
                let mut t = self.tasks[i].duplicate();
                t.title = title;
                t.due = due;
                t.note = note;
                let ghost before = self.tasks@;
                let ghost tv = t@;
                self.tasks.set(i, t);
                assert(task_views(self.tasks@) =~= task_views(before).update(i as int, tv));
                Ok(())
            },
        }
    }

    /// Marks the first task with `id` completed at `now`, clearing the
    /// selection if it was that task.
    pub fn complete_task(&mut self, id: u64, now: LocalDateTime) -> (r: Result<(), String>)
        ensures
            match index_of_id(task_views(old(self).tasks@), id) {
                Some(i) => r is Ok && task_views(final(self).tasks@) == task_views(old(self).tasks@).update(
                    i,
                    TaskView { completed: true, completed_at: Some(now), ..task_views(old(self).tasks@)[i] },
                ) && final(self).selected_id == (if old(self).selected_id == Some(id) {
                    None
                } else {
                    old(self).selected_id
                }),
                None => r matches Err(e) && e@ == "没有找到要完成的待办"@ && final(self).tasks@ == old(self).tasks@
                    && final(self).selected_id == old(self).selected_id,
            },
            final(self).scroll == old(self).scroll,
            final(self).settings == old(self).settings,
            final(self).status == old(self).status,
    {
        match find_task(&self.tasks, id) {
            None => Err(String::from_str("没有找到要完成的待办")),
            Some(i) => {
                let mut t = self.tasks[i].duplicate();
                t.completed = true;
                t.completed_at = Some(now);
                let ghost before = self.tasks@;
                let ghost tv = t@;
                self.tasks.set(i, t);
                assert(task_views(self.tasks@) =~= task_views(before).update(i as int, tv));
                if self.selected_id == Some(id) {
                    self.selected_id = None;
                }
                Ok(())
            },
        }
    }

    /// Removes every task with `id`, clearing the selection if it was that id.
    pub fn delete_task(&mut self, id: u64) -> (r: Result<(), String>)
        ensures
            task_views(final(self).tasks@) == without_id(task_views(old(self).tasks@), id),
            task_views(final(self).tasks@) == task_views(old(self).tasks@).filter(|t: TaskView| t.id != id),
            index_of_id(task_views(old(self).tasks@), id) is None ==> (r matches Err(e)
                && e@ == "没有找到要删除的记录"@ && final(self).selected_id == old(self).selected_id),
            index_of_id(task_views(old(self).tasks@), id) is Some ==> (r is Ok)
                && final(self).selected_id == (if old(self).selected_id == Some(id) {
                None
            } else {
                old(self).selected_id
            }),
            final(self).scroll == old(self).scroll,
            final(self).settings == old(self).settings,
            final(self).status == old(self).status,
    {
        let ghost tv = task_views(self.tasks@);
        proof {
            lemma_delete_keeps_others(tv, id);
        }
        let mut kept: Vec<Task> = Vec::new();
        let mut found = false;
        let mut i: usize = 0;
        assert(tv.take(0) =~= Seq::<TaskView>::empty());
        proof {
            lemma_index_of_id_found(tv, id);
        }
        while i < self.tasks.len()
            invariant
                i <= self.tasks.len(),
                tv == task_views(self.tasks@),
                task_views(kept@) == without_id(tv.take(i as int), id),
                found <==> exists|k: int| 0 <= k < i && #[trigger] tv[k].id == id,
            decreases self.tasks.len() - i,
        {
            assert(tv.take(i + 1).drop_last() =~= tv.take(i as int));
            assert(tv.take(i + 1).last() == self.tasks@[i as int]@);
            if self.tasks[i].id != id {
                let ghost before = kept@;
                let t = self.tasks[i].duplicate();
                kept.push(t);
                assert(task_views(kept@) =~= task_views(before).push(tv[i as int]));
            } else {
                found = true;
                assert(tv[i as int].id == id);
            }
            proof {
                if !found {
                    assert forall|k: int| 0 <= k < i + 1 implies #[trigger] tv[k].id != id by {}
                }
            }
            i += 1;
        }
        assert(tv.take(self.tasks.len() as int) =~= tv);
        self.tasks = kept;
        if !found {
            return Err(String::from_str("没有找到要删除的记录"));
        }
        if self.selected_id == Some(id) {
            self.selected_id = None;
        }
        Ok(())
    }

    /// Records how saving went: the given status on success, otherwise the
    /// failure prefixed by `failure_prefix`, which is also returned.
    pub fn record_save(&mut self, ok_status: &str, failure_prefix: &str, result: Result<(), String>) -> (r: Result<(), String>)
        ensures
            match result {
                Ok(()) => r is Ok && final(self).status@ == ok_status@,
                Err(e) => r matches Err(m) && m@ == failure_prefix@ + e@ && final(self).status@ == m@,
            },
            final(self).tasks == old(self).tasks,
            final(self).selected_id == old(self).selected_id,
            final(self).scroll == old(self).scroll,
            final(self).settings == old(self).settings,
    {
        match result {
            Ok(()) => {
                self.status = String::from_str(ok_status);
                Ok(())
            },
            Err(e) => {
                let mut msg = String::from_str(failure_prefix);
                msg.append(e.as_str());
                self.status = msg.clone();
                Err(msg)
            },
        }
    }
}

/// Keys never decrease along `s`.
pub open spec fn sorted_by(s: Seq<TaskView>, key: spec_fn(TaskView) -> int) -> bool {
    forall|i: int, j: int| 0 <= i < j < s.len() ==> key(#[trigger] s[i]) <= key(#[trigger] s[j])
}

proof fn lemma_insert_by_key_perm(s: Seq<TaskView>, t: TaskView, key: spec_fn(TaskView) -> int)
    ensures
        insert_by_key(s, t, key).to_multiset() == s.to_multiset().insert(t),
        insert_by_key(s, t, key).len() == s.len() + 1,
    decreases s.len(),
{
    broadcast use vstd::seq_lib::to_multiset_build;
    if !(s.len() == 0 || key(s.last()) <= key(t)) {
        let init = s.drop_last();
        lemma_insert_by_key_perm(init, t, key);
        assert(s == init.push(s.last()));
        assert(insert_by_key(s, t, key).to_multiset() =~= s.to_multiset().insert(t));
    }
}

proof fn lemma_insert_by_key_bound(s: Seq<TaskView>, t: TaskView, key: spec_fn(TaskView) -> int, b: int)
    requires
        key(t) <= b,
        forall|i: int| 0 <= i < s.len() ==> key(#[trigger] s[i]) <= b,
    ensures
        forall|i: int| 0 <= i < s.len() + 1 ==> key(#[trigger] insert_by_key(s, t, key)[i]) <= b,
    decreases s.len(),
{
    lemma_insert_by_key_perm(s, t, key);
    let r = insert_by_key(s, t, key);
    if s.len() == 0 || key(s.last()) <= key(t) {
        assert forall|i: int| 0 <= i < s.len() + 1 implies key(#[trigger] r[i]) <= b by {
            if i < s.len() {
                assert(r[i] == s[i]);
            }
        }
    } else {
        let init = s.drop_last();
        assert forall|i: int| 0 <= i < init.len() implies key(#[trigger] init[i]) <= b by {
            assert(init[i] == s[i]);
        }
        lemma_insert_by_key_bound(init, t, key, b);
        lemma_insert_by_key_perm(init, t, key);
        let inner = insert_by_key(init, t, key);
        assert forall|i: int| 0 <= i < s.len() + 1 implies key(#[trigger] r[i]) <= b by {
            if i < inner.len() {
                assert(r[i] == inner[i]);
            } else {
                assert(r[i] == s[s.len() - 1]);
            }
        }
    }
}

proof fn lemma_insert_by_key_sorted(s: Seq<TaskView>, t: TaskView, key: spec_fn(TaskView) -> int)
    requires
        sorted_by(s, key),
    ensures
        sorted_by(insert_by_key(s, t, key), key),
    decreases s.len(),
{
    lemma_insert_by_key_perm(s, t, key);
    let r = insert_by_key(s, t, key);
    if s.len() == 0 || key(s.last()) <= key(t) {
        assert forall|i: int, j: int| 0 <= i < j < r.len() implies key(#[trigger] r[i]) <= key(#[trigger] r[j]) by {
            if j < s.len() {
                assert(r[i] == s[i] && r[j] == s[j]);
            } else {
                assert(r[i] == s[i]);
                if i < s.len() - 1 {
                    assert(key(s[i]) <= key(s[s.len() - 1]));
                }
            }
        }
    } else {
        let init = s.drop_last();
        let last = s.last();
        assert(sorted_by(init, key)) by {
            assert forall|i: int, j: int| 0 <= i < j < init.len() implies key(#[trigger] init[i]) <= key(#[trigger] init[j]) by {
                assert(init[i] == s[i] && init[j] == s[j]);
            }
        }
        lemma_insert_by_key_sorted(init, t, key);
        lemma_insert_by_key_perm(init, t, key);
        let inner = insert_by_key(init, t, key);
        let b = key(last);
        assert forall|i: int| 0 <= i < init.len() implies key(#[trigger] init[i]) <= b by {
            assert(init[i] == s[i]);
            assert(s[s.len() - 1] == last);
        }
        lemma_insert_by_key_bound(init, t, key, b);
        assert forall|i: int, j: int| 0 <= i < j < r.len() implies key(#[trigger] r[i]) <= key(#[trigger] r[j]) by {
            if j < inner.len() {
                assert(r[i] == inner[i] && r[j] == inner[j]);
            } else {
                assert(r[i] == inner[i]);
                assert(r[j] == last);
            }
        }
    }
}

/// `sort_by_key` orders by the key and keeps exactly the same tasks.
pub proof fn lemma_sort_by_key(s: Seq<TaskView>, key: spec_fn(TaskView) -> int)
    ensures
        sorted_by(sort_by_key(s, key), key),
        sort_by_key(s, key).to_multiset() == s.to_multiset(),
        sort_by_key(s, key).len() == s.len(),
    decreases s.len(),
{
    broadcast use vstd::seq_lib::to_multiset_build;
    if s.len() > 0 {
        lemma_sort_by_key(s.drop_last(), key);
        lemma_insert_by_key_perm(sort_by_key(s.drop_last(), key), s.last(), key);
        lemma_insert_by_key_sorted(sort_by_key(s.drop_last(), key), s.last(), key);
        assert(s == s.drop_last().push(s.last()));
    }
}

/// Ids stay unique when a task is added with `next_task_id`.
pub proof fn lemma_add_keeps_ids_unique(tasks: Seq<Task>, t: TaskView)
    requires
        unique_ids(task_views(tasks)),
        t.id == max_id(tasks) + 1,
    ensures
        unique_ids(task_views(tasks).push(t)),
{
    crate::store::lemma_max_id_bounds(tasks);
    let tv = task_views(tasks);
    let r = tv.push(t);
    assert forall|i: int, j: int| 0 <= i < j < r.len() implies #[trigger] r[i].id != #[trigger] r[j].id by {
        if j < tv.len() {
            assert(r[i] == tv[i] && r[j] == tv[j]);
        } else {
            assert(r[i] == tasks[i]@);
            assert(tasks[i].id <= max_id(tasks));
        }
    }
}

/// Removing the tasks with an id leaves no task with that id.
pub proof fn lemma_without_id(s: Seq<TaskView>, id: u64)
    ensures
        forall|i: int| 0 <= i < without_id(s, id).len() ==> #[trigger] without_id(s, id)[i].id != id,
        without_id(s, id).len() <= s.len(),
    decreases s.len(),
{
    if s.len() > 0 {
        lemma_without_id(s.drop_last(), id);
        let p = without_id(s.drop_last(), id);
        if s.last().id != id {
            assert forall|i: int| 0 <= i < p.push(s.last()).len() implies #[trigger] p.push(s.last())[i].id != id by {
                if i < p.len() {
                    assert(p.push(s.last())[i] == p[i]);
                }
            }
        }
    }
}

proof fn lemma_without_id_from(s: Seq<TaskView>, id: u64)
    ensures
        forall|k: int| 0 <= k < without_id(s, id).len() ==> exists|j: int| 0 <= j < s.len() && #[trigger] without_id(s, id)[k] == s[j],
    decreases s.len(),
{
    if s.len() > 0 {
        let init = s.drop_last();
        lemma_without_id_from(init, id);
        let p = without_id(init, id);
        assert forall|k: int| 0 <= k < without_id(s, id).len() implies exists|j: int| 0 <= j < s.len() && #[trigger] without_id(s, id)[k] == s[j] by {
            if k < p.len() {
                let j = choose|j: int| 0 <= j < init.len() && p[k] == init[j];
                assert(without_id(s, id)[k] == p[k]);
                assert(s[j] == init[j]);
            } else {
                assert(without_id(s, id)[k] == s[s.len() - 1]);
            }
        }
    }
}

/// Ids stay unique when a task is edited or completed in place (its id
/// kept) and when the tasks with an id are deleted.
pub proof fn lemma_edits_keep_ids_unique(s: Seq<TaskView>, i: int, t: TaskView, id: u64)
    requires
        unique_ids(s),
        0 <= i < s.len(),
        t.id == s[i].id,
    ensures
        unique_ids(s.update(i, t)),
        unique_ids(without_id(s, id)),
    decreases s.len(),
{
    let u = s.update(i, t);
    assert forall|a: int, b: int| 0 <= a < b < u.len() implies #[trigger] u[a].id != #[trigger] u[b].id by {
        assert(u[a].id == s[a].id && u[b].id == s[b].id);
    }
    lemma_without_id_unique(s, id);
}

proof fn lemma_without_id_unique(s: Seq<TaskView>, id: u64)
    requires
        unique_ids(s),
    ensures
        unique_ids(without_id(s, id)),
    decreases s.len(),
{
    if s.len() > 0 {
        let init = s.drop_last();
        assert(unique_ids(init)) by {
            assert forall|a: int, b: int| 0 <= a < b < init.len() implies #[trigger] init[a].id != #[trigger] init[b].id by {
                assert(init[a] == s[a] && init[b] == s[b]);
            }
        }
        lemma_without_id_unique(init, id);
        lemma_without_id_from(init, id);
        let p = without_id(init, id);
        if s.last().id != id {
            let w = p.push(s.last());
            assert forall|a: int, b: int| 0 <= a < b < w.len() implies #[trigger] w[a].id != #[trigger] w[b].id by {
                if b < p.len() {
                    assert(w[a] == p[a] && w[b] == p[b]);
                } else {
                    let j = choose|j: int| 0 <= j < init.len() && p[a] == init[j];
                    assert(w[a] == init[j]);
                    assert(init[j] == s[j]);
                    assert(w[b] == s[s.len() - 1]);
                }
            }
        }
    }
}

proof fn lemma_done_tasks_has(s: Seq<TaskView>, j: int, start: LocalDateTime, end: LocalDateTime)
    requires
        0 <= j < s.len(),
        done_within(s[j], start, end),
    ensures
        done_tasks(s, start, end).contains(s[j]),
    decreases s.len(),
{
    let init = s.drop_last();
    if j < s.len() - 1 {
        lemma_done_tasks_has(init, j, start, end);
        assert(init[j] == s[j]);
        let p = done_tasks(init, start, end);
        let k = choose|k: int| 0 <= k < p.len() && p[k] == s[j];
        if done_within(s.last(), start, end) {
            assert(done_tasks(s, start, end)[k] == s[j]);
        }
    } else {
        let p = done_tasks(init, start, end);
        assert(done_tasks(s, start, end)[p.len() as int] == s[j]);
    }
}

proof fn lemma_active_tasks_open(s: Seq<TaskView>)
    ensures
        forall|k: int| 0 <= k < active_tasks(s).len() ==> !(#[trigger] active_tasks(s)[k]).completed,
    decreases s.len(),
{
    if s.len() > 0 {
        lemma_active_tasks_open(s.drop_last());
        let p = active_tasks(s.drop_last());
        if !s.last().completed {
            assert forall|k: int| 0 <= k < p.push(s.last()).len() implies !(#[trigger] p.push(s.last())[k]).completed by {
                if k < p.len() {
                    assert(p.push(s.last())[k] == p[k]);
                }
            }
        }
    }
}

/// A task marked completed at a time within `start..=end` is listed among the
/// tasks completed in that range, and no longer among the open tasks.
pub proof fn lemma_completed_task_listed(s: Seq<TaskView>, i: int, now: LocalDateTime, start: LocalDateTime, end: LocalDateTime)
    requires
        0 <= i < s.len(),
        start.minute_number() <= now.minute_number() <= end.minute_number(),
    ensures
        ({
            let t = TaskView { completed: true, completed_at: Some(now), ..s[i] };
            &&& sort_by_key(done_tasks(s.update(i, t), start, end), order_key(TaskOrder::DoneLatestFirst)).contains(t)
            &&& !sort_by_key(active_tasks(s.update(i, t)), order_key(TaskOrder::Due)).contains(t)
        }),
{
    let t = TaskView { completed: true, completed_at: Some(now), ..s[i] };
    let u = s.update(i, t);
    lemma_done_tasks_has(u, i, start, end);
    let d = done_tasks(u, start, end);
    lemma_sort_by_key(d, order_key(TaskOrder::DoneLatestFirst));
    let sd = sort_by_key(d, order_key(TaskOrder::DoneLatestFirst));
    assert(d.to_multiset().count(t) > 0) by {
        broadcast use vstd::seq_lib::group_to_multiset_ensures;
    }
    assert(sd.contains(t)) by {
        broadcast use vstd::seq_lib::group_to_multiset_ensures;
    }
    let a = active_tasks(u);
    lemma_active_tasks_open(u);
    lemma_sort_by_key(a, order_key(TaskOrder::Due));
    let sa = sort_by_key(a, order_key(TaskOrder::Due));
    assert(!sa.contains(t)) by {
        broadcast use vstd::seq_lib::group_to_multiset_ensures;
        if sa.contains(t) {
            assert(sa.to_multiset().count(t) > 0);
            assert(a.to_multiset().count(t) > 0);
            assert(a.contains(t));
            let k = choose|k: int| 0 <= k < a.len() && a[k] == t;
            assert(!a[k].completed);
        }
    }
}

/// Deleting an id keeps exactly the other tasks, in their order: the tasks
/// left are the old ones filtered by `id != deleted id`, so every task with
/// another id is still there.
pub proof fn lemma_delete_keeps_others(s: Seq<TaskView>, id: u64)
    ensures
        without_id(s, id) == s.filter(|t: TaskView| t.id != id),
        forall|k: int| 0 <= k < s.len() && s[k].id != id ==> without_id(s, id).contains(#[trigger] s[k]),
        forall|t: TaskView| #[trigger] without_id(s, id).contains(t) ==> s.contains(t) && t.id != id,
    decreases s.len(),
{
    let f = |t: TaskView| t.id != id;
    reveal(Seq::filter);
    if s.len() > 0 {
        let init = s.drop_last();
        lemma_delete_keeps_others(init, id);
        assert(s.filter(f) == if f(s.last()) { init.filter(f).push(s.last()) } else { init.filter(f) });
        let w = without_id(s, id);
        let p = without_id(init, id);
        assert forall|k: int| 0 <= k < s.len() && s[k].id != id implies w.contains(#[trigger] s[k]) by {
            if k < s.len() - 1 {
                assert(init[k] == s[k]);
                assert(p.contains(init[k]));
                let j = choose|j: int| 0 <= j < p.len() && p[j] == init[k];
                if s.last().id != id {
                    assert(w[j] == p[j]);
                }
            } else {
                assert(w[w.len() - 1] == s[k]);
            }
        }
        assert forall|t: TaskView| #[trigger] w.contains(t) implies s.contains(t) && t.id != id by {
            let j = choose|j: int| 0 <= j < w.len() && w[j] == t;
            if j < p.len() {
                assert(w[j] == p[j]);
                assert(p.contains(t));
                let k = choose|k: int| 0 <= k < init.len() && init[k] == t;
                assert(s[k] == t);
            } else {
                assert(t == s.last());
                assert(s[s.len() - 1] == t);
            }
        }
    } else {
        assert(s.filter(f) =~= s);
    }
}

} // verus!
