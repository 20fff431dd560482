//! Local date-times with minute precision: parsing, validation, day
//! arithmetic, weekdays and the textual forms used on screen and on disk.
use vstd::prelude::*;
use crate::calendar::{
    date_before, lemma_civil_round_trip, lemma_civil_to_days_ordered,
    lemma_days_round_trip, civil_from_days, civil_to_days, days_from_civil, days_in_month, days_to_civil, is_valid_date,
    month_days,
};
use crate::text::{
    all_digits, is_digit, is_ws, join_with, lemma_fmt_unsigned, lemma_parse_fmt_signed, lemma_parse_fmt_unsigned,
    lemma_split_on_join, lemma_trim_unchanged, lemma_words_scan_extend, lemma_words_two, words_scan,
    push_signed_padded, push_unsigned_padded, push_char,
    chars_of, fmt_signed, fmt_unsigned, nat_digits, parse_signed, parse_signed_chars, parse_unsigned,
    parse_unsigned_chars, push_digits, split_chars, split_on, split_words, trim, trim_chars, views, words,
};

verus! {

/// A local calendar date and time of day, to the minute.
#[derive(Clone, Copy, Debug, PartialEq, Eq, Structural)]
pub struct LocalDateTime {
    pub year: i32,
    pub month: u32,
    pub day: u32,
    pub hour: u32,
    pub minute: u32,
}

/// `"月份必须在 1 到 12 之间"`
pub open spec fn msg_month_range() -> Seq<char> {
    "月份必须在 1 到 12 之间"@
}

/// `"小时必须在 0 到 23 之间"`
pub open spec fn msg_hour_range() -> Seq<char> {
    "小时必须在 0 到 23 之间"@
}

/// `"分钟必须在 0 到 59 之间"`
pub open spec fn msg_minute_range() -> Seq<char> {
    "分钟必须在 0 到 59 之间"@
}

/// `"{month} 月最多只有 {max_day} 天"`
pub open spec fn msg_day_range(month: nat, max_day: nat) -> Seq<char> {
    nat_digits(month) + " 月最多只有 "@ + nat_digits(max_day) + " 天"@
}

/// `"请输入日期，例如 2026-07-07 18:30"`
pub open spec fn msg_no_date() -> Seq<char> {
    "请输入日期，例如 2026-07-07 18:30"@
}

/// `"时间格式过长，请使用 2026-07-07 18:30"`
pub open spec fn msg_too_long() -> Seq<char> {
    "时间格式过长，请使用 2026-07-07 18:30"@
}

/// `"日期格式应为 YYYY-MM-DD"`
pub open spec fn msg_date_format() -> Seq<char> {
    "日期格式应为 YYYY-MM-DD"@
}

/// `"时间格式应为 HH:MM"`
pub open spec fn msg_time_format() -> Seq<char> {
    "时间格式应为 HH:MM"@
}

/// `"年份不是有效数字"`
pub open spec fn msg_bad_year() -> Seq<char> {
    "年份不是有效数字"@
}

/// `"月份不是有效数字"`
pub open spec fn msg_bad_month() -> Seq<char> {
    "月份不是有效数字"@
}

/// `"日期不是有效数字"`
pub open spec fn msg_bad_day() -> Seq<char> {
    "日期不是有效数字"@
}

/// `"小时不是有效数字"`
pub open spec fn msg_bad_hour() -> Seq<char> {
    "小时不是有效数字"@
}

/// `"分钟不是有效数字"`
pub open spec fn msg_bad_minute() -> Seq<char> {
    "分钟不是有效数字"@
}

/// `s` with every `from` replaced by `to`.
pub open spec fn replace_char(s: Seq<char>, from: char, to: char) -> Seq<char> {
    s.map_values(|c: char| if c == from { to } else { c })
}

/// Hour and minute of an `HH:MM` time, or the message for the first part that is wrong.
pub open spec fn parse_time_text(t: Seq<char>) -> Result<(int, int), Seq<char>> {
    let tb = split_on(t, ':');
    if tb.len() != 2 {
        Err(msg_time_format())
    } else {
        match parse_unsigned(tb[0], u32::MAX as int) {
            None => Err(msg_bad_hour()),
            Some(h) => match parse_unsigned(tb[1], u32::MAX as int) {
                None => Err(msg_bad_minute()),
                Some(mi) => Ok((h, mi)),
            },
        }
    }
}

/// What `parse_with_default` gives for text `s`: the date is the first word
/// (with `/` read as `-`), an optional second word is `HH:MM`, and the default
/// time of day is used when it is absent; the result must pass `validate`.
pub open spec fn parse_text(s: Seq<char>, default_hour: u32, default_minute: u32) -> Result<
    LocalDateTime,
    Seq<char>,
> {
    let ws = words(replace_char(trim(s), '/', '-'));
    if ws.len() == 0 {
        Err(msg_no_date())
    } else if ws.len() > 2 {
        Err(msg_too_long())
    } else {
        let db = split_on(ws[0], '-');
        if db.len() != 3 {
            Err(msg_date_format())
        } else {
            match parse_signed(db[0], i32::MIN as int, i32::MAX as int) {
                None => Err(msg_bad_year()),
                Some(y) => match parse_unsigned(db[1], u32::MAX as int) {
                    None => Err(msg_bad_month()),
                    Some(mo) => match parse_unsigned(db[2], u32::MAX as int) {
                        None => Err(msg_bad_day()),
                        Some(d) => {
                            let hm = if ws.len() == 2 {
                                parse_time_text(ws[1])
                            } else {
                                Ok((default_hour as int, default_minute as int))
                            };
                            match hm {
                                Err(e) => Err(e),
                                Ok((h, mi)) => {
                                    let c = LocalDateTime {
                                        year: y as i32,
                                        month: mo as u32,
                                        day: d as u32,
                                        hour: h as u32,
                                        minute: mi as u32,
                                    };
                                    match c.validation_error() {
                                        Some(e) => Err(e),
                                        None => Ok(c),
                                    }
                                },
                            }
                        },
                    },
                },
            }
        }
    }
}

/// Replaces every `/` by `-`.
fn slashes_to_dashes(s: &Vec<char>) -> (r: Vec<char>)
    ensures
        r@ == replace_char(s@, '/', '-'),
{
    let mut r: Vec<char> = Vec::new();
    let mut i: usize = 0;
    while i < s.len()
        invariant
            i <= s.len(),
            r@ =~= replace_char(s@.take(i as int), '/', '-'),
        decreases s.len() - i,
    {
        let c = s[i];
        r.push(if c == '/' { '-' } else { c });
        i += 1;
    }
    assert(s@.take(s.len() as int) =~= s@);
    r
}

fn parse_hour_minute(t: &Vec<char>) -> (r: Result<(u32, u32), String>)
    ensures
        match r {
            Ok((h, mi)) => parse_time_text(t@) == Ok::<(int, int), Seq<char>>((h as int, mi as int)),
            Err(e) => parse_time_text(t@) == Err::<(int, int), Seq<char>>(e@),
        },
{
    let tb = split_chars(t, ':');
    if tb.len() != 2 {
        return Err(String::from_str("时间格式应为 HH:MM"));
    }
    assert(views(tb@)[1] == tb@[1]@);
    let h = match parse_unsigned_chars(&tb[0], 0xffff_ffff) {
        Some(v) => v as u32,
        None => return Err(String::from_str("小时不是有效数字")),
    };
    let mi = match parse_unsigned_chars(&tb[1], 0xffff_ffff) {
        Some(v) => v as u32,
        None => return Err(String::from_str("分钟不是有效数字")),
    };
    Ok((h, mi))
}

/// Name of weekday `w` (1 = Monday, ..., 7 = Sunday), `未知` otherwise.
pub open spec fn weekday_label(w: u32) -> Seq<char> {
    if w == 1 {
        "星期一"@
    } else if w == 2 {
        "星期二"@
    } else if w == 3 {
        "星期三"@
    } else if w == 4 {
        "星期四"@
    } else if w == 5 {
        "星期五"@
    } else if w == 6 {
        "星期六"@
    } else if w == 7 {
        "星期日"@
    } else {
        "未知"@
    }
}

/// The Chinese numerals one to six.
pub open spec fn cn_numeral(n: int) -> char {
    if n == 1 {
        '一'
    } else if n == 2 {
        '二'
    } else if n == 3 {
        '三'
    } else if n == 4 {
        '四'
    } else if n == 5 {
        '五'
    } else {
        '六'
    }
}

/// Weekday names: Monday to Saturday (1..=6) are `星期` followed by the
/// Chinese numeral of the day's number, Sunday (7) is `星期日`, any other
/// number is `未知`; and 1970-01-01, a Thursday, is named `星期四`.
pub proof fn lemma_weekday_names(w: u32)
    ensures
        1 <= w <= 6 ==> weekday_label(w) == "星期"@.push(cn_numeral(w as int)),
        w == 7 ==> weekday_label(w) == "星期"@.push('日'),
        !(1 <= w <= 7) ==> weekday_label(w) == "未知"@,
        weekday_label(((LocalDateTime { year: 1970, month: 1, day: 1, hour: 0, minute: 0 }.day_number() + 3) % 7 + 1) as u32)
            == "星期"@.push('四'),
{
    reveal_strlit("星期");
    reveal_strlit("星期一");
    reveal_strlit("星期二");
    reveal_strlit("星期三");
    reveal_strlit("星期四");
    reveal_strlit("星期五");
    reveal_strlit("星期六");
    reveal_strlit("星期日");
    crate::calendar::lemma_epoch_day();
    assert("星期"@.push('一') =~= "星期一"@);
    assert("星期"@.push('二') =~= "星期二"@);
    assert("星期"@.push('三') =~= "星期三"@);
    assert("星期"@.push('四') =~= "星期四"@);
    assert("星期"@.push('五') =~= "星期五"@);
    assert("星期"@.push('六') =~= "星期六"@);
    assert("星期"@.push('日') =~= "星期日"@);
}

/// Chinese name of an ISO weekday number (1 = Monday).
pub fn weekday_name(weekday: u32) -> (r: &'static str)
    ensures
        r@ == weekday_label(weekday),
        1 <= weekday <= 6 ==> r@ == "星期"@.push(cn_numeral(weekday as int)),
        weekday == 7 ==> r@ == "星期"@.push('日'),
{
    proof {
        lemma_weekday_names(weekday);
    }
    match weekday {
        1 => "星期一",
        2 => "星期二",
        3 => "星期三",
        4 => "星期四",
        5 => "星期五",
        6 => "星期六",
        7 => "星期日",
        _ => "未知",
    }
}

impl LocalDateTime {
    /// The date is a real calendar date and the time of day is in range.
    pub open spec fn is_valid(self) -> bool {
        &&& is_valid_date(self.year as int, self.month as int, self.day as int)
        &&& self.hour <= 23
        &&& self.minute <= 59
    }

    /// The first rule that the value breaks, as the message `validate` gives.
    pub open spec fn validation_error(self) -> Option<Seq<char>> {
        if !(1 <= self.month <= 12) {
            Some(msg_month_range())
        } else if self.day == 0 || self.day > month_days(self.year as int, self.month as int) {
            Some(
                msg_day_range(
                    self.month as nat,
                    month_days(self.year as int, self.month as int) as nat,
                ),
            )
        } else if self.hour > 23 {
            Some(msg_hour_range())
        } else if self.minute > 59 {
            Some(msg_minute_range())
        } else {
            None
        }
    }

    /// Day count of the date relative to 1970-01-01.
    pub open spec fn day_number(self) -> int {
        civil_to_days(self.year as int, self.month as int, self.day as int)
    }

    /// Minutes since 1970-01-01 00:00.
    pub open spec fn minute_number(self) -> int {
        self.day_number() * 1440 + self.hour * 60 + self.minute
    }

    /// The same time of day `n` days later, its year truncated to `i32` as by `as`.
    pub open spec fn plus_days(self, n: int) -> LocalDateTime {
        let (y, m, d) = days_to_civil(self.day_number() + n);
        LocalDateTime {
            year: y as i32,
            month: m as u32,
            day: d as u32,
            hour: self.hour,
            minute: self.minute,
        }
    }

    /// Lexicographic order of (year, month, day, hour, minute).
    pub open spec fn before(self, other: LocalDateTime) -> bool {
        ||| date_before(
            self.year as int,
            self.month as int,
            self.day as int,
            other.year as int,
            other.month as int,
            other.day as int,
        )
        ||| (self.year == other.year && self.month == other.month && self.day == other.day && (
        self.hour < other.hour || (self.hour == other.hour && self.minute < other.minute)))
    }

    /// `YYYY-MM-DD`
    pub open spec fn date_text(self) -> Seq<char> {
        fmt_signed(self.year as int, 4) + seq!['-'] + fmt_unsigned(self.month as nat, 2) + seq![
            '-',
        ] + fmt_unsigned(self.day as nat, 2)
    }

    /// `YYYY-MM-DD HH:MM`
    pub open spec fn storage_text(self) -> Seq<char> {
        self.date_text() + seq![' '] + fmt_unsigned(self.hour as nat, 2) + seq![':']
            + fmt_unsigned(self.minute as nat, 2)
    }

    /// `MM-DD HH:MM`
    pub open spec fn short_text(self) -> Seq<char> {
        fmt_unsigned(self.month as nat, 2) + seq!['-'] + fmt_unsigned(self.day as nat, 2) + seq![
            ' ',
        ] + fmt_unsigned(self.hour as nat, 2) + seq![':'] + fmt_unsigned(self.minute as nat, 2)
    }

    /// Parses a date and optional time given as characters (see `parse_text`).
    pub fn parse_chars(v: &Vec<char>, default_hour: u32, default_minute: u32) -> (r: Result<Self, String>)
        ensures
            match r {
                Ok(dt) => parse_text(v@, default_hour, default_minute) == Ok::<LocalDateTime, Seq<char>>(dt),
                Err(e) => parse_text(v@, default_hour, default_minute) == Err::<LocalDateTime, Seq<char>>(e@),
            },
    {
        let trimmed = trim_chars(v);
        let normalized = slashes_to_dashes(&trimmed);
        let ws = split_words(&normalized);
        if ws.len() == 0 {
            return Err(String::from_str("请输入日期，例如 2026-07-07 18:30"));
        }
        if ws.len() > 2 {
            return Err(String::from_str("时间格式过长，请使用 2026-07-07 18:30"));
        }
        assert(views(ws@)[0] == ws@[0]@);
        let db = split_chars(&ws[0], '-');
        if db.len() != 3 {
            return Err(String::from_str("日期格式应为 YYYY-MM-DD"));
        }
        assert(views(db@)[0] == db@[0]@);
        assert(views(db@)[1] == db@[1]@);
        assert(views(db@)[2] == db@[2]@);
        let year = match parse_signed_chars(&db[0], -2147483648, 2147483647) {
            Some(v) => v as i32,
            None => return Err(String::from_str("年份不是有效数字")),
        };
        let month = match parse_unsigned_chars(&db[1], 0xffff_ffff) {
            Some(v) => v as u32,
            None => return Err(String::from_str("月份不是有效数字")),
        };
        let day = match parse_unsigned_chars(&db[2], 0xffff_ffff) {
            Some(v) => v as u32,
            None => return Err(String::from_str("日期不是有效数字")),
        };
        let (hour, minute) = if ws.len() == 2 {
            assert(views(ws@)[1] == ws@[1]@);
            parse_hour_minute(&ws[1])?
        } else {
            (default_hour, default_minute)
        };
        let candidate = LocalDateTime { year, month, day, hour, minute };
        candidate.validate()?;
        Ok(candidate)
    }

    /// Parses `YYYY-MM-DD` or `YYYY-MM-DD HH:MM` (`/` may stand for `-`);
    /// `default_hour:default_minute` is the time when none is given.
    pub fn parse_with_default(value: &str, default_hour: u32, default_minute: u32) -> (r: Result<
        Self,
        String,
    >)
        ensures
            match r {
                Ok(dt) => parse_text(value@, default_hour, default_minute) == Ok::<LocalDateTime, Seq<char>>(dt) && dt.is_valid(),
                Err(e) => parse_text(value@, default_hour, default_minute) == Err::<LocalDateTime, Seq<char>>(e@),
            },
    {
        let v = chars_of(value);
        Self::parse_chars(&v, default_hour, default_minute)
    }

    /// Parses a date and optional time; a date alone means 18:00.
    pub fn parse(value: &str) -> (r: Result<Self, String>)
        ensures
            match r {
                Ok(dt) => parse_text(value@, 18, 0) == Ok::<LocalDateTime, Seq<char>>(dt) && dt.is_valid(),
                Err(e) => parse_text(value@, 18, 0) == Err::<LocalDateTime, Seq<char>>(e@),
            },
    {
        Self::parse_with_default(value, 18, 0)
    }

    /// Parses the start of a range: blank text means no bound, a date alone means 00:00.
    pub fn parse_start_bound(value: &str) -> (r: Result<Option<Self>, String>)
        ensures
            trim(value@).len() == 0 ==> r == Ok::<Option<LocalDateTime>, String>(None),
            trim(value@).len() != 0 ==> match r {
                Ok(Some(dt)) => parse_text(trim(value@), 0, 0) == Ok::<LocalDateTime, Seq<char>>(dt)
                    && dt.is_valid(),
                Ok(None) => false,
                Err(e) => parse_text(trim(value@), 0, 0) == Err::<LocalDateTime, Seq<char>>(e@),
            },
    {
        let v = chars_of(value);
        let trimmed = trim_chars(&v);
        if trimmed.len() == 0 {
            return Ok(None);
        }
        match Self::parse_chars(&trimmed, 0, 0) {
            Ok(dt) => Ok(Some(dt)),
            Err(e) => Err(e),
        }
    }

    /// The date and time of day (to the minute) of a system time.
    pub fn from_system_time(st: crate::win32::SYSTEMTIME) -> (r: Self)
        ensures
            r == (LocalDateTime {
                year: st.wYear as i32,
                month: st.wMonth as u32,
                day: st.wDay as u32,
                hour: st.wHour as u32,
                minute: st.wMinute as u32,
            }),
    {
        LocalDateTime {
            year: st.wYear as i32,
            month: st.wMonth as u32,
            day: st.wDay as u32,
            hour: st.wHour as u32,
            minute: st.wMinute as u32,
        }
    }

    /// Minutes since 1970-01-01 00:00 (the day count of the date, the hour and the minute).
    pub fn minutes_key(&self) -> (r: i64)
        ensures
            r == self.minute_number(),
            -0x8_0000_0000_0000 < r < 0x8_0000_0000_0000,
    {
        days_from_civil(self.year, self.month, self.day) * 1440 + self.hour as i64 * 60
            + self.minute as i64
    }

    /// Minutes from `other` to `self` (negative when `self` is earlier).
    pub fn diff_minutes_from(&self, other: Self) -> (r: i64)
        ensures
            r == self.minute_number() - other.minute_number(),
    {
        self.minutes_key() - other.minutes_key()
    }

    /// The same time of day `days` days later (earlier when negative).
    pub fn add_days(&self, days: i64) -> (r: Self)
        requires
            i64::MIN <= self.day_number() + days,
            self.day_number() + days + 719468 <= i64::MAX,
        ensures
            r == self.plus_days(days as int),
    {
        let target_days = days_from_civil(self.year, self.month, self.day) + days;
        let (year, month, day) = civil_from_days(target_days);
        LocalDateTime { year, month, day, hour: self.hour, minute: self.minute }
    }

    /// ISO weekday of the date: 1 = Monday, ..., 7 = Sunday (1970-01-01 was a Thursday).
    pub fn weekday_mon1(&self) -> (r: u32)
        ensures
            r == (self.day_number() + 3) % 7 + 1,
            1 <= r <= 7,
    {
        let days = days_from_civil(self.year, self.month, self.day);
        let rem = (days + 3) % 7;
        let rem = if rem < 0 { rem + 7 } else { rem };
        proof {
            vstd::arithmetic::div_mod::lemma_fundamental_div_mod(days + 3, 7);
            vstd::arithmetic::div_mod::lemma_mod_bound(days + 3, 7);
        }
        rem as u32 + 1
    }

    /// `YYYY-MM-DD`
    pub fn date_string(&self) -> (r: String)
        ensures
            r@ == self.date_text(),
    {
        let mut out = String::new();
        push_signed_padded(&mut out, self.year as i64, 4);
        push_char(&mut out, '-');
        push_unsigned_padded(&mut out, self.month as u64, 2);
        push_char(&mut out, '-');
        push_unsigned_padded(&mut out, self.day as u64, 2);
        assert(out@ =~= self.date_text());
        out
    }

    /// `YYYY-MM-DD HH:MM`, the form stored on disk.
    pub fn storage_string(&self) -> (r: String)
        ensures
            r@ == self.storage_text(),
    {
        let mut out = self.date_string();
        push_char(&mut out, ' ');
        push_unsigned_padded(&mut out, self.hour as u64, 2);
        push_char(&mut out, ':');
        push_unsigned_padded(&mut out, self.minute as u64, 2);
        assert(out@ =~= self.storage_text());
        out
    }

    /// `MM-DD HH:MM`
    pub fn short_string(&self) -> (r: String)
        ensures
            r@ == self.short_text(),
    {
        let mut out = String::new();
        push_unsigned_padded(&mut out, self.month as u64, 2);
        push_char(&mut out, '-');
        push_unsigned_padded(&mut out, self.day as u64, 2);
        push_char(&mut out, ' ');
        push_unsigned_padded(&mut out, self.hour as u64, 2);
        push_char(&mut out, ':');
        push_unsigned_padded(&mut out, self.minute as u64, 2);
        assert(out@ =~= self.short_text());
        out
    }

    /// Chinese name of the weekday of the date.
    pub fn cn_weekday(&self) -> (r: &'static str)
        ensures
            r@ == weekday_label(((self.day_number() + 3) % 7 + 1) as u32),
    {
        weekday_name(self.weekday_mon1())
    }

    /// Checks the month, then the day against the month's length, then the
    /// hour and the minute; the error names the first rule broken.
    pub fn validate(&self) -> (r: Result<(), String>)
        ensures
            match r {
                Ok(()) => self.validation_error() is None,
                Err(e) => self.validation_error() == Some(e@),
            },
            r is Ok <==> self.is_valid(),
    {
        if !(1 <= self.month && self.month <= 12) {
            return Err(String::from_str("月份必须在 1 到 12 之间"));
        }
        let max_day = days_in_month(self.year, self.month);
        if self.day == 0 || self.day > max_day {
            let mut msg = String::new();
            push_digits(&mut msg, self.month as u64);
            msg.append(" 月最多只有 ");
            push_digits(&mut msg, max_day as u64);
            msg.append(" 天");
            return Err(msg);
        }
        if self.hour > 23 {
            return Err(String::from_str("小时必须在 0 到 23 之间"));
        }
        if self.minute > 59 {
            return Err(String::from_str("分钟必须在 0 到 59 之间"));
        }
        Ok(())
    }
}

/// Characters of `s` are digits or `extra`.
spec fn digits_or(s: Seq<char>, extra: char) -> bool {
    forall|i: int| 0 <= i < s.len() ==> is_digit(#[trigger] s[i]) || s[i] == extra
}

proof fn lemma_digits_or_join3(a: Seq<char>, b: Seq<char>, c: Seq<char>, sep: char)
    requires
        all_digits(a),
        all_digits(b),
        all_digits(c),
    ensures
        digits_or(join_with(seq![a, b, c], sep), sep),
        join_with(seq![a, b, c], sep) == a + seq![sep] + b + seq![sep] + c,
{
    let abc = seq![a, b, c];
    assert(abc.drop_last() =~= seq![a, b]);
    assert(seq![a, b].drop_last() =~= seq![a]);
    let j = a + seq![sep] + b + seq![sep] + c;
    assert(join_with(seq![a], sep) == a);
    assert(join_with(seq![a, b], sep) == a.push(sep) + b);
    assert(join_with(abc, sep) == (a.push(sep) + b).push(sep) + c);
    assert(join_with(abc, sep) =~= j);
    assert forall|i: int| 0 <= i < j.len() implies is_digit(#[trigger] j[i]) || j[i] == sep by {
        if i < a.len() {
            assert(j[i] == a[i]);
        } else if i == a.len() {
        } else if i < a.len() + 1 + b.len() {
            assert(j[i] == b[i - a.len() - 1]);
        } else if i == a.len() + 1 + b.len() {
        } else {
            assert(j[i] == c[i - a.len() - 2 - b.len()]);
        }
    }
}

proof fn lemma_digits_or_join2(a: Seq<char>, b: Seq<char>, sep: char)
    requires
        all_digits(a),
        all_digits(b),
    ensures
        digits_or(join_with(seq![a, b], sep), sep),
        join_with(seq![a, b], sep) == a + seq![sep] + b,
{
    let ab = seq![a, b];
    assert(ab.drop_last() =~= seq![a]);
    let j = a + seq![sep] + b;
    assert(join_with(seq![a], sep) == a);
    assert(join_with(ab, sep) == a.push(sep) + b);
    assert(join_with(ab, sep) =~= j);
    assert forall|i: int| 0 <= i < j.len() implies is_digit(#[trigger] j[i]) || j[i] == sep by {
        if i < a.len() {
            assert(j[i] == a[i]);
        } else if i == a.len() {
        } else {
            assert(j[i] == b[i - a.len() - 1]);
        }
    }
}

/// The stored text `YYYY-MM-DD HH:MM` of a valid date-time whose year is
/// not negative parses back to the same date-time, whatever the default time.
pub proof fn lemma_storage_text_round_trip(dt: LocalDateTime, default_hour: u32, default_minute: u32)
    requires
        dt.is_valid(),
        dt.year >= 0,
    ensures
        parse_text(dt.storage_text(), default_hour, default_minute) == Ok::<LocalDateTime, Seq<char>>(dt),
{
    let y = fmt_signed(dt.year as int, 4);
    let mo = fmt_unsigned(dt.month as nat, 2);
    let d = fmt_unsigned(dt.day as nat, 2);
    let h = fmt_unsigned(dt.hour as nat, 2);
    let mi = fmt_unsigned(dt.minute as nat, 2);
    lemma_fmt_unsigned(dt.year as nat, 4);
    lemma_fmt_unsigned(dt.month as nat, 2);
    lemma_fmt_unsigned(dt.day as nat, 2);
    lemma_fmt_unsigned(dt.hour as nat, 2);
    lemma_fmt_unsigned(dt.minute as nat, 2);
    lemma_digits_or_join3(y, mo, d, '-');
    lemma_digits_or_join2(h, mi, ':');
    let a = join_with(seq![y, mo, d], '-');
    let b = join_with(seq![h, mi], ':');
    assert(dt.date_text() =~= a);
    let s = dt.storage_text();
    assert(s =~= a + seq![' '] + b);
    assert forall|i: int| 0 <= i < a.len() implies !is_ws(#[trigger] a[i]) && a[i] != '/' by {
        assert(is_digit(a[i]) || a[i] == '-');
    }
    assert forall|i: int| 0 <= i < b.len() implies !is_ws(#[trigger] b[i]) && b[i] != '/' by {
        assert(is_digit(b[i]) || b[i] == ':');
    }
    assert(!is_ws(s[0])) by {
        assert(s[0] == a[0]);
    }
    assert(!is_ws(s.last())) by {
        assert(s.last() == b[b.len() - 1]);
    }
    lemma_trim_unchanged(s);
    assert forall|i: int| 0 <= i < s.len() implies #[trigger] s[i] != '/' by {
        if i < a.len() {
            assert(s[i] == a[i]);
        } else if i == a.len() {
        } else {
            assert(s[i] == b[i - a.len() - 1]);
        }
    }
    assert(replace_char(trim(s), '/', '-') =~= s);
    lemma_words_two(a, ' ', b);
    let ymd = seq![y, mo, d];
    assert forall|k: int, i: int|
        0 <= k < ymd.len() && 0 <= i < ymd[k].len() implies #[trigger] ymd[k][i] != '-' by {
        let p = ymd[k];
        assert(is_digit(p[i]));
    }
    lemma_split_on_join(ymd, '-');
    let hm = seq![h, mi];
    assert forall|k: int, i: int|
        0 <= k < hm.len() && 0 <= i < hm[k].len() implies #[trigger] hm[k][i] != ':' by {
        let p = hm[k];
        assert(is_digit(p[i]));
    }
    lemma_split_on_join(hm, ':');
    lemma_parse_fmt_signed(dt.year as int, 4, i32::MIN as int, i32::MAX as int);
    lemma_parse_fmt_unsigned(dt.month as nat, 2, u32::MAX as int);
    lemma_parse_fmt_unsigned(dt.day as nat, 2, u32::MAX as int);
    lemma_parse_fmt_unsigned(dt.hour as nat, 2, u32::MAX as int);
    lemma_parse_fmt_unsigned(dt.minute as nat, 2, u32::MAX as int);
    assert(words(replace_char(trim(s), '/', '-')) == seq![a, b]);
    assert(parse_time_text(b) == Ok::<(int, int), Seq<char>>((dt.hour as int, dt.minute as int)));
}

/// Moving a valid date-time by zero days leaves it unchanged.
pub proof fn lemma_plus_zero_days(dt: LocalDateTime)
    requires
        dt.is_valid(),
    ensures
        dt.plus_days(0) == dt,
{
    lemma_civil_round_trip(dt.year as int, dt.month as int, dt.day as int);
}

/// Moving a valid date-time by `a` days gives a valid date-time `a` days
/// (`1440 * a` minutes) later, and moving that by `b` days is moving by
/// `a + b` days, as long as the intermediate year fits in `i32`.
pub proof fn lemma_plus_days_compose(dt: LocalDateTime, a: int, b: int)
    requires
        dt.is_valid(),
        i32::MIN <= days_to_civil(dt.day_number() + a).0 <= i32::MAX,
    ensures
        dt.plus_days(a).is_valid(),
        dt.plus_days(a).day_number() == dt.day_number() + a,
        dt.plus_days(a).minute_number() == dt.minute_number() + 1440 * a,
        dt.plus_days(a).plus_days(b) == dt.plus_days(a + b),
{
    lemma_days_round_trip(dt.day_number() + a);
    let t = dt.day_number() + a;
    assert(dt.day_number() + (a + b) == t + b);
}

/// Moving by `n` days moves the weekday by `n`; seven days keep it.
pub proof fn lemma_weekday_cycle(dt: LocalDateTime, n: int)
    requires
        dt.is_valid(),
        i32::MIN <= days_to_civil(dt.day_number() + n).0 <= i32::MAX,
    ensures
        (dt.plus_days(n).day_number() + 3) % 7 == (dt.day_number() + 3 + n) % 7,
        n % 7 == 0 ==> (dt.plus_days(n).day_number() + 3) % 7 == (dt.day_number() + 3) % 7,
{
    lemma_days_round_trip(dt.day_number() + n);
    if n % 7 == 0 {
        vstd::arithmetic::div_mod::lemma_fundamental_div_mod(n, 7);
        vstd::arithmetic::div_mod::lemma_mod_multiples_vanish(n / 7, dt.day_number() + 3, 7);
        assert(dt.day_number() + 3 + n == 7 * (n / 7) + (dt.day_number() + 3));
    }
}

/// For valid date-times, the minute count orders them as the calendar
/// and the clock do, and equal minute counts mean equal date-times.
pub proof fn lemma_minute_number_ordered(a: LocalDateTime, b: LocalDateTime)
    requires
        a.is_valid(),
        b.is_valid(),
    ensures
        a.before(b) <==> a.minute_number() < b.minute_number(),
        a == b <==> a.minute_number() == b.minute_number(),
{
    lemma_civil_to_days_ordered(
        a.year as int,
        a.month as int,
        a.day as int,
        b.year as int,
        b.month as int,
        b.day as int,
    );
    let da = a.day_number();
    let db = b.day_number();
    assert(a.minute_number() == da * 1440 + a.hour * 60 + a.minute);
    assert(b.minute_number() == db * 1440 + b.hour * 60 + b.minute);
    assert(0 <= a.hour * 60 + a.minute < 1440);
    assert(0 <= b.hour * 60 + b.minute < 1440);
    if da < db {
        assert(a.minute_number() < b.minute_number()) by (nonlinear_arith)
            requires
                da < db,
                a.minute_number() == da * 1440 + a.hour * 60 + a.minute,
                b.minute_number() == db * 1440 + b.hour * 60 + b.minute,
                0 <= a.hour * 60 + a.minute < 1440,
                0 <= b.hour * 60 + b.minute < 1440,
        ;
    } else if db < da {
        assert(b.minute_number() < a.minute_number()) by (nonlinear_arith)
            requires
                db < da,
                a.minute_number() == da * 1440 + a.hour * 60 + a.minute,
                b.minute_number() == db * 1440 + b.hour * 60 + b.minute,
                0 <= a.hour * 60 + a.minute < 1440,
                0 <= b.hour * 60 + b.minute < 1440,
        ;
    }
}

/// The minute difference is antisymmetric and zero from a value to itself.
pub proof fn lemma_diff_antisymmetric(a: LocalDateTime, b: LocalDateTime)
    ensures
        a.minute_number() - b.minute_number() == -(b.minute_number() - a.minute_number()),
        a.minute_number() - a.minute_number() == 0,
{
}

/// The date text `YYYY-MM-DD` of a valid date-time whose year is not
/// negative parses back to that date at the default time of day, when that
/// time is itself valid (so `parse` gives the date at 18:00).
pub proof fn lemma_date_text_round_trip(dt: LocalDateTime, default_hour: u32, default_minute: u32)
    requires
        dt.is_valid(),
        dt.year >= 0,
        default_hour <= 23,
        default_minute <= 59,
    ensures
        parse_text(dt.date_text(), default_hour, default_minute) == Ok::<LocalDateTime, Seq<char>>(
            LocalDateTime { hour: default_hour, minute: default_minute, ..dt },
        ),
{
    let y = fmt_signed(dt.year as int, 4);
    let mo = fmt_unsigned(dt.month as nat, 2);
    let d = fmt_unsigned(dt.day as nat, 2);
    lemma_fmt_unsigned(dt.year as nat, 4);
    lemma_fmt_unsigned(dt.month as nat, 2);
    lemma_fmt_unsigned(dt.day as nat, 2);
    lemma_digits_or_join3(y, mo, d, '-');
    let a = join_with(seq![y, mo, d], '-');
    let s = dt.date_text();
    assert(s =~= a);
    assert forall|i: int| 0 <= i < a.len() implies !is_ws(#[trigger] a[i]) && a[i] != '/' by {
        assert(is_digit(a[i]) || a[i] == '-');
    }
    assert(is_digit(a[0]));
    assert(is_digit(a.last())) by {
        assert(a.last() == d.last());
    }
    lemma_trim_unchanged(a);
    assert(replace_char(trim(a), '/', '-') =~= a);
    let e = Seq::<char>::empty();
    lemma_words_scan_extend(e, a);
    assert(e + a =~= a);
    assert(words_scan(e) == (Seq::<Seq<char>>::empty(), e));
    assert(words(a) =~= seq![a]);
    let ymd = seq![y, mo, d];
    assert forall|k: int, i: int|
        0 <= k < ymd.len() && 0 <= i < ymd[k].len() implies #[trigger] ymd[k][i] != '-' by {
        let p = ymd[k];
        assert(is_digit(p[i]));
    }
    lemma_split_on_join(ymd, '-');
    lemma_parse_fmt_signed(dt.year as int, 4, i32::MIN as int, i32::MAX as int);
    lemma_parse_fmt_unsigned(dt.month as nat, 2, u32::MAX as int);
    lemma_parse_fmt_unsigned(dt.day as nat, 2, u32::MAX as int);
    assert(words(replace_char(trim(s), '/', '-')) == seq![a]);
}

/// The stored text of a date-time with a non-negative year is made of digits,
/// `-`, one space and `:`, and starts and ends with a digit.
pub proof fn lemma_storage_text_chars(dt: LocalDateTime)
    requires
        dt.year >= 0,
    ensures
        dt.storage_text().len() > 0,
        is_digit(dt.storage_text()[0]),
        is_digit(dt.storage_text().last()),
        forall|i: int|
            0 <= i < dt.storage_text().len() ==> is_digit(#[trigger] dt.storage_text()[i])
                || dt.storage_text()[i] == '-' || dt.storage_text()[i] == ' '
                || dt.storage_text()[i] == ':',
{
    let y = fmt_signed(dt.year as int, 4);
    let mo = fmt_unsigned(dt.month as nat, 2);
    let d = fmt_unsigned(dt.day as nat, 2);
    let h = fmt_unsigned(dt.hour as nat, 2);
    let mi = fmt_unsigned(dt.minute as nat, 2);
    lemma_fmt_unsigned(dt.year as nat, 4);
    lemma_fmt_unsigned(dt.month as nat, 2);
    lemma_fmt_unsigned(dt.day as nat, 2);
    lemma_fmt_unsigned(dt.hour as nat, 2);
    lemma_fmt_unsigned(dt.minute as nat, 2);
    lemma_digits_or_join3(y, mo, d, '-');
    lemma_digits_or_join2(h, mi, ':');
    let a = join_with(seq![y, mo, d], '-');
    let b = join_with(seq![h, mi], ':');
    let s = dt.storage_text();
    assert(s =~= a + seq![' '] + b);
    assert(s[0] == a[0]);
    assert(s.last() == b[b.len() - 1]);
    assert(is_digit(a[0]));
    assert(is_digit(b[b.len() - 1]));
    assert forall|i: int| 0 <= i < s.len() implies is_digit(#[trigger] s[i]) || s[i] == '-'
        || s[i] == ' ' || s[i] == ':' by {
        if i < a.len() {
            assert(s[i] == a[i]);
        } else if i == a.len() {
        } else {
            assert(s[i] == b[i - a.len() - 1]);
        }
    }
}

} // verus!
