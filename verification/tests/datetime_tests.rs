use todo_widget::calendar::{civil_from_days, days_from_civil, days_in_month, is_leap_year};
use todo_widget::datetime::{weekday_name, LocalDateTime};

fn dt(year: i32, month: u32, day: u32, hour: u32, minute: u32) -> LocalDateTime {
    LocalDateTime { year, month, day, hour, minute }
}

#[test]
fn leap_years_follow_the_gregorian_rule() {
    assert!(is_leap_year(2024));
    assert!(!is_leap_year(2023));
    assert!(!is_leap_year(1900));
    assert!(is_leap_year(2000));
    assert!(is_leap_year(-4));
}

#[test]
fn month_lengths() {
    assert_eq!(days_in_month(2023, 2), 28);
    assert_eq!(days_in_month(2024, 2), 29);
    assert_eq!(days_in_month(2024, 4), 30);
    assert_eq!(days_in_month(2024, 12), 31);
    assert_eq!(days_in_month(2024, 13), 0);
    assert_eq!(days_in_month(2024, 0), 0);
}

#[test]
fn day_counts_of_known_dates() {
    assert_eq!(days_from_civil(1970, 1, 1), 0);
    assert_eq!(days_from_civil(1969, 12, 31), -1);
    assert_eq!(days_from_civil(2000, 3, 1), 11017);
    assert_eq!(days_from_civil(2024, 2, 29), 19782);
    assert_eq!(days_from_civil(2026, 7, 7), 20641);
}

#[test]
fn day_counts_convert_back() {
    assert_eq!(civil_from_days(0), (1970, 1, 1));
    assert_eq!(civil_from_days(-1), (1969, 12, 31));
    assert_eq!(civil_from_days(19782), (2024, 2, 29));
    for days in -800_000i64..800_000 {
        if days % 997 != 0 {
            continue;
        }
        let (y, m, d) = civil_from_days(days);
        assert_eq!(days_from_civil(y, m, d), days);
    }
}

#[test]
fn parse_date_and_time() {
    assert_eq!(LocalDateTime::parse("2026-07-07 18:30"), Ok(dt(2026, 7, 7, 18, 30)));
    assert_eq!(LocalDateTime::parse("  2026/7/7  "), Ok(dt(2026, 7, 7, 18, 0)));
    assert_eq!(LocalDateTime::parse("2026-07-07 +9:05"), Ok(dt(2026, 7, 7, 9, 5)));
}

#[test]
fn parse_errors_name_the_first_problem() {
    assert_eq!(LocalDateTime::parse("   ").unwrap_err(), "请输入日期，例如 2026-07-07 18:30");
    assert_eq!(LocalDateTime::parse("2026-07-07 18:30 x").unwrap_err(), "时间格式过长，请使用 2026-07-07 18:30");
    assert_eq!(LocalDateTime::parse("2026-07").unwrap_err(), "日期格式应为 YYYY-MM-DD");
    assert_eq!(LocalDateTime::parse("x-07-07").unwrap_err(), "年份不是有效数字");
    assert_eq!(LocalDateTime::parse("2026-x-07").unwrap_err(), "月份不是有效数字");
    assert_eq!(LocalDateTime::parse("2026-07-").unwrap_err(), "日期不是有效数字");
    assert_eq!(LocalDateTime::parse("2026-07-07 1830").unwrap_err(), "时间格式应为 HH:MM");
    assert_eq!(LocalDateTime::parse("2026-07-07 a:30").unwrap_err(), "小时不是有效数字");
    assert_eq!(LocalDateTime::parse("2026-07-07 18:-1").unwrap_err(), "分钟不是有效数字");
    assert_eq!(LocalDateTime::parse("2026-13-01").unwrap_err(), "月份必须在 1 到 12 之间");
    assert_eq!(LocalDateTime::parse("2026-02-29").unwrap_err(), "2 月最多只有 28 天");
    assert_eq!(LocalDateTime::parse("2026-07-07 24:00").unwrap_err(), "小时必须在 0 到 23 之间");
    assert_eq!(LocalDateTime::parse("2026-07-07 23:60").unwrap_err(), "分钟必须在 0 到 59 之间");
}

#[test]
fn start_bounds() {
    assert_eq!(LocalDateTime::parse_start_bound("  "), Ok(None));
    assert_eq!(LocalDateTime::parse_start_bound(" 2026-07-07 "), Ok(Some(dt(2026, 7, 7, 0, 0))));
    assert!(LocalDateTime::parse_start_bound("soon").is_err());
    assert_eq!(LocalDateTime::parse_with_default("2026-07-07", 23, 59), Ok(dt(2026, 7, 7, 23, 59)));
}

#[test]
fn formatting() {
    let t = dt(2026, 7, 7, 8, 5);
    assert_eq!(t.date_string(), "2026-07-07");
    assert_eq!(t.storage_string(), "2026-07-07 08:05");
    assert_eq!(t.short_string(), "07-07 08:05");
    assert_eq!(dt(33, 1, 2, 0, 0).date_string(), "0033-01-02");
    assert_eq!(dt(-5, 1, 2, 0, 0).date_string(), "-005-01-02");
}

#[test]
fn storage_text_reads_back() {
    for t in [dt(2026, 7, 7, 8, 5), dt(1, 1, 1, 0, 0), dt(2024, 2, 29, 23, 59), dt(9999, 12, 31, 12, 0)] {
        assert_eq!(LocalDateTime::parse(&t.storage_string()), Ok(t));
    }
}

#[test]
fn weekdays() {
    assert_eq!(dt(1970, 1, 1, 0, 0).weekday_mon1(), 4);
    assert_eq!(dt(2026, 7, 7, 0, 0).weekday_mon1(), 2);
    assert_eq!(dt(2026, 7, 7, 0, 0).cn_weekday(), "星期二");
    assert_eq!(dt(1969, 12, 31, 0, 0).weekday_mon1(), 3);
    assert_eq!(weekday_name(7), "星期日");
    assert_eq!(weekday_name(0), "未知");
    let t = dt(2026, 7, 7, 0, 0);
    assert_eq!(t.add_days(7).weekday_mon1(), t.weekday_mon1());
}

#[test]
fn minute_arithmetic() {
    let a = dt(2026, 7, 7, 18, 30);
    assert_eq!(a.minutes_key(), 29724150);
    let b = dt(2026, 7, 8, 18, 0);
    assert_eq!(b.diff_minutes_from(a), 1410);
    assert_eq!(a.diff_minutes_from(b), -1410);
    assert_eq!(a.diff_minutes_from(a), 0);
    assert!(a < b);
}

#[test]
fn adding_days() {
    let a = dt(2024, 2, 28, 9, 15);
    assert_eq!(a.add_days(1), dt(2024, 2, 29, 9, 15));
    assert_eq!(a.add_days(2), dt(2024, 3, 1, 9, 15));
    assert_eq!(dt(2026, 1, 3, 0, 0).add_days(-7), dt(2025, 12, 27, 0, 0));
    assert_eq!(a.add_days(0), a);
    assert_eq!(a.add_days(10).add_days(-3), a.add_days(7));
}

#[test]
fn validation() {
    assert_eq!(dt(2026, 7, 7, 18, 30).validate(), Ok(()));
    assert_eq!(dt(2026, 4, 31, 0, 0).validate().unwrap_err(), "4 月最多只有 30 天");
    assert_eq!(dt(2026, 4, 0, 0, 0).validate().unwrap_err(), "4 月最多只有 30 天");
}

#[test]
fn from_system_time_takes_date_and_minute() {
    let st = todo_widget::win32::SYSTEMTIME {
        wYear: 2026,
        wMonth: 7,
        wDayOfWeek: 2,
        wDay: 7,
        wHour: 18,
        wMinute: 30,
        wSecond: 59,
        wMilliseconds: 999,
    };
    assert_eq!(LocalDateTime::from_system_time(st), dt(2026, 7, 7, 18, 30));
}

#[test]
fn consecutive_dates_have_consecutive_day_counts() {
    let mut date = (1999i32, 12u32, 25u32);
    let mut count = days_from_civil(date.0, date.1, date.2);
    for _ in 0..800 {
        let (y, m, d) = date;
        let next = if d < days_in_month(y, m) {
            (y, m, d + 1)
        } else if m < 12 {
            (y, m + 1, 1)
        } else {
            (y + 1, 1, 1)
        };
        let next_count = days_from_civil(next.0, next.1, next.2);
        assert_eq!(next_count, count + 1);
        date = next;
        count = next_count;
    }
}

#[test]
fn date_text_reads_back_at_six_pm() {
    for t in [dt(2026, 7, 7, 8, 5), dt(1, 1, 1, 0, 0), dt(2024, 2, 29, 23, 59)] {
        assert_eq!(LocalDateTime::parse(&t.date_string()), Ok(LocalDateTime { hour: 18, minute: 0, ..t }));
        assert_eq!(
            LocalDateTime::parse_with_default(&t.date_string(), 7, 45),
            Ok(LocalDateTime { hour: 7, minute: 45, ..t })
        );
    }
}
