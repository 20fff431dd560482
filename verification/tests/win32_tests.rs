use todo_widget::win32::{
    exe_path_failure, get_x_lparam, get_y_lparam, loword, rect, rgb, run_key_open_failure, run_key_update_result,
    startup_command, to_wide, wheel_delta, RECT,
};

#[test]
fn colour_packing() {
    assert_eq!(rgb(0x12, 0x34, 0x56), 0x0056_3412);
    assert_eq!(rgb(255, 255, 255), 0x00FF_FFFF);
}

#[test]
fn message_parameters() {
    assert_eq!(loword(0x1234_5678), 0x5678);
    assert_eq!(get_x_lparam(0x0010_FFF0), -16);
    assert_eq!(get_y_lparam(0x0010_FFF0), 16);
    assert_eq!(get_y_lparam(-65536), -1);
    assert_eq!(wheel_delta(120 << 16), 120);
    assert_eq!(wheel_delta(0xFF88_0000), -120);
    assert_eq!(rect(1, 2, 3, 4), RECT { left: 1, top: 2, right: 3, bottom: 4 });
}

#[test]
fn wide_strings() {
    assert_eq!(to_wide(""), vec![0]);
    assert_eq!(to_wide("A中"), vec![0x41, 0x4E2D, 0]);
    assert_eq!(to_wide("😀"), vec![0xD83D, 0xDE00, 0]);
    let expected: Vec<u16> = "桌面待办 😀".encode_utf16().chain(Some(0)).collect();
    assert_eq!(to_wide("桌面待办 😀"), expected);
}

#[test]
fn startup_registration() {
    assert_eq!(startup_command("C:\\app\\todo.exe"), "\"C:\\app\\todo.exe\"");
    assert_eq!(exe_path_failure("x"), "读取程序路径失败：x");
    assert_eq!(run_key_open_failure(5), "无法打开开机启动注册表项，错误码 5");
    assert_eq!(run_key_open_failure(-3), "无法打开开机启动注册表项，错误码 -3");
    assert_eq!(run_key_update_result(0, false), Ok(()));
    assert_eq!(run_key_update_result(2, true), Ok(()));
    assert_eq!(run_key_update_result(2, false).unwrap_err(), "更新开机启动失败，错误码 2");
    assert_eq!(run_key_update_result(5, true).unwrap_err(), "更新开机启动失败，错误码 5");
}
