use rush::runner::report::{
    completion_line, launch_line, not_found_line, push_decimal, push_signed, COMMAND_NOT_FOUND,
};

fn decimal(n: u64) -> String {
    let mut out = String::new();
    push_decimal(&mut out, n);
    out
}

fn signed(i: i32) -> String {
    let mut out = String::new();
    push_signed(&mut out, i);
    out
}

#[test]
fn decimal_digits() {
    assert_eq!(decimal(0), "0");
    assert_eq!(decimal(7), "7");
    assert_eq!(decimal(10), "10");
    assert_eq!(decimal(1234567890), "1234567890");
    assert_eq!(decimal(u64::MAX), u64::MAX.to_string());
    for n in 0..2000u64 {
        assert_eq!(decimal(n), n.to_string());
    }
}

#[test]
fn signed_decimal_digits() {
    assert_eq!(signed(0), "0");
    assert_eq!(signed(-1), "-1");
    assert_eq!(signed(127), "127");
    assert_eq!(signed(i32::MAX), "2147483647");
    assert_eq!(signed(i32::MIN), "-2147483648");
}

#[test]
fn decimal_is_appended() {
    let mut out = String::from("n=");
    push_decimal(&mut out, 42);
    push_signed(&mut out, -7);
    assert_eq!(out, "n=42-7");
}

#[test]
fn completion_lines() {
    assert_eq!(completion_line(1, 0, "sleep 2"), "[1] Done                    sleep 2");
    assert_eq!(completion_line(1, 0, "sleep 2"), format!("[{}] Done                    {}", 1, "sleep 2"));
    assert_eq!(completion_line(23, 127, "nope"), "[23] Exit 127                nope");
    assert_eq!(completion_line(23, 127, "nope"), format!("[{}] Exit {}                {}", 23, 127, "nope"));
    assert_eq!(completion_line(4, -1, ""), "[4] Exit -1                ");
    assert_eq!(completion_line(u32::MAX, 1, "x"), "[4294967295] Exit 1                x");
}

#[test]
fn launch_lines() {
    assert_eq!(launch_line(1, 4242), "[1] 4242");
    assert_eq!(launch_line(17, 1), "[17] 1");
}

#[test]
fn not_found_lines() {
    assert_eq!(not_found_line("frobnicate"), "rush: command not found: frobnicate");
    assert_eq!(not_found_line(""), "rush: command not found: ");
    assert_eq!(COMMAND_NOT_FOUND, 127);
}
