//! The lines that the shell prints about its jobs.

use vstd::prelude::*;
use vstd::string::StringExecFns;

verus! {

/// The texts of some strings.
pub open spec fn texts(lines: Seq<String>) -> Seq<Seq<char>> {
    Seq::new(lines.len(), |i: int| lines[i]@)
}

/// The character of one decimal digit.
pub open spec fn digit(d: nat) -> char {
    if d == 0 {
        '0'
    } else if d == 1 {
        '1'
    } else if d == 2 {
        '2'
    } else if d == 3 {
        '3'
    } else if d == 4 {
        '4'
    } else if d == 5 {
        '5'
    } else if d == 6 {
        '6'
    } else if d == 7 {
        '7'
    } else if d == 8 {
        '8'
    } else {
        '9'
    }
}

/// A natural number in decimal digits, without leading zeros.
pub open spec fn decimal(n: nat) -> Seq<char>
    decreases n,
{
    if n < 10 {
        seq![digit(n)]
    } else {
        decimal(n / 10).push(digit(n % 10))
    }
}

/// An integer in decimal digits, with `-` in front of a negative one.
pub open spec fn signed_decimal(i: int) -> Seq<char> {
    if i < 0 {
        seq!['-'] + decimal((-i) as nat)
    } else {
        decimal(i as nat)
    }
}

/// The line for a job that has ended: `Done` behind the job's number for the
/// exit code 0, else `Exit` and the code, and the command in a column of its
/// own.
pub open spec fn completion_text(id: u32, code: i32, command: Seq<char>) -> Seq<char> {
    if code == 0 {
        "["@ + decimal(id as nat) + "] Done                    "@ + command
    } else {
        "["@ + decimal(id as nat) + "] Exit "@ + signed_decimal(code as int)
            + "                "@ + command
    }
}

/// The line for a job that was sent to the background: its number and the
/// process that leads it.
pub open spec fn launch_text(id: u32, pid: i32) -> Seq<char> {
    "["@ + decimal(id as nat) + "] "@ + signed_decimal(pid as int)
}

/// The exit code of a child whose program could not be started.
pub const COMMAND_NOT_FOUND: i32 = 127;

/// The line for a program that could not be found.
pub open spec fn not_found_text(program: Seq<char>) -> Seq<char> {
    "rush: command not found: "@ + program
}

/// The digit `d` as text.
fn digit_str(d: u64) -> (s: &'static str)
    requires
        d < 10,
    ensures
        s@ == seq![digit(d as nat)],
{
    proof {
        reveal_strlit("0");
        reveal_strlit("1");
        reveal_strlit("2");
        reveal_strlit("3");
        reveal_strlit("4");
        reveal_strlit("5");
        reveal_strlit("6");
        reveal_strlit("7");
        reveal_strlit("8");
        reveal_strlit("9");
    }
    let s = if d == 0 {
        "0"
    } else if d == 1 {
        "1"
    } else if d == 2 {
        "2"
    } else if d == 3 {
        "3"
    } else if d == 4 {
        "4"
    } else if d == 5 {
        "5"
    } else if d == 6 {
        "6"
    } else if d == 7 {
        "7"
    } else if d == 8 {
        "8"
    } else {
        "9"
    };
    assert(s@ =~= seq![digit(d as nat)]);
    s
}

/// Writes `n` in decimal digits to the end of `out`.
pub fn push_decimal(out: &mut String, n: u64)
    ensures
        final(out)@ == old(out)@ + decimal(n as nat),
    decreases n,
{
    if n >= 10 {
        push_decimal(out, n / 10);
    }
    out.append(digit_str(n % 10));
    proof {
        assert(final(out)@ =~= old(out)@ + decimal(n as nat));
    }
}

/// Writes `i` in decimal digits to the end of `out`, with its sign if it is
/// negative.
pub fn push_signed(out: &mut String, i: i32)
    ensures
        final(out)@ == old(out)@ + signed_decimal(i as int),
{
    let wide: i64 = i as i64;
    if wide < 0 {
        proof {
            reveal_strlit("-");
        }
        out.append("-");
        push_decimal(out, (-wide) as u64);
        proof {
            assert("-"@ =~= seq!['-']);
            assert(final(out)@ =~= old(out)@ + signed_decimal(i as int));
        }
    } else {
        push_decimal(out, wide as u64);
    }
}

/// The line that tells the user that job `id` has ended with `code`.
pub fn completion_line(id: u32, code: i32, command: &str) -> (line: String)
    ensures
        line@ == completion_text(id, code, command@),
{
    let mut line = String::from_str("[");
    push_decimal(&mut line, id as u64);
    if code == 0 {
        line.append("] Done                    ");
    } else {
        line.append("] Exit ");
        push_signed(&mut line, code);
        line.append("                ");
    }
    line.append(command);
    line
}

/// The line that tells the user that job `id` runs in the background, led
/// by the process `pid`.
pub fn launch_line(id: u32, pid: i32) -> (line: String)
    ensures
        line@ == launch_text(id, pid),
{
    let mut line = String::from_str("[");
    push_decimal(&mut line, id as u64);
    line.append("] ");
    push_signed(&mut line, pid);
    line
}

/// The line that tells the user that the program `program` was not found.
pub fn not_found_line(program: &str) -> (line: String)
    ensures
        line@ == not_found_text(program@),
{
    let mut line = String::from_str("rush: command not found: ");
    line.append(program);
    line
}

} // verus!
