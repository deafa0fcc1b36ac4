//! The printed form of a decoded log entry.

use vstd::prelude::*;
use vstd::string::*;

verus! {

/// The digit of value `d` in base 16, upper case.
pub open spec fn hex_char(d: nat) -> char {
    if d < 10 {
        (('0' as u32) + d) as char
    } else {
        (('A' as u32) + d - 10) as char
    }
}

/// `n` in base 16, upper case, without leading zeros.
pub open spec fn hex_digits(n: nat) -> Seq<char>
    decreases n,
{
    if n < 16 {
        seq![hex_char(n)]
    } else {
        hex_digits(n / 16) + seq![hex_char(n % 16)]
    }
}

/// `n` in base 10, without leading zeros.
pub open spec fn dec_digits(n: nat) -> Seq<char>
    decreases n,
{
    if n < 10 {
        seq![hex_char(n)]
    } else {
        dec_digits(n / 10) + seq![hex_char(n % 10)]
    }
}

/// The line printed for an entry: its severity label and text, then the
/// system id in hexadecimal and the place where the message was declared.
pub open spec fn entry_line_spec(
    label: Seq<char>,
    text: Seq<char>,
    system_id: u16,
    file: Seq<char>,
    line: usize,
) -> Seq<char> {
    "["@ + label + "] "@ + text + "\n    From: 0x"@ + hex_digits(system_id as nat) + "(file://"@ + file
        + ":"@ + dec_digits(line as nat) + ")"@
}

/// The one-character text of digit `d`.
fn digit_text(d: u64) -> (r: &'static str)
    requires
        d < 16,
    ensures
        r@ == seq![hex_char(d as nat)],
{
    match d {
        0 => { proof { reveal_strlit("0"); } "0" },
        1 => { proof { reveal_strlit("1"); } "1" },
        2 => { proof { reveal_strlit("2"); } "2" },
        3 => { proof { reveal_strlit("3"); } "3" },
        4 => { proof { reveal_strlit("4"); } "4" },
        5 => { proof { reveal_strlit("5"); } "5" },
        6 => { proof { reveal_strlit("6"); } "6" },
        7 => { proof { reveal_strlit("7"); } "7" },
        8 => { proof { reveal_strlit("8"); } "8" },
        9 => { proof { reveal_strlit("9"); } "9" },
        10 => { proof { reveal_strlit("A"); } "A" },
        11 => { proof { reveal_strlit("B"); } "B" },
        12 => { proof { reveal_strlit("C"); } "C" },
        13 => { proof { reveal_strlit("D"); } "D" },
        14 => { proof { reveal_strlit("E"); } "E" },
        _ => { proof { reveal_strlit("F"); } "F" },
    }
}

/// Appends `n` in base 16.
fn append_hex(out: &mut String, n: u64)
    ensures
        final(out)@ == old(out)@ + hex_digits(n as nat),
    decreases n,
{
    if n >= 16 {
        append_hex(out, n / 16);
    }
    out.append(digit_text(n % 16));
    proof {
        assert(old(out)@ + hex_digits(n as nat) =~= if n >= 16 {
            old(out)@ + hex_digits((n / 16) as nat) + seq![hex_char((n % 16) as nat)]
        } else {
            old(out)@ + seq![hex_char((n % 16) as nat)]
        });
    }
}

/// Appends `n` in base 10.
fn append_dec(out: &mut String, n: u64)
    ensures
        final(out)@ == old(out)@ + dec_digits(n as nat),
    decreases n,
{
    if n >= 10 {
        append_dec(out, n / 10);
    }
    out.append(digit_text(n % 10));
    proof {
        assert(old(out)@ + dec_digits(n as nat) =~= if n >= 10 {
            old(out)@ + dec_digits((n / 10) as nat) + seq![hex_char((n % 10) as nat)]
        } else {
            old(out)@ + seq![hex_char((n % 10) as nat)]
        });
    }
}

/// The line printed for a decoded entry, as
/// `[<label>] <text>\n    From: 0x<system id>(file://<file>:<line>)`.
pub fn entry_line(label: &str, text: &str, system_id: u16, file: &str, line: usize) -> (r: String)
    ensures
        r@ == entry_line_spec(label@, text@, system_id, file@, line),
{
    let mut out = String::new();
    out.append("[");
    out.append(label);
    out.append("] ");
    out.append(text);
    out.append("\n    From: 0x");
    append_hex(&mut out, system_id as u64);
    out.append("(file://");
    out.append(file);
    out.append(":");
    append_dec(&mut out, line as u64);
    out.append(")");
    proof {
        assert(out@ =~= entry_line_spec(label@, text@, system_id, file@, line));
    }
    out
}

} // verus!
