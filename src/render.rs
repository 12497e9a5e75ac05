//! Text rendering of records and batches, for diagnostics.
use crate::layout::Event;
use vstd::prelude::*;
use vstd::string::StringExecFns;

verus! {

/// The lower-case hexadecimal digit for `d < 16`.
pub open spec fn hex_char(d: int) -> char {
    if d < 10 {
        ('0' as u8 + d) as char
    } else {
        ('a' as u8 + d - 10) as char
    }
}

/// The last `n` hexadecimal digits of `x`, most significant first.
pub open spec fn hex_digits(x: nat, n: nat) -> Seq<char>
    decreases n,
{
    if n == 0 {
        Seq::empty()
    } else {
        hex_digits(x / 16, (n - 1) as nat).push(hex_char((x % 16) as int))
    }
}

/// The decimal digits of `x`, most significant first, without leading zeros.
pub open spec fn dec_digits(x: nat) -> Seq<char>
    decreases x,
{
    if x < 10 {
        seq![('0' as u8 + x) as char]
    } else {
        dec_digits(x / 10).push(('0' as u8 + x % 10) as char)
    }
}

/// The payload bytes, each as a space and two hexadecimal digits.
pub open spec fn render_bytes(b: Seq<u8>) -> Seq<char>
    decreases b.len(),
{
    if b.len() == 0 {
        Seq::empty()
    } else {
        render_bytes(b.drop_last()) + seq![' '] + hex_digits(b.last() as nat, 2)
    }
}

/// One record as text: sixteen hexadecimal digits of the timestamp, a colon,
/// then the payload bytes.
pub open spec fn render_packet(e: Event) -> Seq<char> {
    hex_digits(e.0 as nat, 16) + seq![':'] + render_bytes(e.1)
}

/// The records as text, each on its own indented line.
pub open spec fn render_packets(events: Seq<Event>) -> Seq<char>
    decreases events.len(),
{
    if events.len() == 0 {
        Seq::empty()
    } else {
        render_packets(events.drop_last()) + seq!['\n', ' ', ' '] + render_packet(events.last())
    }
}

/// A whole batch as text: its record count, then its records.
pub open spec fn render_list(events: Seq<Event>) -> Seq<char> {
    seq!['P', 'a', 'c', 'k', 'e', 't', 'L', 'i', 's', 't', '(', 'l', 'e', 'n', '=']
        + dec_digits(events.len()) + seq![')'] + render_packets(events)
}

fn digit_str(d: u8) -> (r: &'static str)
    requires
        d < 16,
    ensures
        r@ == seq![hex_char(d as int)],
{
    proof {
        reveal_strlit("0");
        reveal_strlit("1");
        reveal_strlit("2");
        reveal_strlit("3");
        reveal_strlit("4");
        reveal_strlit("5");
        reveal_strlit("6");
        reveal_strlit("7");
        reveal_strlit("8");
        reveal_strlit("9");
        reveal_strlit("a");
        reveal_strlit("b");
        reveal_strlit("c");
        reveal_strlit("d");
        reveal_strlit("e");
        reveal_strlit("f");
    }
    match d {
        0 => "0",
        1 => "1",
        2 => "2",
        3 => "3",
        4 => "4",
        5 => "5",
        6 => "6",
        7 => "7",
        8 => "8",
        9 => "9",
        10 => "a",
        11 => "b",
        12 => "c",
        13 => "d",
        14 => "e",
        _ => "f",
    }
}

/// Appends the last `n` hexadecimal digits of `x` to `out`.
pub fn push_hex(out: &mut String, x: u64, n: u32)
    requires
        n <= 16,
    ensures
        final(out)@ == old(out)@ + hex_digits(x as nat, n as nat),
    decreases n,
{
    if n > 0 {
        push_hex(out, x / 16, n - 1);
        out.append(digit_str((x % 16) as u8));
        proof {
            assert(hex_digits(x as nat, n as nat) == hex_digits((x / 16) as nat, (n - 1) as nat).push(
                hex_char((x % 16) as int),
            ));
        }
    } else {
        assert(out@ =~= old(out)@ + hex_digits(x as nat, n as nat));
    }
}

/// Appends the decimal digits of `x` to `out`.
pub fn push_decimal(out: &mut String, x: u64)
    ensures
        final(out)@ == old(out)@ + dec_digits(x as nat),
    decreases x,
{
    if x >= 10 {
        push_decimal(out, x / 10);
    }
    out.append(digit_str((x % 10) as u8));
    proof {
        assert(hex_char((x % 10) as int) == ('0' as u8 + (x % 10)) as char);
    }
    assert(out@ =~= old(out)@ + dec_digits(x as nat));
}

} // verus!
