//! Decimal text for the mapping table: a right-aligned two-column number,
//! an arrow, and the dice face, one line per d20 face.

use vstd::prelude::*;
use vstd::string::StringExecFns;

verus! {

/// The character of decimal digit `d`.
pub open spec fn digit_char(d: int) -> char {
    if d == 0 {
        '0'
    } else if d == 1 {
        '1'
    } else if d == 2 {
        '2'
    } else if d == 3 {
        '3'
    } else if d == 4 {
        '4'
    } else if d == 5 {
        '5'
    } else if d == 6 {
        '6'
    } else if d == 7 {
        '7'
    } else if d == 8 {
        '8'
    } else {
        '9'
    }
}

/// The decimal digits of `v`, without leading zeros.
pub open spec fn decimal(v: nat) -> Seq<char>
    decreases v,
{
    if v < 10 {
        seq![digit_char(v as int)]
    } else {
        decimal(v / 10) + seq![digit_char((v % 10) as int)]
    }
}

/// The decimal text of `v`, with a minus sign when negative.
pub open spec fn signed_decimal(v: int) -> Seq<char> {
    if v < 0 {
        seq!['-'] + decimal((-v) as nat)
    } else {
        decimal(v as nat)
    }
}

/// Right-aligns `s` in a column two characters wide.
pub open spec fn pad2(s: Seq<char>) -> Seq<char> {
    if s.len() < 2 {
        seq![' '] + s
    } else {
        s
    }
}

/// One table line: the shifted d20 face, an arrow, the dice face.
pub open spec fn map_line(shifted: int, face: int) -> Seq<char> {
    pad2(signed_decimal(shifted)) + seq![' ', '-', '>', ' '] + pad2(decimal(face as nat)) + seq!['\n']
}

/// The lines for the d20 faces `1..=k`, each shifted by `soh`.
pub open spec fn map_text(soh: int, m: Seq<u8>, k: int) -> Seq<char>
    decreases k,
{
    if k <= 0 {
        seq![]
    } else {
        map_text(soh, m, k - 1) + map_line(k + soh, m[k - 1] as int)
    }
}

fn digit_str(d: u8) -> (r: &'static str)
    requires
        d < 10,
    ensures
        r@ == seq![digit_char(d as int)],
{
    proof {
        reveal_strlit("0");
        reveal_strlit("1");
        reveal_strlit("2");
        reveal_strlit("3");
        reveal_strlit("4");
        reveal_strlit("5");
        reveal_strlit("6");
        reveal_strlit("7");
        reveal_strlit("8");
        reveal_strlit("9");
    }
    if d == 0 {
        "0"
    } else if d == 1 {
        "1"
    } else if d == 2 {
        "2"
    } else if d == 3 {
        "3"
    } else if d == 4 {
        "4"
    } else if d == 5 {
        "5"
    } else if d == 6 {
        "6"
    } else if d == 7 {
        "7"
    } else if d == 8 {
        "8"
    } else {
        "9"
    }
}

/// Appends the decimal digits of `v`.
fn push_decimal(s: &mut String, v: u8)
    ensures
        final(s)@ == old(s)@ + decimal(v as nat),
{
    let ghost s0 = s@;
    if v >= 100 {
        s.append(digit_str(v / 100));
        s.append(digit_str(v / 10 % 10));
        s.append(digit_str(v % 10));
        assert(decimal((v / 10) as nat) == decimal((v / 100) as nat) + seq![
            digit_char((v / 10 % 10) as int),
        ]);
        assert(decimal(v as nat) == decimal((v / 10) as nat) + seq![digit_char((v % 10) as int)]);
        assert(s@ =~= s0 + decimal(v as nat));
    } else if v >= 10 {
        s.append(digit_str(v / 10));
        s.append(digit_str(v % 10));
        assert(decimal(v as nat) == decimal((v / 10) as nat) + seq![digit_char((v % 10) as int)]);
        assert(s@ =~= s0 + decimal(v as nat));
    } else {
        s.append(digit_str(v));
    }
}

/// Appends `v` in decimal, right-aligned in two columns.
pub fn push_padded(s: &mut String, v: i16)
    requires
        -255 <= v <= 255,
    ensures
        final(s)@ == old(s)@ + pad2(signed_decimal(v as int)),
{
    let ghost s0 = s@;
    proof {
        reveal_strlit(" ");
        reveal_strlit("-");
    }
    if v < 0 {
        s.append("-");
        push_decimal(s, (0 - v) as u8);
        assert(decimal((-v) as nat).len() >= 1);
        assert(s@ =~= s0 + pad2(signed_decimal(v as int)));
    } else if v < 10 {
        s.append(" ");
        push_decimal(s, v as u8);
        assert(s@ =~= s0 + pad2(signed_decimal(v as int)));
    } else {
        push_decimal(s, v as u8);
        assert(decimal((v / 10) as nat).len() >= 1);
        assert(decimal(v as nat) == decimal((v / 10) as nat) + seq![digit_char((v % 10) as int)]);
    }
}

/// Appends one table line.
pub fn push_map_line(s: &mut String, shifted: i16, face: u8)
    requires
        -255 <= shifted <= 255,
    ensures
        final(s)@ == old(s)@ + map_line(shifted as int, face as int),
{
    let ghost s0 = s@;
    proof {
        reveal_strlit(" -> ");
        reveal_strlit("\n");
    }
    push_padded(s, shifted);
    s.append(" -> ");
    push_padded(s, face as i16);
    s.append("\n");
    assert(s@ =~= s0 + map_line(shifted as int, face as int));
}

} // verus!
