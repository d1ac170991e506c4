//! The date string of a benchmark record.
//!
//! The clock wrapper hands back a plain year, month and day; this module
//! renders them as the ten-character `YYYY-MM-DD` layout that persistence
//! and reporting consume, with the year clamped into `[0, 9999]` so the
//! layout holds of every clock reading.

use vstd::prelude::*;

verus! {

/// The year clamped into the four-digit range.
pub open spec fn clamp_year(y: int) -> int {
    if y < 0 {
        0
    } else if y > 9999 {
        9999
    } else {
        y
    }
}

/// The decimal digit character of `d` (defined for `0 <= d <= 9`).
pub open spec fn digit_char(d: int) -> char {
    if d == 0 {
        '0'
    } else if d == 1 {
        '1'
    } else if d == 2 {
        '2'
    } else if d == 3 {
        '3'
    } else if d == 4 {
        '4'
    } else if d == 5 {
        '5'
    } else if d == 6 {
        '6'
    } else if d == 7 {
        '7'
    } else if d == 8 {
        '8'
    } else {
        '9'
    }
}

/// The ten characters `YYYY-MM-DD`: the clamped year's four decimal digits,
/// then the month's two, then the day's two, separated by dashes.
pub open spec fn date_chars(y: int, mo: int, d: int) -> Seq<char> {
    let yc = clamp_year(y);
    seq![
        digit_char(yc / 1000 % 10),
        digit_char(yc / 100 % 10),
        digit_char(yc / 10 % 10),
        digit_char(yc % 10),
        '-',
        digit_char(mo / 10 % 10),
        digit_char(mo % 10),
        '-',
        digit_char(d / 10 % 10),
        digit_char(d % 10),
    ]
}

/// A decimal digit character.
pub open spec fn is_ascii_digit_char(c: char) -> bool {
    '0' <= c <= '9'
}

/// Whatever the inputs, `date_chars` has the `YYYY-MM-DD` layout: ten
/// characters, dashes at positions four and seven, decimal digits elsewhere.
pub proof fn lemma_date_chars_layout(y: int, mo: int, d: int)
    ensures
        date_chars(y, mo, d).len() == 10,
        date_chars(y, mo, d)[4] == '-',
        date_chars(y, mo, d)[7] == '-',
        forall|i: int|
            0 <= i < 10 && i != 4 && i != 7 ==> is_ascii_digit_char(#[trigger] date_chars(
                y,
                mo,
                d,
            )[i]),
{
}

/// Append the decimal digit character of `d`.
fn push_digit(s: &mut String, d: u32)
    requires
        d <= 9,
    ensures
        final(s)@ == old(s)@ + seq![digit_char(d as int)],
{
    if d == 0 {
        proof {
            reveal_strlit("0");
        }
        s.append("0");
    } else if d == 1 {
        proof {
            reveal_strlit("1");
        }
        s.append("1");
    } else if d == 2 {
        proof {
            reveal_strlit("2");
        }
        s.append("2");
    } else if d == 3 {
        proof {
            reveal_strlit("3");
        }
        s.append("3");
    } else if d == 4 {
        proof {
            reveal_strlit("4");
        }
        s.append("4");
    } else if d == 5 {
        proof {
            reveal_strlit("5");
        }
        s.append("5");
    } else if d == 6 {
        proof {
            reveal_strlit("6");
        }
        s.append("6");
    } else if d == 7 {
        proof {
            reveal_strlit("7");
        }
        s.append("7");
    } else if d == 8 {
        proof {
            reveal_strlit("8");
        }
        s.append("8");
    } else {
        proof {
            reveal_strlit("9");
        }
        s.append("9");
    }
    proof {
        assert(s@ =~= old(s)@ + seq![digit_char(d as int)]);
    }
}

/// Render a clock reading as `YYYY-MM-DD`, the year clamped into
/// `[0, 9999]`: exactly `date_chars` of the inputs.
pub fn format_date(year: i32, month: u32, day: u32) -> (r: String)
    ensures
        r@ == date_chars(year as int, month as int, day as int),
{
    let yc: u32 = if year < 0 {
        0
    } else if year > 9999 {
        9999
    } else {
        year as u32
    };
    let mut s = String::new();
    push_digit(&mut s, yc / 1000 % 10);
    push_digit(&mut s, yc / 100 % 10);
    push_digit(&mut s, yc / 10 % 10);
    push_digit(&mut s, yc % 10);
    proof {
        reveal_strlit("-");
    }
    s.append("-");
    push_digit(&mut s, month / 10 % 10);
    push_digit(&mut s, month % 10);
    proof {
        reveal_strlit("-");
    }
    s.append("-");
    push_digit(&mut s, day / 10 % 10);
    push_digit(&mut s, day % 10);
    proof {
        assert(s@ =~= date_chars(year as int, month as int, day as int));
    }
    s
}

} // verus!
