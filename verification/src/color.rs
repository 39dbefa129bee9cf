//! The color value micro-format: `rgba(RRGGBBAA)` and `rgb(RRGGBB)` with
//! hexadecimal channels. Channels are bytes; callers that want the unit
//! interval divide by 255.

use vstd::prelude::*;

verus! {

/// The value of one hexadecimal digit, case-insensitive.
pub open spec fn hex_digit_val(c: char) -> Option<int> {
    if '0' as u32 <= c as u32 && c as u32 <= '9' as u32 {
        Some(c as u32 - '0' as u32)
    } else if 'A' as u32 <= c as u32 && c as u32 <= 'F' as u32 {
        Some(10 + c as u32 - 'A' as u32)
    } else if 'a' as u32 <= c as u32 && c as u32 <= 'f' as u32 {
        Some(10 + c as u32 - 'a' as u32)
    } else {
        None
    }
}

/// The byte two hexadecimal digits denote.
pub open spec fn byte_of(h: char, l: char) -> Option<int> {
    match (hex_digit_val(h), hex_digit_val(l)) {
        (Some(a), Some(b)) => Some(16 * a + b),
        _ => None,
    }
}

pub open spec fn rgba_prefix() -> Seq<char> {
    seq!['r', 'g', 'b', 'a', '(']
}

pub open spec fn rgb_prefix() -> Seq<char> {
    seq!['r', 'g', 'b', '(']
}

/// What `parse_color` accepts: `rgba(` eight hex digits `)`, or `rgb(` six
/// hex digits `)` with full alpha; anything else is rejected.
pub open spec fn spec_parse_color(s: Seq<char>) -> Option<(u8, u8, u8, u8)> {
    if s.len() == 14 && s.take(5) == rgba_prefix() && s[13] == ')' {
        match (byte_of(s[5], s[6]), byte_of(s[7], s[8]), byte_of(s[9], s[10]), byte_of(
            s[11],
            s[12],
        )) {
            (Some(r), Some(g), Some(b), Some(a)) => Some(
                (r as u8, g as u8, b as u8, a as u8),
            ),
            _ => None,
        }
    } else if s.len() == 11 && s.take(4) == rgb_prefix() && s[10] == ')' {
        match (byte_of(s[4], s[5]), byte_of(s[6], s[7]), byte_of(s[8], s[9])) {
            (Some(r), Some(g), Some(b)) => Some((r as u8, g as u8, b as u8, 255u8)),
            _ => None,
        }
    } else {
        None
    }
}

/// The uppercase hexadecimal digit for a value below sixteen.
pub open spec fn hex_char(v: int) -> char {
    if v == 0 {
        '0'
    } else if v == 1 {
        '1'
    } else if v == 2 {
        '2'
    } else if v == 3 {
        '3'
    } else if v == 4 {
        '4'
    } else if v == 5 {
        '5'
    } else if v == 6 {
        '6'
    } else if v == 7 {
        '7'
    } else if v == 8 {
        '8'
    } else if v == 9 {
        '9'
    } else if v == 10 {
        'A'
    } else if v == 11 {
        'B'
    } else if v == 12 {
        'C'
    } else if v == 13 {
        'D'
    } else if v == 14 {
        'E'
    } else {
        'F'
    }
}

/// A byte as two uppercase hexadecimal digits.
pub open spec fn byte_hex(v: int) -> Seq<char> {
    seq![hex_char(v / 16), hex_char(v % 16)]
}

/// What `format_color` produces: `rgba(RRGGBBAA)`, zero-padded uppercase.
pub open spec fn spec_format_color(r: u8, g: u8, b: u8, a: u8) -> Seq<char> {
    rgba_prefix() + byte_hex(r as int) + byte_hex(g as int) + byte_hex(b as int) + byte_hex(
        a as int,
    ) + seq![')']
}

/// An uppercase digit parses back to its value.
proof fn lemma_hex_char_val(v: int)
    requires
        0 <= v < 16,
    ensures
        hex_digit_val(hex_char(v)) == Some(v),
{
}

/// The value of one hexadecimal digit, case-insensitive.
fn hex_digit(c: char) -> (r: Option<u8>)
    ensures
        match r {
            Some(v) => hex_digit_val(c) == Some(v as int) && v < 16,
            None => hex_digit_val(c) is None,
        },
{
    let u = c as u32;
    if '0' as u32 <= u && u <= '9' as u32 {
        Some((u - '0' as u32) as u8)
    } else if 'A' as u32 <= u && u <= 'F' as u32 {
        Some((10 + u - 'A' as u32) as u8)
    } else if 'a' as u32 <= u && u <= 'f' as u32 {
        Some((10 + u - 'a' as u32) as u8)
    } else {
        None
    }
}

/// Two hexadecimal digits as one byte.
fn hex_byte(h: char, l: char) -> (r: Option<u8>)
    ensures
        match r {
            Some(v) => byte_of(h, l) == Some(v as int),
            None => byte_of(h, l) is None,
        },
{
    match (hex_digit(h), hex_digit(l)) {
        (Some(a), Some(b)) => Some(16 * a + b),
        _ => None,
    }
}

/// Parse an `rgba(RRGGBBAA)` or `rgb(RRGGBB)` value into its four byte
/// channels; `rgb` takes full alpha. Anything else yields `None`.
pub fn parse_color(s: &str) -> (r: Option<(u8, u8, u8, u8)>)
    ensures
        r == spec_parse_color(s@),
{
    let n = s.unicode_len();
    if n == 14 {
        if s.get_char(0) == 'r' && s.get_char(1) == 'g' && s.get_char(2) == 'b' && s.get_char(3)
            == 'a' && s.get_char(4) == '(' && s.get_char(13) == ')' {
            proof {
                assert(s@.take(5) =~= rgba_prefix());
            }
            match (hex_byte(s.get_char(5), s.get_char(6)), hex_byte(s.get_char(7), s.get_char(8)),
            hex_byte(s.get_char(9), s.get_char(10)), hex_byte(s.get_char(11), s.get_char(12))) {
                (Some(r), Some(g), Some(b), Some(a)) => Some((r, g, b, a)),
                _ => None,
            }
        } else {
            proof {
                if s@.take(5) == rgba_prefix() {
                    assert(s@[0] == s@.take(5)[0]);
                    assert(s@[1] == s@.take(5)[1]);
                    assert(s@[2] == s@.take(5)[2]);
                    assert(s@[3] == s@.take(5)[3]);
                    assert(s@[4] == s@.take(5)[4]);
                }
            }
            None
        }
    } else if n == 11 {
        if s.get_char(0) == 'r' && s.get_char(1) == 'g' && s.get_char(2) == 'b' && s.get_char(3)
            == '(' && s.get_char(10) == ')' {
            proof {
                assert(s@.take(4) =~= rgb_prefix());
            }
            match (hex_byte(s.get_char(4), s.get_char(5)), hex_byte(s.get_char(6), s.get_char(7)),
            hex_byte(s.get_char(8), s.get_char(9))) {
                (Some(r), Some(g), Some(b)) => Some((r, g, b, 255)),
                _ => None,
            }
        } else {
            proof {
                if s@.take(4) == rgb_prefix() {
                    assert(s@[0] == s@.take(4)[0]);
                    assert(s@[1] == s@.take(4)[1]);
                    assert(s@[2] == s@.take(4)[2]);
                    assert(s@[3] == s@.take(4)[3]);
                }
            }
            None
        }
    } else {
        None
    }
}

/// The uppercase digit for a value below sixteen.
fn hex_char_exec(v: u8) -> (r: &'static str)
    requires
        v < 16,
    ensures
        r@ == seq![hex_char(v as int)],
{
    proof {
        reveal_strlit("0");
        reveal_strlit("1");
        reveal_strlit("2");
        reveal_strlit("3");
        reveal_strlit("4");
        reveal_strlit("5");
        reveal_strlit("6");
        reveal_strlit("7");
        reveal_strlit("8");
        reveal_strlit("9");
        reveal_strlit("A");
        reveal_strlit("B");
        reveal_strlit("C");
        reveal_strlit("D");
        reveal_strlit("E");
        reveal_strlit("F");
    }
    if v == 0 {
        proof {
            assert("0"@ =~= seq![hex_char(0)]);
        }
        "0"
    } else if v == 1 {
        proof {
            assert("1"@ =~= seq![hex_char(1)]);
        }
        "1"
    } else if v == 2 {
        proof {
            assert("2"@ =~= seq![hex_char(2)]);
        }
        "2"
    } else if v == 3 {
        proof {
            assert("3"@ =~= seq![hex_char(3)]);
        }
        "3"
    } else if v == 4 {
        proof {
            assert("4"@ =~= seq![hex_char(4)]);
        }
        "4"
    } else if v == 5 {
        proof {
            assert("5"@ =~= seq![hex_char(5)]);
        }
        "5"
    } else if v == 6 {
        proof {
            assert("6"@ =~= seq![hex_char(6)]);
        }
        "6"
    } else if v == 7 {
        proof {
            assert("7"@ =~= seq![hex_char(7)]);
        }
        "7"
    } else if v == 8 {
        proof {
            assert("8"@ =~= seq![hex_char(8)]);
        }
        "8"
    } else if v == 9 {
        proof {
            assert("9"@ =~= seq![hex_char(9)]);
        }
        "9"
    } else if v == 10 {
        proof {
            assert("A"@ =~= seq![hex_char(10)]);
        }
        "A"
    } else if v == 11 {
        proof {
            assert("B"@ =~= seq![hex_char(11)]);
        }
        "B"
    } else if v == 12 {
        proof {
            assert("C"@ =~= seq![hex_char(12)]);
        }
        "C"
    } else if v == 13 {
        proof {
            assert("D"@ =~= seq![hex_char(13)]);
        }
        "D"
    } else if v == 14 {
        proof {
            assert("E"@ =~= seq![hex_char(14)]);
        }
        "E"
    } else {
        proof {
            assert("F"@ =~= seq![hex_char(15)]);
        }
        "F"
    }
}

/// Render four byte channels as `rgba(RRGGBBAA)`, zero-padded uppercase.
pub fn format_color(r: u8, g: u8, b: u8, a: u8) -> (s: String)
    ensures
        s@ == spec_format_color(r, g, b, a),
{
    let mut s = String::new();
    proof {
        reveal_strlit("rgba(");
        assert("rgba("@ =~= rgba_prefix());
        reveal_strlit(")");
        assert(")"@ =~= seq![')']);
    }
    s.append("rgba(");
    s.append(hex_char_exec(r / 16));
    s.append(hex_char_exec(r % 16));
    s.append(hex_char_exec(g / 16));
    s.append(hex_char_exec(g % 16));
    s.append(hex_char_exec(b / 16));
    s.append(hex_char_exec(b % 16));
    s.append(hex_char_exec(a / 16));
    s.append(hex_char_exec(a % 16));
    s.append(")");
    proof {
        assert(s@ =~= spec_format_color(r, g, b, a));
    }
    s
}

/// Round trip: any four byte channels format to a string that parses back
/// to exactly those channels.
pub proof fn lemma_color_round_trip(r: u8, g: u8, b: u8, a: u8)
    ensures
        spec_parse_color(spec_format_color(r, g, b, a)) == Some((r, g, b, a)),
{
    let s = spec_format_color(r, g, b, a);
    assert(s.len() == 14);
    assert(s.take(5) =~= rgba_prefix());
    assert(s[13] == ')');
    lemma_hex_char_val(r as int / 16);
    lemma_hex_char_val(r as int % 16);
    lemma_hex_char_val(g as int / 16);
    lemma_hex_char_val(g as int % 16);
    lemma_hex_char_val(b as int / 16);
    lemma_hex_char_val(b as int % 16);
    lemma_hex_char_val(a as int / 16);
    lemma_hex_char_val(a as int % 16);
    assert(s[5] == hex_char(r as int / 16));
    assert(s[6] == hex_char(r as int % 16));
    assert(s[7] == hex_char(g as int / 16));
    assert(s[8] == hex_char(g as int % 16));
    assert(s[9] == hex_char(b as int / 16));
    assert(s[10] == hex_char(b as int % 16));
    assert(s[11] == hex_char(a as int / 16));
    assert(s[12] == hex_char(a as int % 16));
    assert(byte_of(s[5], s[6]) == Some(r as int));
    assert(byte_of(s[7], s[8]) == Some(g as int));
    assert(byte_of(s[9], s[10]) == Some(b as int));
    assert(byte_of(s[11], s[12]) == Some(a as int));
}

} // verus!
