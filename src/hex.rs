//! Bytes written as whitespace-separated hexadecimal numbers, such as a
//! file header spelled out in the source (`"42 4d 36 10"`).
use vstd::prelude::*;

use crate::graphs_mazes::line_chars;

verus! {

/// Whitespace as `char::is_whitespace` has it: the characters with the
/// Unicode property White_Space.
pub open spec fn is_white(c: char) -> bool {
    c == ' ' || ('\t' <= c && c <= '\r') || c == '\u{85}' || c == '\u{a0}' || c == '\u{1680}' || (
    '\u{2000}' <= c && c <= '\u{200a}') || c == '\u{2028}' || c == '\u{2029}' || c == '\u{202f}'
        || c == '\u{205f}' || c == '\u{3000}'
}

/// The maximal runs of characters that are not whitespace, in order.
pub open spec fn tokens(s: Seq<char>) -> Seq<Seq<char>>
    decreases s.len(),
{
    if s.len() == 0 {
        Seq::empty()
    } else {
        let prev = tokens(s.drop_last());
        let c = s.last();
        if is_white(c) {
            prev
        } else if s.len() >= 2 && !is_white(s[s.len() - 2]) {
            prev.drop_last().push(prev.last().push(c))
        } else {
            prev.push(seq![c])
        }
    }
}

/// The value of a hexadecimal digit, or -1 for another character.
pub open spec fn hex_digit_value(c: char) -> int {
    if '0' <= c && c <= '9' {
        c as int - '0' as int
    } else if 'a' <= c && c <= 'f' {
        c as int - 'a' as int + 10
    } else if 'A' <= c && c <= 'F' {
        c as int - 'A' as int + 10
    } else {
        -1
    }
}

/// The number that hexadecimal digits spell.
pub open spec fn digits_value(t: Seq<char>) -> int
    decreases t.len(),
{
    if t.len() == 0 {
        0
    } else {
        digits_value(t.drop_last()) * 16 + hex_digit_value(t.last())
    }
}

/// A token without its leading `+`, if it has one and more.
pub open spec fn after_sign(t: Seq<char>) -> Seq<char> {
    if t.len() > 1 && t[0] == '+' {
        t.drop_first()
    } else {
        t
    }
}

/// Every character is a hexadecimal digit.
pub open spec fn all_hex_digits(d: Seq<char>) -> bool {
    forall|i: int| 0 <= i < d.len() ==> hex_digit_value(#[trigger] d[i]) >= 0
}

/// The byte that a token spells in hexadecimal, as `u8::from_str_radix` reads
/// it: an optional `+`, then at least one digit, with a value below 256.
pub open spec fn hex_byte(t: Seq<char>) -> Option<u8> {
    let digits = after_sign(t);
    if digits.len() == 0 || t == seq!['+'] || !all_hex_digits(digits) || digits_value(digits) > 255 {
        None
    } else {
        Some(digits_value(digits) as u8)
    }
}

/// The bytes of the tokens, or `None` if one of them spells no byte.
pub open spec fn hex_bytes(ts: Seq<Seq<char>>) -> Option<Seq<u8>>
    decreases ts.len(),
{
    if ts.len() == 0 {
        Some(Seq::empty())
    } else {
        match hex_bytes(ts.drop_last()) {
            None => None,
            Some(b) => match hex_byte(ts.last()) {
                None => None,
                Some(x) => Some(b.push(x)),
            },
        }
    }
}

/// Whether `c` is whitespace.
fn is_white_char(c: char) -> (r: bool)
    ensures
        r == is_white(c),
{
    c == ' ' || ('\t' <= c && c <= '\r') || c == '\u{85}' || c == '\u{a0}' || c == '\u{1680}' || (
    '\u{2000}' <= c && c <= '\u{200a}') || c == '\u{2028}' || c == '\u{2029}' || c == '\u{202f}'
        || c == '\u{205f}' || c == '\u{3000}'
}

/// The value of a hexadecimal digit.
fn digit_value(c: char) -> (r: Option<u32>)
    ensures
        match r {
            Some(v) => v as int == hex_digit_value(c) && v < 16,
            None => hex_digit_value(c) < 0,
        },
{
    if '0' <= c && c <= '9' {
        Some((c as u32) - ('0' as u32))
    } else if 'a' <= c && c <= 'f' {
        Some((c as u32) - ('a' as u32) + 10)
    } else if 'A' <= c && c <= 'F' {
        Some((c as u32) - ('A' as u32) + 10)
    } else {
        None
    }
}

/// The byte that a token spells in hexadecimal.
fn parse_hex_byte(token: &Vec<char>) -> (r: Option<u8>)
    ensures
        r == hex_byte(token@),
{
    let ghost t = token@;
    let start: usize = if token.len() > 1 && token[0] == '+' {
        1
    } else {
        0
    };
    let ghost digits = after_sign(t);
    if token.len() == start {
        proof {
            assert(digits.len() == 0);
        }
        return None;
    }
    if token.len() == 1 && token[0] == '+' {
        proof {
            assert(t =~= seq!['+']);
        }
        return None;
    }
    let mut value: u32 = 0;
    let mut i: usize = start;
    while i < token.len()
        invariant
            t == token@,
            start <= i <= t.len(),
            digits == t.subrange(start as int, t.len() as int),
            digits == after_sign(t),
            value as int == digits_value(t.subrange(start as int, i as int)),
            value <= 255,
            forall|k: int| start <= k < i ==> hex_digit_value(#[trigger] t[k]) >= 0,
        decreases t.len() - i,
    {
        let ghost pre = t.subrange(start as int, i as int);
        assert(t.subrange(start as int, i + 1).drop_last() =~= pre);
        match digit_value(token[i]) {
            None => {
                proof {
                    assert(digits[i - start] == t[i as int]);
                    assert(hex_digit_value(digits[i - start]) < 0);
                    assert(!all_hex_digits(digits));
                    assert(digits.len() > 0);
                }
                return None;
            },
            Some(d) => {
                proof {
                    assert(digits.subrange(0, i + 1 - start) =~= t.subrange(start as int, i + 1));
                    assert(digits_value(t.subrange(start as int, i + 1)) == value * 16 + d);
                    assert forall|k: int| 0 <= k < i + 1 - start implies hex_digit_value(#[trigger] digits[k]) >= 0 by {
                        assert(digits[k] == t[k + start]);
                    }
                }
                if value > 15 {
                    proof {
                        assert(value * 16 + d > 255);
                        lemma_digits_value_grows(digits, i + 1 - start);
                    }
                    return None;
                }
                value = value * 16 + d;
                if value > 255 {
                    proof {
                        lemma_digits_value_grows(digits, i + 1 - start);
                    }
                    return None;
                }
            },
        }
        i = i + 1;
    }
    proof {
        assert(t.subrange(start as int, i as int) =~= digits);
        assert forall|k: int| 0 <= k < digits.len() implies hex_digit_value(#[trigger] digits[k]) >= 0 by {
            assert(digits[k] == t[k + start]);
        }
        assert(t != seq!['+']);
    }
    Some(value as u8)
}

/// A prefix of digits that spells more than 255 leaves the whole above 255.
proof fn lemma_digits_value_grows(digits: Seq<char>, n: int)
    requires
        0 <= n <= digits.len(),
        digits_value(digits.subrange(0, n)) > 255,
        forall|k: int| 0 <= k < n ==> hex_digit_value(#[trigger] digits[k]) >= 0,
    ensures
        digits_value(digits) > 255 || !all_hex_digits(digits),
    decreases digits.len() - n,
{
    if n < digits.len() {
        if hex_digit_value(digits[n]) >= 0 {
            assert(digits.subrange(0, n + 1).drop_last() =~= digits.subrange(0, n));
            lemma_digits_value_grows(digits, n + 1);
        }
    } else {
        assert(digits.subrange(0, n) =~= digits);
    }
}


/// Adding a token to those read so far.
proof fn lemma_hex_bytes_push(done: Seq<Seq<char>>, t: Seq<char>)
    ensures
        hex_bytes(done.push(t)) == match hex_bytes(done) {
            None => None,
            Some(b) => match hex_byte(t) {
                None => None,
                Some(x) => Some(b.push(x)),
            },
        },
{
    assert(done.push(t).drop_last() =~= done);
}

/// The bytes that the whitespace-separated tokens of `hex_string` spell in
/// hexadecimal, or `None` if one of them spells no byte.
pub fn convert_hex_string_to_vec(hex_string: &str) -> (r: Option<Vec<u8>>)
    ensures
        match r {
            Some(v) => hex_bytes(tokens(hex_string@)) == Some(v@),
            None => hex_bytes(tokens(hex_string@)) is None,
        },
{
    let chars = line_chars(hex_string);
    let ghost s = chars@;
    let mut bytes: Vec<u8> = Vec::new();
    let mut token: Vec<char> = Vec::new();
    let mut failed = false;
    let ghost mut done: Seq<Seq<char>> = Seq::empty();
    let mut i: usize = 0;
    while i < chars.len()
        invariant
            s == chars@,
            i <= s.len(),
            tokens(s.subrange(0, i as int)) == if token@.len() > 0 {
                done.push(token@)
            } else {
                done
            },
            token@.len() > 0 ==> i > 0 && !is_white(s[i - 1]),
            token@.len() == 0 ==> i == 0 || is_white(s[i - 1]),
            failed ==> hex_bytes(done) is None,
            !failed ==> hex_bytes(done) == Some(bytes@),
        decreases s.len() - i,
    {
        let c = chars[i];
        let ghost prev = s.subrange(0, i as int);
        proof {
            assert(s.subrange(0, i + 1).drop_last() =~= prev);
            assert(s.subrange(0, i + 1).last() == c);
        }
        if is_white_char(c) {
            if token.len() > 0 {
                proof {
                    lemma_hex_bytes_push(done, token@);
                }
                match parse_hex_byte(&token) {
                    None => {
                        failed = true;
                    },
                    Some(b) => {
                        if !failed {
                            bytes.push(b);
                        }
                    },
                }
                proof {
                    done = done.push(token@);
                }
                token = Vec::new();
            }
        } else {
            let ghost old_token = token@;
            token.push(c);
            proof {
                let s1 = s.subrange(0, i + 1);
                if old_token.len() > 0 {
                    assert(i >= 1 && s1[i - 1] == s[i - 1]);
                    let pt = done.push(old_token);
                    assert(tokens(s1) == pt.drop_last().push(pt.last().push(c)));
                    assert(pt.drop_last().push(pt.last().push(c)) =~= done.push(token@));
                } else {
                    if i >= 1 {
                        assert(s1[i - 1] == s[i - 1]);
                    }
                    assert(tokens(s1) == done.push(seq![c]));
                    assert(token@ =~= seq![c]);
                }
            }
        }
        i = i + 1;
    }
    proof {
        assert(s.subrange(0, s.len() as int) =~= s);
    }
    if token.len() > 0 {
        proof {
            lemma_hex_bytes_push(done, token@);
        }
        match parse_hex_byte(&token) {
            None => {
                failed = true;
            },
            Some(b) => {
                if !failed {
                    bytes.push(b);
                }
            },
        }
    }
    if failed {
        None
    } else {
        Some(bytes)
    }
}

} // verus!
