//! Digits as text: decimal and hexadecimal rendering, and the reading of
//! hexadecimal key codes.
use vstd::prelude::*;

verus! {

/// The character of a digit below 16: `0`..`9`, then `a`..`f`.
pub open spec fn hex_char(d: nat) -> char {
    if d < 10 {
        (48 + d) as char
    } else {
        (87 + d) as char
    }
}

/// The value of a hexadecimal digit in either case, or `None`.
pub open spec fn hex_digit_value(c: char) -> Option<nat> {
    if '0' <= c && c <= '9' {
        Some((c as nat - 48) as nat)
    } else if 'a' <= c && c <= 'f' {
        Some((c as nat - 87) as nat)
    } else if 'A' <= c && c <= 'F' {
        Some((c as nat - 55) as nat)
    } else {
        None
    }
}

/// Every character is a hexadecimal digit.
pub open spec fn is_hex_text(d: Seq<char>) -> bool {
    forall|i: int| 0 <= i < d.len() ==> (#[trigger] hex_digit_value(d[i])) is Some
}

/// The number the hexadecimal digits `d` denote (most significant first).
pub open spec fn hex_text_value(d: Seq<char>) -> nat
    decreases d.len(),
{
    if d.len() == 0 {
        0
    } else {
        hex_text_value(d.drop_last()) * 16 + match hex_digit_value(d.last()) {
            Some(v) => v,
            None => 0,
        }
    }
}

/// The text with every leading `0x` removed (`0x0x1f` becomes `1f`).
pub open spec fn strip_hex_prefix(s: Seq<char>) -> Seq<char>
    decreases s.len(),
{
    if s.len() >= 2 && s[0] == '0' && s[1] == 'x' {
        strip_hex_prefix(s.skip(2))
    } else {
        s
    }
}

/// Reading `t` as a base-16 `u32`: an optional `+`, then one or more
/// hexadecimal digits whose value fits in 32 bits; `None` for anything else.
pub open spec fn hex_u32(t: Seq<char>) -> Option<u32> {
    if t.len() == 0 {
        None
    } else if (t[0] == '+' || t[0] == '-') && t.len() == 1 {
        None
    } else {
        let digits = if t[0] == '+' {
            t.drop_first()
        } else {
            t
        };
        if is_hex_text(digits) && hex_text_value(digits) <= u32::MAX {
            Some(hex_text_value(digits) as u32)
        } else {
            None
        }
    }
}

/// The key code a text denotes: the base-16 number after the leading `0x`
/// prefixes, and 0 where there is none.
pub open spec fn hex_code_value(s: Seq<char>) -> u32 {
    match hex_u32(strip_hex_prefix(s)) {
        Some(v) => v,
        None => 0,
    }
}

/// Digit `i` (0 is the most significant) of the eight hex digits of `v`.
pub open spec fn hex_nibble(v: u32, i: int) -> u32 {
    (v >> ((28 - 4 * i) as u32)) & 0xf
}

/// The eight lowercase hexadecimal digits of `v`, zero padded.
pub open spec fn hex8(v: u32) -> Seq<char> {
    Seq::new(8, |i: int| hex_char(hex_nibble(v, i) as nat))
}

/// `0x` followed by the eight lowercase hex digits of `v`.
pub open spec fn key_code_text(v: u32) -> Seq<char> {
    seq!['0', 'x'] + hex8(v)
}

/// The decimal digits of `n`, without leading zeros.
pub open spec fn decimal_text(n: nat) -> Seq<char>
    decreases n,
{
    if n < 10 {
        seq![hex_char(n)]
    } else {
        decimal_text(n / 10).push(hex_char(n % 10))
    }
}

/// The one-character text of a digit below 16.
fn digit_str(d: u8) -> (r: &'static str)
    requires
        d < 16,
    ensures
        r@ == seq![hex_char(d as nat)],
{
    match d {
        0 => {
            proof {
                reveal_strlit("0");
            }
            "0"
        },
        1 => {
            proof {
                reveal_strlit("1");
            }
            "1"
        },
        2 => {
            proof {
                reveal_strlit("2");
            }
            "2"
        },
        3 => {
            proof {
                reveal_strlit("3");
            }
            "3"
        },
        4 => {
            proof {
                reveal_strlit("4");
            }
            "4"
        },
        5 => {
            proof {
                reveal_strlit("5");
            }
            "5"
        },
        6 => {
            proof {
                reveal_strlit("6");
            }
            "6"
        },
        7 => {
            proof {
                reveal_strlit("7");
            }
            "7"
        },
        8 => {
            proof {
                reveal_strlit("8");
            }
            "8"
        },
        9 => {
            proof {
                reveal_strlit("9");
            }
            "9"
        },
        10 => {
            proof {
                reveal_strlit("a");
            }
            "a"
        },
        11 => {
            proof {
                reveal_strlit("b");
            }
            "b"
        },
        12 => {
            proof {
                reveal_strlit("c");
            }
            "c"
        },
        13 => {
            proof {
                reveal_strlit("d");
            }
            "d"
        },
        14 => {
            proof {
                reveal_strlit("e");
            }
            "e"
        },
        _ => {
            proof {
                reveal_strlit("f");
            }
            "f"
        },
    }
}

/// Appends the decimal digits of `v` to `s`.
pub fn push_decimal(s: &mut String, v: u8)
    ensures
        final(s)@ == old(s)@ + decimal_text(v as nat),
{
    proof {
        reveal_with_fuel(decimal_text, 3);
    }
    if v >= 100 {
        s.append(digit_str(v / 100));
        s.append(digit_str(v / 10 % 10));
        s.append(digit_str(v % 10));
    } else if v >= 10 {
        s.append(digit_str(v / 10));
        s.append(digit_str(v % 10));
    } else {
        s.append(digit_str(v));
    }
}

/// The text `0x` and the eight lowercase hex digits of `v`, the form in
/// which key codes are written.
pub fn format_key_code(v: u32) -> (s: String)
    ensures
        s@ == key_code_text(v),
{
    let mut s = String::from_str("0x");
    proof {
        reveal_strlit("0x");
    }
    let mut i: u32 = 0;
    while i < 8
        invariant
            i <= 8,
            s@ == seq!['0', 'x'] + hex8(v).take(i as int),
        decreases 8 - i,
    {
        let shift: u32 = 28 - 4 * i;
        let d: u32 = (v >> shift) & 0xf;
        assert(d < 16) by (bit_vector)
            requires
                d == (v >> shift) & 0xf,
        ;
        assert(d == hex_nibble(v, i as int));
        s.append(digit_str(d as u8));
        assert(hex8(v).take(i as int + 1) =~= hex8(v).take(i as int).push(hex8(v)[i as int]));
        i = i + 1;
    }
    assert(hex8(v).take(8) =~= hex8(v));
    s
}

/// Reading back a written key code gives the code: `hex_code_value` undoes
/// `key_code_text`.
pub proof fn lemma_key_code_roundtrip(v: u32)
    ensures
        hex_code_value(key_code_text(v)) == v,
{
    let h = hex8(v);
    let t = key_code_text(v);
    assert(t.skip(2) =~= h);
    assert forall|i: int| 0 <= i < 8 implies hex_digit_value(#[trigger] h[i]) == Some(
        hex_nibble(v, i) as nat,
    ) by {
        let d = hex_nibble(v, i);
        let sh = (28 - 4 * i) as u32;
        assert(d < 16) by (bit_vector)
            requires
                d == (v >> sh) & 0xf,
        ;
    }
    assert(h[1] != 'x');
    assert(strip_hex_prefix(h) == h);
    assert(strip_hex_prefix(t) == h);
    assert(is_hex_text(h));
    let n0 = (v >> 28u32) & 0xf;
    let n1 = (v >> 24u32) & 0xf;
    let n2 = (v >> 20u32) & 0xf;
    let n3 = (v >> 16u32) & 0xf;
    let n4 = (v >> 12u32) & 0xf;
    let n5 = (v >> 8u32) & 0xf;
    let n6 = (v >> 4u32) & 0xf;
    let n7 = (v >> 0u32) & 0xf;
    assert(hex_nibble(v, 0) == n0);
    assert(hex_nibble(v, 1) == n1);
    assert(hex_nibble(v, 2) == n2);
    assert(hex_nibble(v, 3) == n3);
    assert(hex_nibble(v, 4) == n4);
    assert(hex_nibble(v, 5) == n5);
    assert(hex_nibble(v, 6) == n6);
    assert(hex_nibble(v, 7) == n7);
    assert(h.take(0).len() == 0);
    assert forall|k: int| 0 < k <= 8 implies #[trigger] h.take(k).drop_last() =~= h.take(k - 1)
        && h.take(k).last() == h[k - 1] by {}
    assert(hex_text_value(h.take(0)) == 0);
    assert(hex_text_value(h.take(1)) == n0);
    assert(hex_text_value(h.take(2)) == n0 * 16 + n1);
    assert(hex_text_value(h.take(3)) == (n0 * 16 + n1) * 16 + n2);
    assert(hex_text_value(h.take(4)) == ((n0 * 16 + n1) * 16 + n2) * 16 + n3);
    assert(hex_text_value(h.take(5)) == (((n0 * 16 + n1) * 16 + n2) * 16 + n3) * 16 + n4);
    assert(hex_text_value(h.take(6)) == ((((n0 * 16 + n1) * 16 + n2) * 16 + n3) * 16 + n4) * 16
        + n5);
    assert(hex_text_value(h.take(7)) == (((((n0 * 16 + n1) * 16 + n2) * 16 + n3) * 16 + n4) * 16
        + n5) * 16 + n6);
    assert(hex_text_value(h.take(8)) == ((((((n0 * 16 + n1) * 16 + n2) * 16 + n3) * 16 + n4) * 16
        + n5) * 16 + n6) * 16 + n7);
    assert(((((((((v >> 28u32) & 0xf) * 16 + ((v >> 24u32) & 0xf)) * 16 + ((v >> 20u32) & 0xf))
        * 16 + ((v >> 16u32) & 0xf)) * 16 + ((v >> 12u32) & 0xf)) * 16 + ((v >> 8u32) & 0xf)) * 16
        + ((v >> 4u32) & 0xf)) * 16 + ((v >> 0u32) & 0xf) == v) by (bit_vector);
    assert(h.take(8) =~= h);
}

/// The uppercase character of a digit below 16: `0`..`9`, then `A`..`F`.
pub open spec fn upper_hex_char(d: nat) -> char {
    if d < 10 {
        (48 + d) as char
    } else {
        (55 + d) as char
    }
}

/// The uppercase hexadecimal digits of `n`, without leading zeros (`0` for 0).
pub open spec fn upper_hex_text(n: nat) -> Seq<char>
    decreases n,
{
    if n < 16 {
        seq![upper_hex_char(n)]
    } else {
        upper_hex_text(n / 16).push(upper_hex_char(n % 16))
    }
}

/// The uppercase digits of `n` are hexadecimal text of value `n`, and the
/// first one is a digit.
proof fn lemma_upper_hex_value(n: nat)
    ensures
        is_hex_text(upper_hex_text(n)),
        hex_text_value(upper_hex_text(n)) == n,
        upper_hex_text(n).len() >= 1,
        hex_digit_value(upper_hex_text(n)[0]) is Some,
    decreases n,
{
    let t = upper_hex_text(n);
    if n >= 16 {
        lemma_upper_hex_value(n / 16);
        let d = upper_hex_text(n / 16);
        assert(t.drop_last() =~= d);
        assert(t[0] == d[0]);
        assert(t.last() == upper_hex_char(n % 16));
        assert(hex_digit_value(upper_hex_char(n % 16)) == Some(n % 16));
        assert(n == (n / 16) * 16 + n % 16);
        assert(hex_text_value(t) == hex_text_value(d) * 16 + n % 16);
        assert forall|i: int| 0 <= i < t.len() implies (#[trigger] hex_digit_value(t[i])) is Some by {
            if i < d.len() {
                assert(t[i] == d[i]);
            }
        }
    } else {
        assert(hex_digit_value(upper_hex_char(n)) == Some(n));
        assert(t.drop_last().len() == 0);
        assert(hex_text_value(t) == hex_text_value(t.drop_last()) * 16 + n);
    }
}

/// Reading uppercase hexadecimal without padding or prefix (the `{:X}` form)
/// gives back any 32-bit code.
pub proof fn lemma_upper_hex_roundtrip(v: u32)
    ensures
        hex_code_value(upper_hex_text(v as nat)) == v,
{
    let t = upper_hex_text(v as nat);
    lemma_upper_hex_value(v as nat);
    if t.len() >= 2 {
        assert(hex_digit_value(t[1]) is Some);
    }
    assert(strip_hex_prefix(t) == t);
}

} // verus!
