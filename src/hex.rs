//! Hexadecimal text for object addresses.

use vstd::prelude::*;

verus! {

/// Whether `c` is a hexadecimal digit, in either case.
pub open spec fn is_hex_char(c: char) -> bool {
    ('0' <= c && c <= '9') || ('a' <= c && c <= 'f') || ('A' <= c && c <= 'F')
}

/// The value of the hexadecimal digit `c`.
pub open spec fn hex_value(c: char) -> nat {
    if '0' <= c && c <= '9' {
        (c as nat - '0' as nat) as nat
    } else if 'a' <= c && c <= 'f' {
        (c as nat - 'a' as nat + 10) as nat
    } else {
        (c as nat - 'A' as nat + 10) as nat
    }
}

/// Text made of an even number of hexadecimal digits.
pub open spec fn is_hex_text(s: Seq<char>) -> bool {
    &&& s.len() % 2 == 0
    &&& forall|i: int| 0 <= i < s.len() ==> is_hex_char(#[trigger] s[i])
}

/// The bytes that the hexadecimal text `s` spells, two digits for each byte.
pub open spec fn hex_decoded(s: Seq<char>) -> Seq<u8> {
    Seq::new(
        s.len() / 2,
        |i: int| (hex_value(s[2 * i]) * 16 + hex_value(s[2 * i + 1])) as u8,
    )
}

/// The lowercase hexadecimal digit for a value below 16, as an ASCII byte.
pub open spec fn hex_digit(n: u8) -> u8 {
    if n < 10 {
        (n + 48) as u8
    } else {
        (n + 87) as u8
    }
}

/// The lowercase hexadecimal text of `b` as ASCII bytes, high digit first.
pub open spec fn hex_of(b: Seq<u8>) -> Seq<u8> {
    Seq::new(
        2 * b.len(),
        |i: int|
            if i % 2 == 0 {
                hex_digit(b[i / 2] / 16)
            } else {
                hex_digit(b[i / 2] % 16)
            },
    )
}

fn hex_char_value(c: u8) -> (r: u8)
    requires
        is_hex_char(c as char),
    ensures
        r as nat == hex_value(c as char),
        r < 16,
{
    if c <= 57 {
        c - 48
    } else if c >= 97 {
        c - 87
    } else {
        c - 55
    }
}

fn digit_of(n: u8) -> (r: u8)
    requires
        n < 16,
    ensures
        r == hex_digit(n),
{
    if n < 10 {
        n + 48
    } else {
        n + 87
    }
}

/// Decodes hexadecimal text into the bytes it spells, two digits for each byte.
pub fn hex_to_bytes(hex: &str) -> (r: Vec<u8>)
    requires
        is_hex_text(hex@),
    ensures
        r@ == hex_decoded(hex@),
{
    proof {
        broadcast use vstd::string::is_ascii_spec_bytes;
        assert(vstd::string::is_ascii(hex));
    }
    let bytes = hex.as_bytes();
    assert(bytes@ =~= Seq::new(hex@.len(), |i| hex@[i] as u8));
    let n: usize = bytes.len();
    let mut out: Vec<u8> = Vec::new();
    let mut i: usize = 0;
    while i < n / 2
        invariant
            n == hex@.len(),
            bytes@ == Seq::new(hex@.len(), |i| hex@[i] as u8),
            is_hex_text(hex@),
            i <= n / 2,
            out@ =~= hex_decoded(hex@).subrange(0, i as int),
        decreases n / 2 - i,
    {
        proof {
            let c0 = hex@[2 * i as int];
            let c1 = hex@[2 * i as int + 1];
            assert(is_hex_char(c0));
            assert(is_hex_char(c1));
            assert((c0 as u8) as char == c0);
            assert((c1 as u8) as char == c1);
        }
        let hi = hex_char_value(bytes[2 * i]);
        let lo = hex_char_value(bytes[2 * i + 1]);
        out.push(hi * 16 + lo);
        i = i + 1;
    }
    out
}

/// The lowercase hexadecimal text of `b`, as ASCII bytes.
pub fn bytes_to_hex(b: &[u8]) -> (r: Vec<u8>)
    requires
        b@.len() <= usize::MAX / 2,
    ensures
        r@ == hex_of(b@),
{
    let mut out: Vec<u8> = Vec::new();
    let mut i: usize = 0;
    while i < b.len()
        invariant
            b@.len() <= usize::MAX / 2,
            i <= b@.len(),
            out@ =~= hex_of(b@).subrange(0, 2 * i as int),
        decreases b@.len() - i,
    {
        out.push(digit_of(b[i] / 16));
        out.push(digit_of(b[i] % 16));
        i = i + 1;
    }
    out
}

} // verus!
