//! Hexadecimal text for binary hashes.

use vstd::prelude::*;

verus! {

/// The sixteen lower-case hexadecimal digits, in order of value.
pub open spec fn hex_digits() -> Seq<char> {
    seq!['0', '1', '2', '3', '4', '5', '6', '7', '8', '9', 'a', 'b', 'c', 'd', 'e', 'f']
}

/// Whether `c` is one of the digits `0`-`9`, `a`-`f`.
pub open spec fn is_lower_hex(c: char) -> bool {
    ('0' <= c && c <= '9') || ('a' <= c && c <= 'f')
}

/// The value of the hexadecimal digit `c`, in either case; `None` for any
/// other character.
pub open spec fn hex_value(c: char) -> Option<u8> {
    if '0' <= c && c <= '9' {
        Some((c as u32 - 48) as u8)
    } else if 'a' <= c && c <= 'f' {
        Some((c as u32 - 87) as u8)
    } else if 'A' <= c && c <= 'F' {
        Some((c as u32 - 55) as u8)
    } else {
        None
    }
}

/// The lower-case rendering of `bytes`: two digits for each byte, the high
/// half first.
pub open spec fn hex_of(bytes: Seq<u8>) -> Seq<char> {
    Seq::new(
        2 * bytes.len(),
        |i: int|
            if i % 2 == 0 {
                hex_digits()[bytes[i / 2] as int / 16]
            } else {
                hex_digits()[bytes[i / 2] as int % 16]
            },
    )
}

/// Whether `s` is hexadecimal text: an even number of hexadecimal digits.
pub open spec fn is_hex(s: Seq<char>) -> bool {
    s.len() % 2 == 0 && forall|i: int| 0 <= i < s.len() ==> (#[trigger] hex_value(s[i])) is Some
}

/// The bytes that hexadecimal text `s` stands for.
pub open spec fn bytes_of_hex(s: Seq<char>) -> Seq<u8> {
    Seq::new(
        s.len() / 2,
        |k: int| (16 * hex_value(s[2 * k])->0 as int + hex_value(s[2 * k + 1])->0 as int) as u8,
    )
}

/// Rendering bytes gives lower-case hexadecimal text, twice as long as the
/// bytes, and reading that text gives the bytes back.
pub proof fn lemma_render_then_read(bytes: Seq<u8>)
    ensures
        hex_of(bytes).len() == 2 * bytes.len(),
        forall|i: int| 0 <= i < hex_of(bytes).len() ==> is_lower_hex(#[trigger] hex_of(bytes)[i]),
        is_hex(hex_of(bytes)),
        bytes_of_hex(hex_of(bytes)) == bytes,
{
    let s = hex_of(bytes);
    assert forall|i: int| 0 <= i < s.len() implies is_lower_hex(#[trigger] s[i]) && hex_value(
        s[i],
    ) is Some && hex_value(s[i])->0 as int == (if i % 2 == 0 {
        bytes[i / 2] as int / 16
    } else {
        bytes[i / 2] as int % 16
    }) by {
        let b = bytes[i / 2] as int;
        let n = if i % 2 == 0 { b / 16 } else { b % 16 };
        assert(0 <= n < 16);
        assert(s[i] == hex_digits()[n]);
    }
    assert forall|k: int| 0 <= k < bytes.len() implies #[trigger] bytes_of_hex(s)[k] == bytes[k] by {
        assert(hex_value(s[2 * k])->0 as int == bytes[k] as int / 16);
        assert(hex_value(s[2 * k + 1])->0 as int == bytes[k] as int % 16);
    }
    assert(bytes_of_hex(s) =~= bytes);
}

/// Reading lower-case hexadecimal text and rendering the bytes gives the text
/// back.
pub proof fn lemma_read_then_render(s: Seq<char>)
    requires
        is_hex(s),
        forall|i: int| 0 <= i < s.len() ==> is_lower_hex(#[trigger] s[i]),
    ensures
        hex_of(bytes_of_hex(s)) == s,
{
    let bytes = bytes_of_hex(s);
    assert forall|i: int| 0 <= i < s.len() implies #[trigger] hex_of(bytes)[i] == s[i] by {
        let k = i / 2;
        let hi = hex_value(s[2 * k])->0 as int;
        let lo = hex_value(s[2 * k + 1])->0 as int;
        assert(is_lower_hex(s[2 * k]) && is_lower_hex(s[2 * k + 1]));
        assert(0 <= hi < 16 && 0 <= lo < 16);
        assert(bytes[k] as int == 16 * hi + lo);
        assert(hex_digits()[hi] == s[2 * k]);
        assert(hex_digits()[lo] == s[2 * k + 1]);
    }
    assert(hex_of(bytes) =~= s);
}

/// `String::push` appends the one character to the end of the string.
pub assume_specification[ String::push ](s: &mut String, c: char)
    ensures
        final(s)@ == old(s)@.push(c),
;

/// The lower-case digit for a value below sixteen.
pub fn lower_hex_digit(n: u8) -> (c: char)
    requires
        n < 16,
    ensures
        c == hex_digits()[n as int],
        is_lower_hex(c),
{
    if n < 10 {
        (48 + n) as char
    } else {
        (87 + n) as char
    }
}

/// The value of one hexadecimal digit given as an ASCII byte.
pub fn hex_digit_value(b: u8) -> (r: Option<u8>)
    ensures
        r == hex_value(b as char),
        r matches Some(n) ==> n < 16,
{
    if 48 <= b && b <= 57 {
        Some(b - 48)
    } else if 97 <= b && b <= 102 {
        Some(b - 87)
    } else if 65 <= b && b <= 70 {
        Some(b - 55)
    } else {
        None
    }
}

/// Renders `bytes` as lower-case hexadecimal text.
pub fn to_hex(bytes: &[u8]) -> (s: String)
    ensures
        s@ == hex_of(bytes@),
        s@.len() == 2 * bytes@.len(),
        forall|i: int| 0 <= i < s@.len() ==> is_lower_hex(#[trigger] s@[i]),
{
    let mut s = String::new();
    let mut i: usize = 0;
    while i < bytes.len()
        invariant
            i <= bytes.len(),
            s@ == hex_of(bytes@).take(2 * i),
        decreases bytes.len() - i,
    {
        let b: u8 = bytes[i];
        let hi = lower_hex_digit(b / 16);
        let lo = lower_hex_digit(b % 16);
        s.push(hi);
        s.push(lo);
        proof {
            let full = hex_of(bytes@);
            assert(full[2 * i] == hi);
            assert(full[2 * i + 1] == lo);
            assert(s@ =~= full.take(2 * (i + 1)));
        }
        i += 1;
    }
    proof {
        lemma_render_then_read(bytes@);
        assert(hex_of(bytes@).take(2 * i) =~= hex_of(bytes@));
    }
    s
}

/// Reads hexadecimal text, in either case, into the bytes it stands for.
/// Text of odd length, or with any other character in it, is no hexadecimal
/// text.
pub fn from_hex(s: &str) -> (r: Option<Vec<u8>>)
    ensures
        r is Some <==> is_hex(s@),
        r matches Some(bytes) ==> bytes@ == bytes_of_hex(s@),
{
    if !s.is_ascii() {
        proof {
            let i = choose|i: int| 0 <= i < s@.len() && !('\0' <= #[trigger] s@[i] <= '\u{7f}');
            assert(hex_value(s@[i]) is None);
        }
        return None;
    }
    let text = s.as_bytes();
    proof {
        vstd::string::is_ascii_spec_bytes(s);
    }
    assert(text@.len() == s@.len());
    assert(forall|i: int| 0 <= i < s@.len() ==> text@[i] == #[trigger] s@[i] as u8);
    if text.len() % 2 != 0 {
        return None;
    }
    let mut out: Vec<u8> = Vec::new();
    let mut i: usize = 0;
    while i < text.len()
        invariant
            text@.len() == s@.len(),
            text@.len() % 2 == 0,
            forall|j: int| 0 <= j < s@.len() ==> text@[j] == #[trigger] s@[j] as u8,
            forall|j: int| 0 <= j < s@.len() ==> '\0' <= #[trigger] s@[j] <= '\u{7f}',
            i <= text@.len(),
            i % 2 == 0,
            out@.len() == i / 2,
            forall|j: int| 0 <= j < i ==> (#[trigger] hex_value(s@[j])) is Some,
            forall|j: int| 0 <= j < i / 2 ==> #[trigger] out@[j] == bytes_of_hex(s@)[j],
        decreases text@.len() - i,
    {
        let a: u8 = text[i];
        let b: u8 = text[i + 1];
        assert(a as char == s@[i as int]);
        assert(b as char == s@[i + 1]);
        match (hex_digit_value(a), hex_digit_value(b)) {
            (Some(hi), Some(lo)) => {
                out.push(16 * hi + lo);
            },
            _ => {
                return None;
            },
        }
        i += 2;
    }
    assert(out@ =~= bytes_of_hex(s@));
    Some(out)
}

} // verus!
