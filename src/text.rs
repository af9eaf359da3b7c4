//! Building text: decimal digits and zero padding.

use vstd::prelude::*;

verus! {

/// The character of decimal digit `d`.
pub open spec fn digit_char(d: nat) -> char {
    ((48 + d) as u8) as char
}

/// The decimal digits of `n`, most significant first, without leading zeros.
pub open spec fn digits(n: nat) -> Seq<char>
    decreases n,
{
    if n < 10 {
        seq![digit_char(n)]
    } else {
        digits(n / 10).push(digit_char(n % 10))
    }
}

/// The digits of `n`, with `fill` in front up to `width` characters.
pub open spec fn filled(n: nat, width: nat, fill: char) -> Seq<char> {
    let d = digits(n);
    if d.len() >= width {
        d
    } else {
        Seq::new((width - d.len()) as nat, |i: int| fill) + d
    }
}

/// The digits of `n`, with zeros in front up to `width` characters.
pub open spec fn padded(n: nat, width: nat) -> Seq<char> {
    filled(n, width, '0')
}

/// The digits of `n`, right-aligned in `width` characters.
pub open spec fn aligned(n: nat, width: nat) -> Seq<char> {
    filled(n, width, ' ')
}

/// Relies on `String::push`: appends one character.
#[verifier::external_body]
pub fn push_char(s: &mut String, c: char)
    ensures
        final(s)@ == old(s)@.push(c),
{
    s.push(c);
}

/// Appends `t`.
pub fn push_str(s: &mut String, t: &str)
    ensures
        final(s)@ == old(s)@ + t@,
{
    s.append(t);
}

/// Appends the decimal digits of `n`.
pub fn push_digits(s: &mut String, n: u64)
    ensures
        final(s)@ == old(s)@ + digits(n as nat),
    decreases n,
{
    if n >= 10 {
        push_digits(s, n / 10);
    }
    let d = (n % 10) as u8;
    push_char(s, (48u8 + d) as char);
    proof {
        assert(final(s)@ =~= old(s)@ + digits(n as nat));
    }
}

/// Appends the decimal digits of `n`, zero-padded to `width` characters.
pub fn push_padded(s: &mut String, n: u64, width: usize)
    ensures
        final(s)@ == old(s)@ + padded(n as nat, width as nat),
{
    push_filled(s, n, width, '0');
}

/// Appends the decimal digits of `n`, right-aligned in `width` characters.
pub fn push_aligned(s: &mut String, n: u64, width: usize)
    ensures
        final(s)@ == old(s)@ + aligned(n as nat, width as nat),
{
    push_filled(s, n, width, ' ');
}

/// Appends the decimal digits of `n`, with `fill` in front up to `width` characters.
pub fn push_filled(s: &mut String, n: u64, width: usize, fill: char)
    ensures
        final(s)@ == old(s)@ + filled(n as nat, width as nat, fill),
{
    let mut t = String::new();
    push_digits(&mut t, n);
    let len = t.as_str().unicode_len();
    let ghost start = s@;
    if len < width {
        let mut i: usize = len;
        while i < width
            invariant
                len <= i <= width,
                s@ == start + Seq::new((i - len) as nat, |j: int| fill),
            decreases width - i,
        {
            push_char(s, fill);
            assert(s@ =~= start + Seq::new((i + 1 - len) as nat, |j: int| fill));
            i = i + 1;
        }
    }
    push_str(s, t.as_str());
    assert(s@ =~= start + filled(n as nat, width as nat, fill));
}


/// The UTF-8 encoding of `s`.
pub uninterp spec fn utf8_encoding(s: Seq<char>) -> Seq<u8>;

/// Relies on `String::into_bytes`: the UTF-8 encoding of the string, which
/// `std::str::from_utf8` reads back as the same string.
#[verifier::external_body]
pub fn into_bytes(s: String) -> (r: Vec<u8>)
    ensures
        r@ == utf8_encoding(s@),
        utf8_decoding(r@) == Some(s@),
{
    s.into_bytes()
}


/// The text of UTF-8 bytes `b`, if they are valid UTF-8.
pub uninterp spec fn utf8_decoding(b: Seq<u8>) -> Option<Seq<char>>;

/// Relies on `std::str::from_utf8`: the string that valid UTF-8 bytes spell.
#[verifier::external_body]
pub fn decode_utf8(b: &[u8]) -> (r: Option<&str>)
    ensures
        match r {
            Some(t) => utf8_decoding(b@) == Some(t@),
            None => utf8_decoding(b@) is None,
        },
{
    std::str::from_utf8(b).ok()
}

} // verus!
