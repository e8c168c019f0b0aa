use vstd::prelude::*;
use vstd::std_specs::iter::IteratorSpec;
use vstd::utf8::{valid_utf8, decode_utf8};

verus! {

/// Calls `std::str::from_utf8`. Its documentation says the call succeeds exactly when the
/// bytes are well-formed UTF-8 and that the resulting `str` holds the decoded characters;
/// this contract says the same over vstd's `valid_utf8` and `decode_utf8`.
#[verifier::external_body]
pub(crate) fn utf8_str(bytes: &[u8]) -> (r: Option<&str>)
    ensures
        r is Some <==> valid_utf8(bytes@),
        r matches Some(s) ==> s@ == decode_utf8(bytes@),
{
    std::str::from_utf8(bytes).ok()
}

/// Calls `<[u8; N] as TryFrom<&[u8]>>::try_from`, which copies a slice of length `N` into an
/// array; the contract claims the array holds the same bytes.
#[verifier::external_body]
pub(crate) fn slice_to_array<const N: usize>(bytes: &[u8]) -> (r: [u8; N])
    requires
        bytes@.len() == N,
    ensures
        r@ == bytes@,
{
    <[u8; N]>::try_from(bytes).unwrap()
}


/// The characters of a string, in order.
pub(crate) fn str_chars(s: &str) -> (v: Vec<char>)
    ensures v@ == s@,
{
    broadcast use vstd::string::group_string_axioms;
    let mut it = s.chars();
    let mut v: Vec<char> = Vec::new();
    loop
        invariant
            v@ + it.remaining() == s@,
            it.decrease() is Some,
        ensures
            v@ == s@,
        decreases it.decrease()->0,
    {
        let ghost before = it.remaining();
        match it.next() {
            Some(c) => {
                v.push(c);
                proof { assert(v@ + it.remaining() =~= s@) by { assert(before == seq![c] + it.remaining()); } }
            },
            None => {
                proof { assert(v@ =~= s@); }
                break;
            },
        }
    }
    v
}

/// Calls `String::from_iter` on the characters; the contract claims the string holds exactly
/// those characters, in order.
#[verifier::external_body]
pub(crate) fn string_from_chars(chars: Vec<char>) -> (s: String)
    ensures s@ == chars@,
{
    String::from_iter(chars)
}

/// The lowercase hexadecimal digit for `d < 16`.
pub open spec fn hex_digit(d: nat) -> char {
    if d < 10 { (0x30 + d) as char } else { (0x61 + d - 10) as char }
}

/// The decimal digit for `d < 10`.
pub open spec fn dec_digit(d: nat) -> char {
    (0x30 + d) as char
}

/// `x` in lowercase hexadecimal, left-padded with zeros to `width` digits (the low `width` digits).
pub open spec fn hex_fixed(x: nat, width: nat) -> Seq<char>
    decreases width,
{
    if width == 0 { Seq::empty() } else { hex_fixed(x / 16, (width - 1) as nat).push(hex_digit(x % 16)) }
}

/// `x` in decimal without leading zeros.
pub open spec fn dec_text(x: nat) -> Seq<char>
    decreases x,
{
    if x < 10 { seq![dec_digit(x)] } else { dec_text(x / 10).push(dec_digit(x % 10)) }
}

/// Signed decimal text.
pub open spec fn int_text(x: int) -> Seq<char> {
    if x < 0 { seq!['-'] + dec_text((-x) as nat) } else { dec_text(x as nat) }
}

fn hex_char(d: u64) -> (c: char)
    requires d < 16,
    ensures c == hex_digit(d as nat),
{
    if d < 10 { ((0x30 + d) as u8) as char } else { ((0x61 + d - 10) as u8) as char }
}

/// Appends `x` in lowercase hexadecimal, zero-padded to `width` digits.
pub fn push_hex_fixed(out: &mut Vec<char>, x: u64, width: usize)
    requires width <= 16,
    ensures final(out)@ == old(out)@ + hex_fixed(x as nat, width as nat),
    decreases width,
{
    if width > 0 {
        push_hex_fixed(out, x / 16, width - 1);
        out.push(hex_char(x % 16));
        proof { assert(final(out)@ =~= old(out)@ + hex_fixed(x as nat, width as nat)); }
    } else {
        proof { assert(out@ =~= old(out)@ + hex_fixed(x as nat, width as nat)); }
    }
}

/// Appends `x` in decimal.
pub fn push_dec(out: &mut Vec<char>, x: u64)
    ensures final(out)@ == old(out)@ + dec_text(x as nat),
    decreases x,
{
    if x >= 10 {
        push_dec(out, x / 10);
    }
    out.push(((0x30 + x % 10) as u8) as char);
    proof { assert(final(out)@ =~= old(out)@ + dec_text(x as nat)); }
}

/// Appends `x` in signed decimal.
pub fn push_int(out: &mut Vec<char>, x: i64)
    ensures final(out)@ == old(out)@ + int_text(x as int),
{
    if x < 0 {
        out.push('-');
        let mag: u64 = if x == i64::MIN { 0x8000_0000_0000_0000 } else { (-x) as u64 };
        push_dec(out, mag);
        proof { assert(final(out)@ =~= old(out)@ + int_text(x as int)); }
    } else {
        push_dec(out, x as u64);
    }
}

/// Appends the characters of `s`.
pub fn push_str(out: &mut Vec<char>, s: &str)
    ensures final(out)@ == old(out)@ + s@,
{
    let chars = str_chars(s);
    let mut i: usize = 0;
    while i < chars.len()
        invariant
            0 <= i <= chars@.len(),
            chars@ == s@,
            out@ == old(out)@ + chars@.take(i as int),
        decreases chars@.len() - i,
    {
        out.push(chars[i]);
        i = i + 1;
        proof { assert(chars@.take(i as int) =~= chars@.take(i - 1).push(chars@[i - 1])); }
    }
    proof { assert(chars@.take(i as int) =~= chars@); }
}


/// What `String::from_utf8_lossy` makes of `bytes`: the decoded text, each ill-formed
/// sequence replaced by U+FFFD.
pub uninterp spec fn utf8_lossy(bytes: Seq<u8>) -> Seq<char>;

/// Calls `String::from_utf8_lossy`. The contract names its result, and states what its
/// documentation says of well-formed input: the text is then decoded unchanged.
#[verifier::external_body]
pub(crate) fn lossy_text(bytes: &[u8]) -> (s: String)
    ensures
        s@ == utf8_lossy(bytes@),
        vstd::utf8::valid_utf8(bytes@) ==> s@ == vstd::utf8::decode_utf8(bytes@),
{
    String::from_utf8_lossy(bytes).into_owned()
}


/// Whether two strings hold the same characters.
pub fn str_equal(a: &str, b: &str) -> (r: bool)
    ensures r == (a@ == b@),
{
    let x = str_chars(a);
    let y = str_chars(b);
    if x.len() != y.len() {
        return false;
    }
    let mut i: usize = 0;
    while i < x.len()
        invariant
            0 <= i <= x@.len(),
            x@ == a@,
            y@ == b@,
            x@.len() == y@.len(),
            forall|j: int| 0 <= j < i ==> x@[j] == y@[j],
        decreases x@.len() - i,
    {
        if x[i] != y[i] {
            return false;
        }
        i = i + 1;
    }
    proof { assert(x@ =~= y@); }
    true
}

} // verus!
