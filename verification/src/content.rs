//! Content inspection: the digest that addresses a blob, its hexadecimal
//! rendering, and the media-type sniff applied at commit time.

use vstd::prelude::*;

verus! {

/// One step of the rolling digest: the previous state times 33 plus the
/// next byte, modulo 2^64.
pub open spec fn digest_step(h: u64, b: u8) -> u64 {
    (((h as int) * 33 + (b as int)) % 0x1_0000_0000_0000_0000) as u64
}

/// The digest state after the first `i` bytes.
pub open spec fn digest_prefix(bytes: Seq<u8>, i: int) -> u64
    decreases i,
{
    if i <= 0 {
        5381u64
    } else {
        digest_step(digest_prefix(bytes, i - 1), bytes[i - 1])
    }
}

/// The 64-bit content digest of a byte sequence.
pub open spec fn content_digest(bytes: Seq<u8>) -> u64 {
    digest_prefix(bytes, bytes.len() as int)
}

/// The hexadecimal character for one digit value below 16.
pub open spec fn hex_digit(d: int) -> char {
    if d == 0 { '0' }
    else if d == 1 { '1' }
    else if d == 2 { '2' }
    else if d == 3 { '3' }
    else if d == 4 { '4' }
    else if d == 5 { '5' }
    else if d == 6 { '6' }
    else if d == 7 { '7' }
    else if d == 8 { '8' }
    else if d == 9 { '9' }
    else if d == 10 { 'a' }
    else if d == 11 { 'b' }
    else if d == 12 { 'c' }
    else if d == 13 { 'd' }
    else if d == 14 { 'e' }
    else { 'f' }
}

/// The low `digits` hexadecimal digits of `h`, most significant first.
pub open spec fn hex_seq(h: int, digits: nat) -> Seq<char>
    decreases digits,
{
    if digits == 0 {
        Seq::empty()
    } else {
        hex_seq(h / 16, (digits - 1) as nat).push(hex_digit(h % 16))
    }
}

/// The content hash stored for a blob: its digest as sixteen hexadecimal
/// characters.
pub open spec fn content_hash(bytes: Seq<u8>) -> Seq<char> {
    hex_seq(content_digest(bytes) as int, 16)
}

/// Whether a byte may appear in plain text: a tab, line feed, carriage
/// return, or printable ASCII.
pub open spec fn is_text_byte(b: u8) -> bool {
    b == 9 || b == 10 || b == 13 || (0x20 <= b && b <= 0x7e)
}

/// Whether every byte of the content may appear in plain text.
pub open spec fn is_text(bytes: Seq<u8>) -> bool {
    forall|i: int| 0 <= i < bytes.len() ==> is_text_byte(bytes[i])
}

/// The media type sniffed from the content.
pub open spec fn media_type_of(bytes: Seq<u8>) -> Seq<char> {
    if is_text(bytes) { "text"@ } else { "application"@ }
}

/// The media subtype sniffed from the content.
pub open spec fn media_subtype_of(bytes: Seq<u8>) -> Seq<char> {
    if is_text(bytes) { "plain"@ } else { "octet-stream"@ }
}

/// The string holding one hexadecimal digit.
fn hex_digit_str(d: u64) -> (r: &'static str)
    requires
        d < 16,
    ensures
        r@ == seq![hex_digit(d as int)],
{
    let r: &'static str = if d == 0 { "0" }
    else if d == 1 { "1" }
    else if d == 2 { "2" }
    else if d == 3 { "3" }
    else if d == 4 { "4" }
    else if d == 5 { "5" }
    else if d == 6 { "6" }
    else if d == 7 { "7" }
    else if d == 8 { "8" }
    else if d == 9 { "9" }
    else if d == 10 { "a" }
    else if d == 11 { "b" }
    else if d == 12 { "c" }
    else if d == 13 { "d" }
    else if d == 14 { "e" }
    else { "f" };
    proof {
        reveal_strlit("0");
        reveal_strlit("1");
        reveal_strlit("2");
        reveal_strlit("3");
        reveal_strlit("4");
        reveal_strlit("5");
        reveal_strlit("6");
        reveal_strlit("7");
        reveal_strlit("8");
        reveal_strlit("9");
        reveal_strlit("a");
        reveal_strlit("b");
        reveal_strlit("c");
        reveal_strlit("d");
        reveal_strlit("e");
        reveal_strlit("f");
        assert(r@ =~= seq![hex_digit(d as int)]);
    }
    r
}

/// Renders the low `digits` hexadecimal digits of `h`, most significant
/// first.
pub fn digest_hex(h: u64, digits: usize) -> (r: String)
    ensures
        r@ == hex_seq(h as int, digits as nat),
    decreases digits,
{
    if digits == 0 {
        String::new()
    } else {
        let mut s = digest_hex(h / 16, digits - 1);
        s.append(hex_digit_str(h % 16));
        proof {
            assert(s@ =~= hex_seq(h as int / 16, (digits - 1) as nat).push(
                hex_digit(h as int % 16),
            ));
        }
        s
    }
}

/// Computes the 64-bit content digest of the given bytes.
pub fn compute_digest(bytes: &Vec<u8>) -> (h: u64)
    ensures
        h == content_digest(bytes@),
{
    let mut h: u64 = 5381;
    let mut i: usize = 0;
    while i < bytes.len()
        invariant
            i <= bytes@.len(),
            h == digest_prefix(bytes@, i as int),
        decreases bytes@.len() - i,
    {
        let wide: u128 = (h as u128) * 33 + (bytes[i] as u128);
        h = (wide % 0x1_0000_0000_0000_0000u128) as u64;
        i = i + 1;
    }
    h
}

/// Computes the content hash stored for a blob with the given bytes.
pub fn content_hash_of(bytes: &Vec<u8>) -> (r: String)
    ensures
        r@ == content_hash(bytes@),
{
    let d = compute_digest(bytes);
    digest_hex(d, 16)
}

/// Decides whether the content is plain text.
pub fn sniff_is_text(bytes: &Vec<u8>) -> (r: bool)
    ensures
        r == is_text(bytes@),
{
    let mut i: usize = 0;
    while i < bytes.len()
        invariant
            i <= bytes@.len(),
            forall|j: int| 0 <= j < i ==> is_text_byte(bytes@[j]),
        decreases bytes@.len() - i,
    {
        let b = bytes[i];
        if !(b == 9 || b == 10 || b == 13 || (0x20 <= b && b <= 0x7e)) {
            return false;
        }
        i = i + 1;
    }
    true
}

/// Sniffs the media type and subtype from the content.
pub fn sniff_media_type(bytes: &Vec<u8>) -> (r: (String, String))
    ensures
        r.0@ == media_type_of(bytes@),
        r.1@ == media_subtype_of(bytes@),
{
    if sniff_is_text(bytes) {
        (String::from_str("text"), String::from_str("plain"))
    } else {
        (String::from_str("application"), String::from_str("octet-stream"))
    }
}

} // verus!
