//! Names and symbols the bridge derives from platform values.

use vstd::prelude::*;
use crate::text::{push_char, push_str};

verus! {

/// `h` rotated right by 33 bits.
pub open spec fn rotr33(h: u64) -> u64 {
    (h >> 33u64) | (h << 31u64)
}

/// The mixing of a user id into a 32-bit tag: three right rotations by 33
/// bits, with two wrapping multiplications between them.
pub open spec fn tag_of(user_id: u64) -> u32 {
    let h1 = rotr33(user_id);
    let h2 = vstd::wrapping::u64_specs::wrapping_mul(h1, 0xff51afd7ed558ccdu64);
    let h3 = rotr33(h2);
    let h4 = vstd::wrapping::u64_specs::wrapping_mul(h3, 0xc4ceb9fe1a85ec53u64);
    rotr33(h4) as u32
}

fn rotate33(h: u64) -> (r: u64)
    ensures
        r == rotr33(h),
{
    (h >> 33u64) | (h << 31u64)
}

/// A short tag that tells users apart in generated bot names.
pub fn user_id_tag(user_id: u64) -> (r: u32)
    ensures
        r == tag_of(user_id),
{
    let mut h: u64 = user_id;
    h = rotate33(h);
    h = h.wrapping_mul(0xff51afd7ed558ccdu64);
    h = rotate33(h);
    h = h.wrapping_mul(0xc4ceb9fe1a85ec53u64);
    h = rotate33(h);
    h as u32
}

/// The lower-case hexadecimal digit of `d`.
pub open spec fn hex_digit(d: nat) -> char {
    if d < 10 {
        ((d + 48) as u8) as char
    } else {
        ((d + 87) as u8) as char
    }
}

/// `n` in lower-case hexadecimal, without leading zeros.
pub open spec fn hex_of(n: nat) -> Seq<char>
    decreases n,
{
    if n < 16 {
        seq![hex_digit(n)]
    } else {
        hex_of(n / 16) + seq![hex_digit(n % 16)]
    }
}

fn push_hex(out: &mut String, n: u32)
    ensures
        final(out)@ == old(out)@ + hex_of(n as nat),
    decreases n,
{
    if n >= 16 {
        push_hex(out, n / 16);
    }
    let d = (n % 16) as u8;
    let c = if d < 10 {
        (d + 48) as char
    } else {
        (d + 87) as char
    };
    push_char(out, c);
    assert(final(out)@ =~= old(out)@ + hex_of(n as nat));
}

/// The bot username generated for a user: `discogram_<tag in hex>_bot`.
pub fn user_id_bot_name(user_id: u64) -> (r: String)
    ensures
        r@ == "discogram_"@ + hex_of(tag_of(user_id) as nat) + "_bot"@,
{
    let mut out = String::new();
    push_str(&mut out, "discogram_");
    push_hex(&mut out, user_id_tag(user_id));
    push_str(&mut out, "_bot");
    out
}

/// The keycap emoji of a decimal digit: the digit, U+FE0F, U+20E3.
pub open spec fn keycap_of(digit: nat) -> Seq<char> {
    seq![((digit + 48) as u8) as char, '\u{fe0f}', '\u{20e3}']
}

/// The keycap emoji of `digit`, used to let users vote on a poll option.
pub fn unicode_keycap(digit: usize) -> (r: String)
    requires
        digit < 10,
    ensures
        r@ == keycap_of(digit as nat),
{
    let mut out = String::new();
    push_char(&mut out, ((digit as u8) + 48) as char);
    push_char(&mut out, '\u{fe0f}');
    push_char(&mut out, '\u{20e3}');
    out
}

} // verus!
