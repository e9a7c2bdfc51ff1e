//! Texts of the image report: human-readable file sizes and the cleaned
//! EXIF exposure, aperture and focal-length values.
use vstd::prelude::*;
use crate::text::{
    chars_of, decimal, digit_char, is_char, push_all, push_decimal, string_of, strip_prefixes,
    strip_prefixes_vec, strip_suffixes, strip_suffixes_vec, trim_end_by, trim_end_char_vec, trim_start_by,
    trim_start_char_vec, trim_ws, trim_ws_vec,
};

verus! {

/// `n / d` rounded to the nearest integer, halves upwards.
pub open spec fn div_round_half_up(n: nat, d: nat) -> nat {
    (2 * n + d) / (2 * d)
}

/// `n / d` rounded to the nearest integer, halves to the even neighbour.
pub open spec fn div_round_half_even(n: nat, d: nat) -> nat {
    let q = n / d;
    let r = n % d;
    if 2 * r > d || (2 * r == d && q % 2 == 1) {
        q + 1
    } else {
        q
    }
}

/// `t / 10` written with one decimal: `12.3` for 123.
pub open spec fn tenths_text(t: nat) -> Seq<char> {
    decimal(t / 10) + seq!['.', digit_char(t % 10)]
}

pub open spec fn kib() -> nat {
    1024
}

/// The size in bytes (below 1 KiB), whole KiB (below 1 MiB, rounded), or
/// MiB / GiB with one decimal (rounded half to even); GiB is the largest
/// unit.
pub open spec fn spec_easy_file_sz(bytes: u64) -> Seq<char> {
    if bytes < kib() {
        decimal(bytes as nat) + " B"@
    } else if bytes < kib() * kib() {
        decimal(div_round_half_up(bytes as nat, kib())) + " KB"@
    } else if bytes < kib() * kib() * kib() {
        tenths_text(div_round_half_even((10 * bytes) as nat, kib() * kib())) + " MB"@
    } else {
        tenths_text(div_round_half_even((10 * bytes) as nat, kib() * kib() * kib())) + " GB"@
    }
}

/// `10 * bytes / unit` rounded half to even (`unit` is 2^20 or 2^30).
fn tenths_of(bytes: u64, unit: u64) -> (r: u64)
    requires
        unit == 0x10_0000 || unit == 0x4000_0000,
    ensures
        r == div_round_half_even((10 * bytes) as nat, unit as nat),
{
    let n: u128 = bytes as u128 * 10;
    let q: u128 = n / unit as u128;
    let rem: u128 = n % unit as u128;
    proof {
        vstd::arithmetic::div_mod::lemma_fundamental_div_mod(n as int, unit as int);
    }
    assert(q < 0xFFFF_FFFF_FFFF_FFFF) by (nonlinear_arith)
        requires
            n == (unit as int) * (q as int) + (rem as int),
            rem >= 0,
            n <= 10 * 0xFFFF_FFFF_FFFF_FFFF,
            unit >= 0x10_0000,
    ;
    let q64 = q as u64;
    let up = 2 * rem > unit as u128 || (2 * rem == unit as u128 && q64 % 2 == 1);
    if up {
        q64 + 1
    } else {
        q64
    }
}

/// Append `t / 10` with one decimal.
fn push_tenths(out: &mut Vec<char>, t: u64)
    ensures
        final(out)@ == old(out)@ + tenths_text(t as nat),
{
    push_decimal(out, t / 10);
    out.push('.');
    let d = (t % 10) as u8;
    out.push((d + 48) as char);
}

/// Convert bytes to human-readable KB, MB, or GB.
pub fn easy_file_sz(bytes: u64) -> (r: String)
    ensures
        r@ == spec_easy_file_sz(bytes),
{
    proof {
        reveal_strlit(" B");
        reveal_strlit(" KB");
        reveal_strlit(" MB");
        reveal_strlit(" GB");
    }
    let mut out: Vec<char> = Vec::new();
    if bytes < 1024 {
        push_decimal(&mut out, bytes);
        let unit = [' ', 'B'];
        assert(unit@ =~= " B"@);
        push_all(&mut out, &unit);
    } else if bytes < 0x10_0000 {
        assert((bytes + 512) / 1024 == div_round_half_up(bytes as nat, kib())) by {
            assert(kib() == 1024);
            assert(2 * bytes + 1024 == 2 * (bytes + 512));
            let x: int = (bytes + 512) as int;
            vstd::arithmetic::div_mod::lemma_fundamental_div_mod(x, 1024);
            let q: int = x / 1024;
            let m: int = x % 1024;
            assert(2 * x == q * 2048 + 2 * m);
            vstd::arithmetic::div_mod::lemma_fundamental_div_mod_converse_div(2 * x, 2048, q, 2 * m);
        }
        push_decimal(&mut out, (bytes + 512) / 1024);
        let unit = [' ', 'K', 'B'];
        assert(unit@ =~= " KB"@);
        push_all(&mut out, &unit);
    } else if bytes < 0x4000_0000 {
        push_tenths(&mut out, tenths_of(bytes, 0x10_0000));
        let unit = [' ', 'M', 'B'];
        assert(unit@ =~= " MB"@);
        push_all(&mut out, &unit);
    } else {
        push_tenths(&mut out, tenths_of(bytes, 0x4000_0000));
        let unit = [' ', 'G', 'B'];
        assert(unit@ =~= " GB"@);
        push_all(&mut out, &unit);
    }
    assert(kib() * kib() == 0x10_0000 && kib() * kib() * kib() == 0x4000_0000);
    let r = string_of(&out);
    assert(out@ =~= spec_easy_file_sz(bytes));
    r
}

// ---- EXIF values ------------------------------------------------------------------------

/// An exposure time without surrounding white space and without its
/// trailing `s` unit: `1/348` for `"1/348 s"`.
pub open spec fn spec_exposure_text(e: Seq<char>) -> Seq<char> {
    trim_ws(trim_end_by(trim_ws(e), is_char('s')))
}

pub fn exposure_text(exposure: &str) -> (r: String)
    ensures
        r@ == spec_exposure_text(exposure@),
{
    let t = trim_ws_vec(&chars_of(exposure));
    let u = trim_end_char_vec(&t, 's');
    string_of(&trim_ws_vec(&u))
}

/// An aperture without surrounding white space and without its leading
/// `f/` prefixes and `f`s: `1.78` for `"f/1.78"`.
pub open spec fn spec_aperture_text(f: Seq<char>) -> Seq<char> {
    trim_ws(trim_start_by(strip_prefixes(trim_ws(f), seq!['f', '/']), is_char('f')))
}

pub fn aperture_text(f_number: &str) -> (r: String)
    ensures
        r@ == spec_aperture_text(f_number@),
{
    let t = trim_ws_vec(&chars_of(f_number));
    let prefix = ['f', '/'];
    assert(prefix@ =~= seq!['f', '/']);
    let u = strip_prefixes_vec(&t, &prefix);
    let v = trim_start_char_vec(&u, 'f');
    string_of(&trim_ws_vec(&v))
}

/// A focal length without surrounding white space and without its
/// trailing `mm` units: `6.76` for `"6.76 mm"`.
pub open spec fn spec_focal_length_text(fl: Seq<char>) -> Seq<char> {
    trim_ws(strip_suffixes(trim_ws(fl), seq!['m', 'm']))
}

pub fn focal_length_text(focal_length: &str) -> (r: String)
    ensures
        r@ == spec_focal_length_text(focal_length@),
{
    let t = trim_ws_vec(&chars_of(focal_length));
    let unit = ['m', 'm'];
    assert(unit@ =~= seq!['m', 'm']);
    let u = strip_suffixes_vec(&t, &unit);
    string_of(&trim_ws_vec(&u))
}

} // verus!
