//! Text helpers: UTF-8 decoding, string comparison and number formatting for
//! error messages.

use vstd::prelude::*;
use vstd::string::*;
use vstd::utf8::*;

verus! {

broadcast use encode_utf8_decode_utf8, encode_utf8_valid_utf8;

/// Relies on `String::from_utf8`: it accepts exactly the byte sequences that
/// are valid UTF-8, and then holds the characters they encode.
#[verifier::external_body]
pub(crate) fn utf8_to_string(bytes: Vec<u8>) -> (r: Option<String>)
    ensures
        r is Some <==> valid_utf8(bytes@),
        r matches Some(s) ==> s@ == decode_utf8(bytes@),
{
    String::from_utf8(bytes).ok()
}

/// Whether two strings hold the same characters.
pub fn same_text(a: &str, b: &str) -> (r: bool)
    ensures
        r == (a@ == b@),
{
    let x = a.as_bytes();
    let y = b.as_bytes();
    if x.len() != y.len() {
        assert(a.spec_bytes() != b.spec_bytes());
        return false;
    }
    let mut i: usize = 0;
    while i < x.len()
        invariant
            x@ == a.spec_bytes(),
            y@ == b.spec_bytes(),
            x@.len() == y@.len(),
            0 <= i <= x@.len(),
            forall|j: int| 0 <= j < i ==> x@[j] == y@[j],
        decreases x@.len() - i,
    {
        if x[i] != y[i] {
            assert(x@[i as int] != y@[i as int]);
            assert(x@ != y@);
            return false;
        }
        i = i + 1;
    }
    assert(x@ =~= y@);
    assert(decode_utf8(encode_utf8(a@)) == a@);
    assert(decode_utf8(encode_utf8(b@)) == b@);
    true
}

/// The sixteen hexadecimal digits, upper case.
pub open spec fn hex_alphabet() -> Seq<char> {
    "0123456789ABCDEF"@
}

/// The last `n` hexadecimal digits of `v`, most significant first.
pub open spec fn hex_digits(v: nat, n: nat) -> Seq<char>
    decreases n,
{
    if n == 0 {
        Seq::empty()
    } else {
        hex_digits(v / 16, (n - 1) as nat).push(hex_alphabet()[(v % 16) as int])
    }
}

/// The decimal digits of `v`, most significant first, without leading zeros.
pub open spec fn decimal_digits(v: nat) -> Seq<char>
    decreases v,
{
    if v < 10 {
        seq![hex_alphabet()[v as int]]
    } else {
        decimal_digits(v / 10).push(hex_alphabet()[(v % 10) as int])
    }
}

/// The one-character string of the digit worth `d`.
fn digit_text(d: u32) -> (r: String)
    requires
        d < 16,
    ensures
        r@ == seq![hex_alphabet()[d as int]],
{
    let alphabet = "0123456789ABCDEF";
    proof {
        reveal_strlit("0123456789ABCDEF");
    }
    assert(alphabet.is_ascii());
    let one = alphabet.substring_ascii(d as usize, d as usize + 1);
    assert(one@ =~= seq![hex_alphabet()[d as int]]);
    String::from_str(one)
}

/// `v` as eight upper-case hexadecimal digits.
pub fn hex8(v: u32) -> (r: String)
    ensures
        r@ == hex_digits(v as nat, 8),
{
    let mut s = String::new();
    let mut w: u32 = v;
    let mut k: u32 = 0;
    while k < 8
        invariant
            0 <= k <= 8,
            hex_digits(v as nat, 8) == hex_digits(w as nat, (8 - k) as nat) + s@,
        decreases 8 - k,
    {
        let d = w % 16;
        let ghost old_s = s@;
        assert(hex_digits(w as nat, (8 - k) as nat) == hex_digits(
            (w / 16) as nat,
            (7 - k) as nat,
        ).push(hex_alphabet()[d as int]));
        s = digit_text(d).concat(s.as_str());
        assert(hex_digits((w / 16) as nat, (7 - k) as nat).push(hex_alphabet()[d as int]) + old_s
            =~= hex_digits((w / 16) as nat, (7 - k) as nat) + s@);
        w = w / 16;
        k = k + 1;
    }
    assert(hex_digits(w as nat, 0) + s@ =~= s@);
    s
}

/// `v` in decimal.
pub fn decimal(v: usize) -> (r: String)
    ensures
        r@ == decimal_digits(v as nat),
{
    let mut s = String::new();
    let mut w: usize = v;
    assert(decimal_digits(v as nat) =~= decimal_digits(w as nat) + s@);
    while w >= 10
        invariant
            decimal_digits(v as nat) == decimal_digits(w as nat) + s@,
        decreases w,
    {
        let d = (w % 10) as u32;
        let ghost old_s = s@;
        s = digit_text(d).concat(s.as_str());
        assert(decimal_digits(w as nat) == decimal_digits((w / 10) as nat).push(
            hex_alphabet()[d as int],
        ));
        assert(decimal_digits((w / 10) as nat).push(hex_alphabet()[d as int]) + old_s
            =~= decimal_digits((w / 10) as nat) + s@);
        w = w / 10;
    }
    let first = digit_text(w as u32);
    let r = first.concat(s.as_str());
    assert(decimal_digits(w as nat) =~= first@);
    r
}

} // verus!
