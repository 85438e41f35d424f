use vstd::prelude::*;
use vstd::string::StringSliceAdditionalSpecFns;

verus! {

/// The characters `String::from_utf8_lossy` makes of a byte string.
pub uninterp spec fn lossy_text(bytes: Seq<u8>) -> Seq<char>;

/// `String::from_utf8_lossy`, as an owned string: the text of `bytes`, with
/// each invalid UTF-8 sequence replaced by U+FFFD; valid UTF-8 is decoded as is.
#[verifier::external_body]
pub(crate) fn utf8_lossy(bytes: &[u8]) -> (text: String)
    ensures
        text@ == lossy_text(bytes@),
        vstd::utf8::valid_utf8(bytes@) ==> text@ == vstd::utf8::decode_utf8(bytes@),
{
    String::from_utf8_lossy(bytes).into_owned()
}


/// Whether a character is an ASCII decimal digit.
pub open spec fn is_digit(c: char) -> bool {
    '0' <= c && c <= '9'
}

/// The number a string of decimal digits spells.
pub open spec fn digits_value(s: Seq<char>) -> int
    decreases s.len(),
{
    if s.len() == 0 {
        0
    } else {
        digits_value(s.drop_last()) * 10 + (s.last() as int - '0' as int)
    }
}

/// One or more decimal digits and nothing else.
pub open spec fn all_digits(s: Seq<char>) -> bool {
    s.len() > 0 && forall|i: int| 0 <= i < s.len() ==> is_digit(#[trigger] s[i])
}

/// The integer a text spells in decimal: an optional `+` or `-`, then one or
/// more digits, and nothing else.
pub open spec fn decimal_value(t: Seq<char>) -> Option<int> {
    if t.len() > 0 && t[0] == '-' {
        if all_digits(t.drop_first()) {
            Some(-digits_value(t.drop_first()))
        } else {
            None
        }
    } else if t.len() > 0 && t[0] == '+' {
        if all_digits(t.drop_first()) {
            Some(digits_value(t.drop_first()))
        } else {
            None
        }
    } else if all_digits(t) {
        Some(digits_value(t))
    } else {
        None
    }
}

/// The decimal value of a text when it fits in an `i64`.
pub open spec fn decimal_i64(t: Seq<char>) -> Option<i64> {
    match decimal_value(t) {
        Some(v) => if i64::MIN <= v <= i64::MAX {
            Some(v as i64)
        } else {
            None
        },
        None => None,
    }
}

/// `str::parse::<i64>`, with the error dropped: the standard library accepts
/// exactly an optional sign followed by decimal digits whose value fits.
#[verifier::external_body]
pub(crate) fn parse_i64(text: &str) -> (r: Option<i64>)
    ensures
        r == decimal_i64(text@),
{
    text.parse::<i64>().ok()
}

/// `std::str::from_utf8`: the text of `bytes` when they are valid UTF-8.
#[verifier::external_body]
pub(crate) fn utf8_str(bytes: &[u8]) -> (r: Option<&str>)
    ensures
        r is Some <==> vstd::utf8::valid_utf8(bytes@),
        r matches Some(text) ==> text@ == vstd::utf8::decode_utf8(bytes@),
{
    std::str::from_utf8(bytes).ok()
}

/// The Unicode upper-case form `str::to_uppercase` gives a text.
pub uninterp spec fn upper_text(text: Seq<char>) -> Seq<char>;

/// `str::to_uppercase`.
#[verifier::external_body]
pub(crate) fn to_upper_text(text: &str) -> (r: String)
    ensures
        r@ == upper_text(text@),
{
    text.to_uppercase()
}

/// The Unicode lower-case form `str::to_lowercase` gives a text.
pub uninterp spec fn lower_text(text: Seq<char>) -> Seq<char>;

/// `str::to_lowercase`.
#[verifier::external_body]
pub(crate) fn to_lower_text(text: &str) -> (r: String)
    ensures
        r@ == lower_text(text@),
{
    text.to_lowercase()
}

/// A byte with ASCII `a`..=`z` mapped to `A`..=`Z`.
pub open spec fn ascii_upper_byte(b: u8) -> u8 {
    if 0x61u8 <= b <= 0x7au8 {
        (b - 32) as u8
    } else {
        b
    }
}

pub open spec fn ascii_upper(s: Seq<u8>) -> Seq<u8> {
    s.map_values(|b: u8| ascii_upper_byte(b))
}

/// A copy of `bytes` with ASCII letters in upper case.
pub fn to_ascii_uppercase(bytes: &[u8]) -> (r: Vec<u8>)
    ensures
        r@ == ascii_upper(bytes@),
{
    let mut out: Vec<u8> = Vec::new();
    let mut k: usize = 0;
    while k < bytes.len()
        invariant
            k <= bytes@.len(),
            out@ == ascii_upper(bytes@.take(k as int)),
        decreases bytes@.len() - k,
    {
        let b = bytes[k];
        let u = if 0x61u8 <= b && b <= 0x7au8 {
            b - 32
        } else {
            b
        };
        out.push(u);
        assert(ascii_upper(bytes@.take(k + 1)) =~= ascii_upper(bytes@.take(k as int)).push(u));
        k += 1;
    }
    assert(bytes@.take(k as int) =~= bytes@);
    out
}

/// Whether two byte strings are equal.
pub fn bytes_eq(a: &[u8], b: &[u8]) -> (r: bool)
    ensures
        r == (a@ == b@),
{
    if a.len() != b.len() {
        return false;
    }
    let mut k: usize = 0;
    while k < a.len()
        invariant
            a@.len() == b@.len(),
            k <= a@.len(),
            forall|j: int| 0 <= j < k ==> a@[j] == b@[j],
        decreases a@.len() - k,
    {
        if a[k] != b[k] {
            return false;
        }
        k += 1;
    }
    assert(a@ =~= b@);
    true
}

/// Whether two texts are equal ignoring ASCII case.
pub fn eq_ignore_ascii_case(a: &str, b: &str) -> (r: bool)
    ensures
        r == (ascii_upper(a.spec_bytes()) == ascii_upper(b.spec_bytes())),
{
    let ua = to_ascii_uppercase(a.as_bytes());
    let ub = to_ascii_uppercase(b.as_bytes());
    bytes_eq(ua.as_slice(), ub.as_slice())
}

/// Whether two texts are equal.
pub fn text_eq(a: &str, b: &str) -> (r: bool)
    ensures
        r == (a@ == b@),
{
    let r = bytes_eq(a.as_bytes(), b.as_bytes());
    proof {
        vstd::utf8::encode_utf8_decode_utf8(a@);
        vstd::utf8::encode_utf8_decode_utf8(b@);
    }
    r
}

/// An owned copy of a text.
pub fn owned(text: &str) -> (r: String)
    ensures
        r@ == text@,
{
    broadcast use vstd::string::group_string_axioms;

    text.to_string()
}

/// `a`, then `b`, then `c`.
pub fn concat3(a: &str, b: &str, c: &str) -> (r: String)
    ensures
        r@ == a@ + b@ + c@,
{
    let mut s = owned(a);
    s.append(b);
    s.append(c);
    s
}

/// The decimal digits of a natural number, most significant first.
pub open spec fn nat_text(n: nat) -> Seq<char>
    decreases n,
{
    if n < 10 {
        seq![(n + 48) as char]
    } else {
        nat_text(n / 10).push((n % 10 + 48) as char)
    }
}

/// The digits of a natural number are decimal digits that spell it.
pub proof fn lemma_nat_text(n: nat)
    ensures
        all_digits(nat_text(n)),
        digits_value(nat_text(n)) == n,
    decreases n,
{
    let d: int = (n % 10 + 48) as int;
    assert(0 <= n % 10 < 10);
    assert((d as char) as int == d);
    if n >= 10 {
        lemma_nat_text(n / 10);
        let s = nat_text(n);
        assert(s.drop_last() =~= nat_text(n / 10));
        assert(s.last() == d as char);
        assert(n == (n / 10) * 10 + n % 10);
        assert('0' as int == 48);
        assert(digits_value(s) == digits_value(s.drop_last()) * 10 + (s.last() as int - '0' as int));
        assert forall|i: int| 0 <= i < s.len() implies is_digit(#[trigger] s[i]) by {
            if i < s.len() - 1 {
                assert(s[i] == nat_text(n / 10)[i]);
            }
        }
    } else {
        let s = nat_text(n);
        assert(s.drop_last() =~= Seq::<char>::empty());
        assert(n % 10 == n);
        assert('0' as int == 48);
        assert(s.last() == d as char);
        assert(digits_value(s) == digits_value(s.drop_last()) * 10 + (s.last() as int - '0' as int));
    }
}

/// Reading the decimal text of an integer gives it back.
pub proof fn lemma_int_text_value(n: int)
    ensures
        decimal_value(int_text(n)) == Some(n),
        vstd::utf8::is_ascii_chars(int_text(n)),
        forall|i: int| 0 <= i < int_text(n).len() ==> #[trigger] int_text(n)[i] == '-' || is_digit(int_text(n)[i]),
        int_text(n).len() > 0,
{
    let m: nat = if n < 0 {
        (-n) as nat
    } else {
        n as nat
    };
    lemma_nat_text(m);
    let t = int_text(n);
    if n < 0 {
        assert(t.drop_first() =~= nat_text(m));
        assert forall|i: int| 0 <= i < t.len() implies #[trigger] t[i] == '-' || is_digit(t[i]) by {
            if i > 0 {
                assert(t[i] == nat_text(m)[i - 1]);
            }
        }
    } else {
        assert(is_digit(t[0]));
    }
    assert forall|i: int| 0 <= i < t.len() implies '\0' <= #[trigger] t[i] <= '\u{7f}' by {
        assert(t[i] == '-' || is_digit(t[i]));
    }
}

/// An integer in decimal, with a leading `-` when negative.
pub open spec fn int_text(n: int) -> Seq<char> {
    if n < 0 {
        seq!['-'] + nat_text((-n) as nat)
    } else {
        nat_text(n as nat)
    }
}

/// `i64::to_string`: the number in decimal, `-` first when negative.
#[verifier::external_body]
pub(crate) fn i64_text(n: i64) -> (s: String)
    ensures
        s@ == int_text(n as int),
{
    n.to_string()
}

/// `u64::to_string`: the number in decimal.
#[verifier::external_body]
pub(crate) fn u64_text(n: u64) -> (s: String)
    ensures
        s@ == nat_text(n as nat),
{
    n.to_string()
}

/// `itoa::Buffer::format` on a `usize`: its decimal digits.
#[verifier::external_body]
pub(crate) fn usize_text(n: usize) -> (s: String)
    ensures
        s@ == nat_text(n as nat),
{
    let mut buffer = itoa::Buffer::new();
    buffer.format(n).to_string()
}

/// The unsigned number that bytes spell least significant first.
pub open spec fn le_unsigned(b: Seq<u8>) -> nat
    decreases b.len(),
{
    if b.len() == 0 {
        0
    } else {
        b[0] as nat + 256 * le_unsigned(b.drop_first())
    }
}

/// Eight bytes read as a little-endian two's complement `i64`.
pub open spec fn le_i64(b: Seq<u8>) -> i64 {
    let u = le_unsigned(b.take(8));
    if u >= 0x8000_0000_0000_0000 {
        (u - 0x1_0000_0000_0000_0000) as i64
    } else {
        u as i64
    }
}

/// `i64::from_le_bytes` on the first eight bytes.
#[verifier::external_body]
pub(crate) fn i64_from_le(b: &[u8]) -> (r: i64)
    requires
        b@.len() >= 8,
    ensures
        r == le_i64(b@),
{
    i64::from_le_bytes([b[0], b[1], b[2], b[3], b[4], b[5], b[6], b[7]])
}

/// `a + b`, held to the `i64` range.
pub open spec fn saturating_sum(a: i64, b: i64) -> i64 {
    if a + b > i64::MAX {
        i64::MAX
    } else if a + b < i64::MIN {
        i64::MIN
    } else {
        (a + b) as i64
    }
}

/// `i64::saturating_add`.
pub fn saturating_add_i64(a: i64, b: i64) -> (r: i64)
    ensures
        r == saturating_sum(a, b),
{
    match a.checked_add(b) {
        Some(s) => s,
        None => if b > 0 {
            i64::MAX
        } else {
            i64::MIN
        },
    }
}

/// The characters with the Unicode `White_Space` property.
pub open spec fn is_white_space(c: char) -> bool {
    ||| '\u{9}' <= c && c <= '\u{d}'
    ||| c == ' '
    ||| c == '\u{85}'
    ||| c == '\u{a0}'
    ||| c == '\u{1680}'
    ||| '\u{2000}' <= c && c <= '\u{200a}'
    ||| c == '\u{2028}'
    ||| c == '\u{2029}'
    ||| c == '\u{202f}'
    ||| c == '\u{205f}'
    ||| c == '\u{3000}'
}

/// A text without its leading white space.
pub open spec fn trim_start(t: Seq<char>) -> Seq<char>
    decreases t.len(),
{
    if t.len() > 0 && is_white_space(t[0]) {
        trim_start(t.drop_first())
    } else {
        t
    }
}

/// A text without its trailing white space.
pub open spec fn trim_end(t: Seq<char>) -> Seq<char>
    decreases t.len(),
{
    if t.len() > 0 && is_white_space(t.last()) {
        trim_end(t.drop_last())
    } else {
        t
    }
}

/// A text without leading and trailing white space.
pub open spec fn trimmed(t: Seq<char>) -> Seq<char> {
    trim_end(trim_start(t))
}

/// `str::trim`.
#[verifier::external_body]
pub(crate) fn trim_text(text: &str) -> (r: &str)
    ensures
        r@ == trimmed(text@),
{
    text.trim()
}

} // verus!
