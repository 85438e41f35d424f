use crate::text::{
    decimal_i64, i64_text, int_text, is_digit, lemma_int_text_value, nat_text, owned, parse_i64, usize_text,
    utf8_str,
};
use vstd::prelude::*;
use vstd::string::StringSliceAdditionalSpecFns;

verus! {

/// A value of the Redis serialization protocol (RESP), with byte strings held
/// as plain byte vectors.
#[derive(Debug, PartialEq, Eq)]
pub enum RespValue {
    SimpleString(Vec<u8>),
    Error(String),
    Integer(i64),
    BulkString(Option<Vec<u8>>),
    Array(Option<Vec<RespValue>>),
}

/// A RESP value with its byte strings and texts as sequences.
pub enum RespView {
    SimpleString(Seq<u8>),
    Error(Seq<char>),
    Integer(i64),
    BulkString(Option<Seq<u8>>),
    Array(Option<Seq<RespView>>),
}

pub open spec fn resp_view(v: RespValue) -> RespView
    decreases v,
{
    match v {
        RespValue::SimpleString(s) => RespView::SimpleString(s@),
        RespValue::Error(e) => RespView::Error(e@),
        RespValue::Integer(n) => RespView::Integer(n),
        RespValue::BulkString(b) => RespView::BulkString(
            match b {
                Some(x) => Some(x@),
                None => None,
            },
        ),
        RespValue::Array(a) => RespView::Array(
            match a {
                Some(items) => Some(
                    Seq::new(
                        items@.len(),
                        |i: int|
                            {
                                if 0 <= i < items@.len() {
                                    proof {
                                        assert(decreases_to!(v => items@[i]));
                                    }
                                    resp_view(items@[i])
                                } else {
                                    RespView::Integer(0)
                                }
                            },
                    ),
                ),
                None => None,
            },
        ),
    }
}

impl View for RespValue {
    type V = RespView;

    open spec fn view(&self) -> RespView {
        resp_view(*self)
    }
}

/// The views of a sequence of values.
pub open spec fn views(items: Seq<RespValue>) -> Seq<RespView> {
    items.map_values(|x: RespValue| x@)
}

/// An array's view holds the views of its items.
pub proof fn lemma_array_view(items: Vec<RespValue>)
    ensures
        RespValue::Array(Some(items))@ == RespView::Array(Some(views(items@))),
{
    let v = RespValue::Array(Some(items));
    if let RespView::Array(Some(s)) = resp_view(v) {
        assert(s.len() == items@.len());
        assert forall|i: int| 0 <= i < s.len() implies s[i] == views(items@)[i] by {}
        assert(s =~= views(items@));
    } else {
        assert(false);
    }
}

/// `\r\n`.
pub open spec fn crlf() -> Seq<u8> {
    seq![0x0du8, 0x0au8]
}

/// The ASCII decimal digits of a number, `-` first when negative.
pub open spec fn decimal_bytes(n: int) -> Seq<u8> {
    vstd::utf8::encode_utf8(int_text(n))
}

/// The wire form of a RESP value: a type byte (`+ - : $ *`), then the
/// text, number or length, `\r\n`, and for bulk strings and arrays the
/// contents; a null bulk string or array has length -1.
pub open spec fn resp_bytes(v: RespView) -> Seq<u8>
    decreases v,
{
    match v {
        RespView::SimpleString(s) => seq![0x2bu8] + s + crlf(),
        RespView::Error(e) => seq![0x2du8] + vstd::utf8::encode_utf8(e) + crlf(),
        RespView::Integer(n) => seq![0x3au8] + decimal_bytes(n as int) + crlf(),
        RespView::BulkString(None) => seq![0x24u8, 0x2du8, 0x31u8] + crlf(),
        RespView::BulkString(Some(b)) => seq![0x24u8] + decimal_bytes(b.len() as int) + crlf() + b + crlf(),
        RespView::Array(None) => seq![0x2au8, 0x2du8, 0x31u8] + crlf(),
        RespView::Array(Some(items)) => seq![0x2au8] + decimal_bytes(items.len() as int) + crlf() + resp_concat(
            items,
        ),
    }
}

/// The wire forms of values, one after another.
pub open spec fn resp_concat(items: Seq<RespView>) -> Seq<u8>
    decreases items,
{
    if items.len() == 0 {
        Seq::empty()
    } else {
        resp_concat(items.drop_last()) + resp_bytes(items.last())
    }
}

/// Appends the bytes of `text`.
fn push_text(out: &mut Vec<u8>, text: &str)
    ensures
        final(out)@ == old(out)@ + text.spec_bytes(),
{
    let bytes = text.as_bytes();
    let ghost start = out@;
    let mut k: usize = 0;
    while k < bytes.len()
        invariant
            k <= bytes@.len(),
            out@ == start + bytes@.take(k as int),
        decreases bytes@.len() - k,
    {
        out.push(bytes[k]);
        assert(bytes@.take(k + 1) =~= bytes@.take(k as int).push(bytes@[k as int]));
        k += 1;
    }
    assert(bytes@.take(k as int) =~= bytes@);
}

/// Appends `bytes`.
fn push_bytes(out: &mut Vec<u8>, bytes: &[u8])
    ensures
        final(out)@ == old(out)@ + bytes@,
{
    let ghost start = out@;
    let mut k: usize = 0;
    while k < bytes.len()
        invariant
            k <= bytes@.len(),
            out@ == start + bytes@.take(k as int),
        decreases bytes@.len() - k,
    {
        out.push(bytes[k]);
        assert(bytes@.take(k + 1) =~= bytes@.take(k as int).push(bytes@[k as int]));
        k += 1;
    }
    assert(bytes@.take(k as int) =~= bytes@);
}

fn push_crlf(out: &mut Vec<u8>)
    ensures
        final(out)@ == old(out)@ + crlf(),
{
    out.push(0x0du8);
    out.push(0x0au8);
    assert(out@ =~= old(out)@ + crlf());
}

/// Appends the wire form of `value` to `buf`.
pub fn write_resp_value(buf: &mut Vec<u8>, value: &RespValue)
    ensures
        final(buf)@ == old(buf)@ + resp_bytes(value@),
    decreases value,
{
    let ghost start = buf@;
    match value {
        RespValue::SimpleString(s) => {
            buf.push(0x2bu8);
            push_bytes(buf, s.as_slice());
            push_crlf(buf);
            assert(buf@ =~= start + resp_bytes(value@));
        },
        RespValue::Error(e) => {
            buf.push(0x2du8);
            push_text(buf, e.as_str());
            push_crlf(buf);
            assert(buf@ =~= start + resp_bytes(value@));
        },
        RespValue::Integer(n) => {
            buf.push(0x3au8);
            let digits = i64_text(*n);
            push_text(buf, digits.as_str());
            push_crlf(buf);
            assert(buf@ =~= start + resp_bytes(value@));
        },
        RespValue::BulkString(None) => {
            buf.push(0x24u8);
            buf.push(0x2du8);
            buf.push(0x31u8);
            push_crlf(buf);
            assert(buf@ =~= start + resp_bytes(value@));
        },
        RespValue::BulkString(Some(b)) => {
            buf.push(0x24u8);
            let digits = usize_text(b.len());
            push_text(buf, digits.as_str());
            push_crlf(buf);
            push_bytes(buf, b.as_slice());
            push_crlf(buf);
            assert(int_text(b@.len() as int) == nat_text(b@.len()));
            assert(buf@ =~= start + resp_bytes(value@));
        },
        RespValue::Array(None) => {
            buf.push(0x2au8);
            buf.push(0x2du8);
            buf.push(0x31u8);
            push_crlf(buf);
            assert(buf@ =~= start + resp_bytes(value@));
        },
        RespValue::Array(Some(items)) => {
            buf.push(0x2au8);
            let digits = usize_text(items.len());
            push_text(buf, digits.as_str());
            push_crlf(buf);
            let ghost head = buf@;
            proof {
                lemma_array_view(*items);
            }
            let mut k: usize = 0;
            while k < items.len()
                invariant
                    k <= items@.len(),
                    *value == RespValue::Array(Some(*items)),
                    buf@ == head + resp_concat(views(items@).take(k as int)),
                decreases items@.len() - k,
            {
                proof {
                    let ghost inner: Option<Vec<RespValue>> = (*value)->Array_0;
                    assert(decreases_to!(*value => (*value)->Array_0));
                    assert(inner == Some(*items));
                    assert(decreases_to!(inner => inner->Some_0));
                    assert(decreases_to!(*items => items@));
                    assert(decreases_to!(items@ => items@[k as int]));
                    assert(decreases_to!(*value => items@[k as int]));
                }
                write_resp_value(buf, &items[k]);
                proof {
                    assert(views(items@).take(k + 1).drop_last() =~= views(items@).take(k as int));
                    assert(buf@ =~= head + resp_concat(views(items@).take(k + 1)));
                }
                k += 1;
            }
            proof {
                assert(views(items@).take(k as int) =~= views(items@));
                assert(int_text(items@.len() as int) == nat_text(items@.len()));
                assert(buf@ =~= start + resp_bytes(value@));
            }
        },
    }
}

proof fn lemma_minus_one_bytes()
    ensures
        decimal_bytes(-1) == seq![0x2du8, 0x31u8],
{
    let t = int_text(-1);
    assert(nat_text(1) == seq![(1 + 48) as char]);
    assert(t =~= seq!['-', '1']);
    assert(vstd::utf8::is_ascii_chars(t));
    vstd::utf8::is_ascii_chars_encode_utf8(t);
    assert(decimal_bytes(-1) =~= seq![0x2du8, 0x31u8]);
}

/// No `\r\n` inside a byte string.
pub open spec fn no_crlf(s: Seq<u8>) -> bool {
    forall|j: int| 0 <= j && j + 1 < s.len() ==> !(#[trigger] s[j] == 0x0du8 && s[j + 1] == 0x0au8)
}

/// Whether the wire form of a value reads back as that value: the text of
/// every simple string and error is free of `\r\n`, which would end its line,
/// and every length fits the `i64` a header is read as.
pub open spec fn reads_back(v: RespView) -> bool
    decreases v,
{
    match v {
        RespView::SimpleString(s) => no_crlf(s),
        RespView::Error(e) => no_crlf(vstd::utf8::encode_utf8(e)),
        RespView::BulkString(Some(b)) => b.len() <= i64::MAX,
        RespView::Array(Some(items)) => items.len() <= i64::MAX && reads_back_all(items),
        _ => true,
    }
}

/// Whether every value of a sequence reads back.
pub open spec fn reads_back_all(items: Seq<RespView>) -> bool
    decreases items,
{
    if items.len() == 0 {
        true
    } else {
        reads_back_all(items.drop_last()) && reads_back(items.last())
    }
}

/// The type byte of a value's wire form.
pub open spec fn kind_byte(v: RespView) -> u8 {
    match v {
        RespView::SimpleString(_) => 0x2bu8,
        RespView::Error(_) => 0x2du8,
        RespView::Integer(_) => 0x3au8,
        RespView::BulkString(_) => 0x24u8,
        RespView::Array(_) => 0x2au8,
    }
}

/// The text of the first line of a value's wire form, after the type byte.
pub open spec fn head_line(v: RespView) -> Seq<u8> {
    match v {
        RespView::SimpleString(s) => s,
        RespView::Error(e) => vstd::utf8::encode_utf8(e),
        RespView::Integer(n) => decimal_bytes(n as int),
        RespView::BulkString(None) => seq![0x2du8, 0x31u8],
        RespView::BulkString(Some(b)) => decimal_bytes(b.len() as int),
        RespView::Array(None) => seq![0x2du8, 0x31u8],
        RespView::Array(Some(items)) => decimal_bytes(items.len() as int),
    }
}

/// What follows the first line of a value's wire form.
pub open spec fn body_bytes(v: RespView) -> Seq<u8> {
    match v {
        RespView::BulkString(Some(b)) => b + crlf(),
        RespView::Array(Some(items)) => resp_concat(items),
        _ => Seq::empty(),
    }
}

/// A decimal number's bytes are ASCII `-` and digits: no `\r` among them.
proof fn lemma_decimal_bytes(n: int)
    ensures
        decimal_bytes(n).len() > 0,
        forall|i: int| 0 <= i < decimal_bytes(n).len() ==> #[trigger] decimal_bytes(n)[i] != 0x0du8,
        vstd::utf8::valid_utf8(decimal_bytes(n)),
        vstd::utf8::decode_utf8(decimal_bytes(n)) == int_text(n),
        decimal_i64(int_text(n)) == (if i64::MIN <= n <= i64::MAX {
            Some(n as i64)
        } else {
            None
        }),
{
    let t = int_text(n);
    lemma_int_text_value(n);
    vstd::utf8::is_ascii_chars_encode_utf8(t);
    vstd::utf8::encode_utf8_valid_utf8(t);
    vstd::utf8::encode_utf8_decode_utf8(t);
    assert forall|i: int| 0 <= i < decimal_bytes(n).len() implies #[trigger] decimal_bytes(n)[i] != 0x0du8 by {
        assert(t[i] as u8 == decimal_bytes(n)[i]);
        assert(t[i] == '-' || is_digit(t[i]));
    }
}

/// The wire form of a value is its type byte, its first line, `\r\n` and
/// its body; the first line holds no `\r\n` when the value reads back.
proof fn lemma_wire_parts(v: RespView)
    ensures
        resp_bytes(v) == seq![kind_byte(v)] + head_line(v) + crlf() + body_bytes(v),
        reads_back(v) ==> no_crlf(head_line(v)),
{
    lemma_minus_one_bytes();
    match v {
        RespView::Integer(n) => lemma_decimal_bytes(n as int),
        RespView::BulkString(Some(b)) => lemma_decimal_bytes(b.len() as int),
        RespView::Array(Some(items)) => lemma_decimal_bytes(items.len() as int),
        _ => {},
    }
    assert(resp_bytes(v) =~= seq![kind_byte(v)] + head_line(v) + crlf() + body_bytes(v));
}

/// A line of text free of `\r\n`, followed by `\r\n`, ends right there.
proof fn lemma_line_ends(buf: Seq<u8>, from: int, line: Seq<u8>)
    requires
        0 <= from,
        from + line.len() + 2 <= buf.len(),
        buf.subrange(from, from + line.len() + 2) == line + crlf(),
        no_crlf(line),
    ensures
        line_end(buf, from, from + line.len()),
{
    let end = from + line.len();
    assert(buf[end] == (line + crlf())[line.len() as int]);
    assert(buf[end + 1] == (line + crlf())[line.len() as int + 1]);
    assert forall|j: int| from <= j < end implies !(#[trigger] buf[j] == 0x0du8 && buf[j + 1] == 0x0au8) by {
        assert(buf[j] == (line + crlf())[j - from]);
        assert(buf[j + 1] == (line + crlf())[j + 1 - from]);
        if j + 1 < end {
            assert(line[j - from] == buf[j]);
            assert(line[j + 1 - from] == buf[j + 1]);
        }
    }
}

/// A line has one end.
proof fn lemma_line_end_unique(buf: Seq<u8>, from: int, e1: int, e2: int)
    requires
        line_end(buf, from, e1),
        line_end(buf, from, e2),
    ensures
        e1 == e2,
{
    if e1 < e2 {
        assert(buf[e1] == 0x0du8 && buf[e1 + 1] == 0x0au8);
    } else if e2 < e1 {
        assert(buf[e2] == 0x0du8 && buf[e2 + 1] == 0x0au8);
    }
}

/// Where the wire form of a value that reads back lies in `buf`, its parts lie.
proof fn lemma_wire_shape(buf: Seq<u8>, pos: int, v: RespView)
    requires
        0 <= pos,
        reads_back(v),
        holds_value(buf, pos, pos + resp_bytes(v).len(), v),
    ensures
        buf[pos] == kind_byte(v),
        buf.subrange(pos + 1, pos + 1 + head_line(v).len()) == head_line(v),
        line_end(buf, pos + 1, pos + 1 + head_line(v).len()),
        pos + 1 + head_line(v).len() + 2 + body_bytes(v).len() == pos + resp_bytes(v).len(),
        buf.subrange(pos + 1 + head_line(v).len() + 2, pos + resp_bytes(v).len()) == body_bytes(v),
{
    lemma_wire_parts(v);
    let h = head_line(v);
    let w = resp_bytes(v);
    let end = pos + w.len();
    let hl = h.len() as int;
    assert(buf[pos] == w[0]);
    lemma_subrange_within(buf, pos, w, 1, 1 + hl);
    lemma_subrange_within(buf, pos, w, 1, 3 + hl);
    lemma_subrange_within(buf, pos, w, 3 + hl, w.len() as int);
    assert(w.subrange(1, 1 + hl) =~= h);
    assert(w.subrange(1, 3 + hl) =~= h + crlf());
    assert(w.subrange(3 + hl, w.len() as int) =~= body_bytes(v));
    lemma_line_ends(buf, pos + 1, h);
}

/// A piece of the wire form of a value is the same piece of `buf` where it lies.
proof fn lemma_subrange_within(buf: Seq<u8>, pos: int, w: Seq<u8>, a: int, b: int)
    requires
        0 <= pos,
        pos + w.len() <= buf.len(),
        buf.subrange(pos, pos + w.len()) == w,
        0 <= a <= b <= w.len(),
    ensures
        buf.subrange(pos + a, pos + b) == w.subrange(a, b),
{
    assert forall|i: int| 0 <= i < b - a implies buf.subrange(pos + a, pos + b)[i] == w.subrange(a, b)[i] by {
        assert(buf.subrange(pos, pos + w.len())[a + i] == w[a + i]);
    }
    assert(buf.subrange(pos + a, pos + b) =~= w.subrange(a, b));
}

/// Reads RESP values from the bytes a connection receives.
pub struct RespParser {
    buffer: Vec<u8>,
    position: usize,
}

/// Where the line starting at `from` ends: the index of the first `\r\n` at
/// or after `from`.
pub open spec fn line_end(buf: Seq<u8>, from: int, end: int) -> bool {
    &&& from <= end
    &&& end + 1 < buf.len()
    &&& buf[end] == 0x0du8
    &&& buf[end + 1] == 0x0au8
    &&& forall|j: int| from <= j < end ==> !(#[trigger] buf[j] == 0x0du8 && buf[j + 1] == 0x0au8)
}

/// Finds the first `\r\n` at or after `from`.
fn find_crlf(buf: &[u8], from: usize) -> (r: Option<usize>)
    requires
        from <= buf@.len(),
    ensures
        match r {
            Some(end) => line_end(buf@, from as int, end as int),
            None => forall|j: int| from <= j && j + 1 < buf@.len() ==> !(#[trigger] buf@[j] == 0x0du8 && buf@[j + 1] == 0x0au8),
        },
{
    let mut j: usize = from;
    while buf.len() > 1 && j < buf.len() - 1
        invariant
            from <= j <= buf@.len(),
            forall|i: int| from <= i < j ==> !(#[trigger] buf@[i] == 0x0du8 && buf@[i + 1] == 0x0au8),
        decreases buf@.len() - j,
    {
        if buf[j] == 0x0du8 && buf[j + 1] == 0x0au8 {
            return Some(j);
        }
        j += 1;
    }
    None
}

/// A copy of `buf[from..to]`.
fn copy_range(buf: &[u8], from: usize, to: usize) -> (r: Vec<u8>)
    requires
        from <= to <= buf@.len(),
    ensures
        r@ == buf@.subrange(from as int, to as int),
{
    let mut r: Vec<u8> = Vec::new();
    let mut k: usize = from;
    while k < to
        invariant
            from <= k <= to,
            to <= buf@.len(),
            r@ == buf@.subrange(from as int, k as int),
        decreases to - k,
    {
        r.push(buf[k]);
        assert(buf@.subrange(from as int, k + 1) =~= buf@.subrange(from as int, k as int).push(buf@[k as int]));
        k += 1;
    }
    r
}

/// The number a header line spells, when it spells it in canonical decimal
/// (as written back, with no `+`, no leading zeros).
fn canonical_number(line: &[u8]) -> (r: Option<i64>)
    ensures
        r matches Some(n) ==> line@ == decimal_bytes(n as int),
        forall|n: i64| #[trigger] decimal_bytes(n as int) == line@ ==> r == Some(n),
{
    let r = match utf8_str(line) {
        Some(text) => match parse_i64(text) {
            Some(n) => {
                let back = i64_text(n);
                if bytes_equal(back.as_str().as_bytes(), line) {
                    Some(n)
                } else {
                    None
                }
            },
            None => None,
        },
        None => None,
    };
    proof {
        assert forall|n: i64| #[trigger] decimal_bytes(n as int) == line@ implies r == Some(n) by {
            lemma_decimal_bytes(n as int);
        }
    }
    r
}

/// Whether two byte strings are equal.
fn bytes_equal(a: &[u8], b: &[u8]) -> (r: bool)
    ensures
        r == (a@ == b@),
{
    if a.len() != b.len() {
        return false;
    }
    let mut k: usize = 0;
    while k < a.len()
        invariant
            a@.len() == b@.len(),
            k <= a@.len(),
            forall|j: int| 0 <= j < k ==> a@[j] == b@[j],
        decreases a@.len() - k,
    {
        if a[k] != b[k] {
            return false;
        }
        k += 1;
    }
    assert(a@ =~= b@);
    true
}

/// The wire form of a value occupies `buf[pos..end]`.
pub open spec fn holds_value(buf: Seq<u8>, pos: int, end: int, v: RespView) -> bool {
    pos < end <= buf.len() && buf.subrange(pos, end) == resp_bytes(v)
}

/// A read that gave `v`, ending at `stop`.
pub open spec fn parsed_as(r: Result<Option<(RespValue, usize)>, String>, v: RespView, stop: int) -> bool {
    match r {
        Ok(Some((w, e))) => w@ == v && e == stop,
        _ => false,
    }
}

/// A read of a whole value that gave `v`.
pub open spec fn next_is(r: Result<Option<RespValue>, String>, v: RespView) -> bool {
    match r {
        Ok(Some(w)) => w@ == v,
        _ => false,
    }
}

/// Reads a bulk string whose header line ends at `end`.
fn parse_bulk(buf: &[u8], pos: usize, end: usize, n: i64) -> (r: Result<Option<(RespValue, usize)>, String>)
    requires
        pos < end,
        end + 1 < buf@.len(),
        buf@[pos as int] == 0x24u8,
        buf@.subrange(pos + 1, end as int) == decimal_bytes(n as int),
        buf@[end as int] == 0x0du8,
        buf@[end + 1] == 0x0au8,
    ensures
        r matches Ok(Some((v, stop))) ==> holds_value(buf@, pos as int, stop as int, v@),
        n == -1 ==> parsed_as(r, RespView::BulkString(None), end + 2),
        n >= 0 && end + 2 + n + 2 <= buf@.len() && buf@[end + 2 + n] == 0x0du8 && buf@[end + 2 + n + 1] == 0x0au8
            ==> parsed_as(r, RespView::BulkString(Some(buf@.subrange(end + 2, end + 2 + n))), end + 2 + n + 2),
{
    let blen = buf.len();
    let after = end + 2;
    proof {
        assert(buf@.subrange(end as int, after as int) =~= crlf());
        assert(buf@.subrange(pos as int, after as int) =~= seq![buf@[pos as int]] + buf@.subrange(pos + 1, end as int)
            + buf@.subrange(end as int, after as int));
    }
    if n == -1 {
        proof {
            lemma_minus_one_bytes();
            assert(buf@.subrange(pos as int, after as int) =~= seq![0x24u8, 0x2du8, 0x31u8] + crlf());
        }
        return Ok(Some((RespValue::BulkString(None), after)));
    }
    if n < 0 || n as u64 > usize::MAX as u64 {
        return Err(owned("Protocol error: invalid bulk length"));
    }
    let len = n as usize;
    if buf.len() - after < len || buf.len() - after - len < 2 {
        return Ok(None);
    }
    let stop = after + len;
    if buf[stop] != 0x0du8 || buf[stop + 1] != 0x0au8 {
        return Err(owned("Protocol error: bulk string not terminated"));
    }
    let data = copy_range(buf, after, stop);
    proof {
        assert(n as int == len as int);
        assert(buf@.subrange(stop as int, stop + 2) =~= crlf());
        assert(buf@.subrange(pos as int, stop + 2) =~= seq![0x24u8] + decimal_bytes(data@.len() as int) + crlf()
            + data@ + crlf());
    }
    Ok(Some((RespValue::BulkString(Some(data)), stop + 2)))
}

/// The wire forms of the first `k` values are the front of those of all.
proof fn lemma_concat_front(items: Seq<RespView>, k: int)
    requires
        0 <= k <= items.len(),
    ensures
        resp_concat(items.take(k)).len() <= resp_concat(items).len(),
        resp_concat(items).subrange(0, resp_concat(items.take(k)).len() as int) == resp_concat(items.take(k)),
        k < items.len() ==> resp_concat(items.take(k + 1)) == resp_concat(items.take(k)) + resp_bytes(items[k]),
        k < items.len() && reads_back_all(items) ==> reads_back(items[k]),
        items.len() <= resp_concat(items).len(),
    decreases items.len(),
{
    if items.len() > 0 {
        let front = items.drop_last();
        assert(items.take(items.len() as int) =~= items);
        assert(resp_bytes(items.last()).len() > 0) by {
            lemma_wire_parts(items.last());
        }
        if k < items.len() {
            lemma_concat_front(front, k);
            assert(front.take(k) =~= items.take(k));
            assert(items.take(k + 1).drop_last() =~= items.take(k));
            if k + 1 < items.len() {
                lemma_concat_front(front, k + 1);
                assert(front.take(k + 1) =~= items.take(k + 1));
                assert(front[k] == items[k]);
            }
            assert(resp_concat(items) == resp_concat(front) + resp_bytes(items.last()));
            assert(resp_concat(items).subrange(0, resp_concat(items.take(k)).len() as int) =~= resp_concat(
                front,
            ).subrange(0, resp_concat(items.take(k)).len() as int));
        } else {
            lemma_concat_front(front, 0);
        }
    } else {
        assert(items.take(k) =~= items);
    }
}

/// Reads an array whose header line ends at `end`, its items one by one.
fn parse_array(buf: &[u8], pos: usize, end: usize, n: i64) -> (r: Result<Option<(RespValue, usize)>, String>)
    requires
        pos < end,
        end + 1 < buf@.len(),
        buf@[pos as int] == 0x2au8,
        buf@.subrange(pos + 1, end as int) == decimal_bytes(n as int),
        buf@[end as int] == 0x0du8,
        buf@[end + 1] == 0x0au8,
    ensures
        r matches Ok(Some((v, stop))) ==> holds_value(buf@, pos as int, stop as int, v@),
        n == -1 ==> parsed_as(r, RespView::Array(None), end + 2),
        forall|items: Seq<RespView>|
            #![trigger resp_concat(items)]
            items.len() == n && reads_back_all(items) && end + 2 + resp_concat(items).len() <= buf@.len()
                && buf@.subrange(end + 2, end + 2 + resp_concat(items).len()) == resp_concat(items) ==> parsed_as(
                r,
                RespView::Array(Some(items)),
                end + 2 + resp_concat(items).len(),
            ),
    decreases buf@.len() - pos, 0int,
{
    let blen = buf.len();
    let after = end + 2;
    proof {
        assert(buf@.subrange(end as int, after as int) =~= crlf());
        assert(buf@.subrange(pos as int, after as int) =~= seq![buf@[pos as int]] + buf@.subrange(pos + 1, end as int)
            + buf@.subrange(end as int, after as int));
    }
    if n == -1 {
        proof {
            lemma_minus_one_bytes();
            assert(buf@.subrange(pos as int, after as int) =~= seq![0x2au8, 0x2du8, 0x31u8] + crlf());
        }
        return Ok(Some((RespValue::Array(None), after)));
    }
    if n < 0 || n as u64 > usize::MAX as u64 {
        proof {
            assert forall|items: Seq<RespView>|
                #![trigger resp_concat(items)]
                items.len() == n && reads_back_all(items) && end + 2 + resp_concat(items).len() <= buf@.len()
                    && buf@.subrange(end + 2, end + 2 + resp_concat(items).len()) == resp_concat(items) implies false by {
                lemma_concat_front(items, 0);
            }
        }
        return Err(owned("Protocol error: invalid array length"));
    }
    let count = n as usize;
    let mut items: Vec<RespValue> = Vec::new();
    let mut at: usize = after;
    assert(buf@.subrange(after as int, at as int) =~= resp_concat(views(items@)));
    proof {
        assert forall|want: Seq<RespView>|
            #![trigger resp_concat(want)]
            want.len() == n && reads_back_all(want) && after + resp_concat(want).len() <= buf@.len() && buf@.subrange(
                after as int,
                after + resp_concat(want).len(),
            ) == resp_concat(want) implies views(items@) == want.take(0) && at == after + resp_concat(
            want.take(0),
        ).len() by {
            assert(views(items@) =~= want.take(0));
            assert(want.take(0) =~= Seq::<RespView>::empty());
        }
    }
    while items.len() < count
        invariant
            after <= at <= buf@.len(),
            after == end + 2,
            pos < after,
            count == n,
            items@.len() <= count,
            buf@.subrange(after as int, at as int) == resp_concat(views(items@)),
            forall|want: Seq<RespView>|
                #![trigger resp_concat(want)]
                want.len() == n && reads_back_all(want) && after + resp_concat(want).len() <= buf@.len()
                    && buf@.subrange(after as int, after + resp_concat(want).len()) == resp_concat(want) ==> views(
                    items@,
                ) == want.take(items@.len() as int) && at == after + resp_concat(want.take(items@.len() as int)).len(),
        decreases count - items@.len(),
    {
        let res = parse_value(buf, at);
        proof {
            assert forall|want: Seq<RespView>|
                #![trigger resp_concat(want)]
                want.len() == n && reads_back_all(want) && after + resp_concat(want).len() <= buf@.len()
                    && buf@.subrange(after as int, after + resp_concat(want).len()) == resp_concat(want) implies parsed_as(
                res,
                want[items@.len() as int],
                at + resp_bytes(want[items@.len() as int]).len(),
            ) by {
                let k = items@.len() as int;
                lemma_concat_front(want, k);
                lemma_concat_front(want, k + 1);
                let whole = resp_concat(want);
                let front = resp_concat(want.take(k));
                let item = resp_bytes(want[k]);
                lemma_subrange_within(buf@, after as int, whole, front.len() as int, front.len() + item.len() as int);
                assert(whole.subrange(front.len() as int, front.len() + item.len() as int) =~= item) by {
                    let pre = whole.subrange(0, front.len() + item.len() as int);
                    assert(pre == front + item);
                    assert forall|j: int| 0 <= j < item.len() implies whole.subrange(
                        front.len() as int,
                        front.len() + item.len() as int,
                    )[j] == item[j] by {
                        assert(pre[front.len() + j] == whole[front.len() + j]);
                        assert((front + item)[front.len() + j] == item[j]);
                    }
                }
                lemma_wire_parts(want[k]);
            }
        }
        match res {
            Ok(Some((item, next))) => {
                let ghost before = items@;
                items.push(item);
                proof {
                    assert(views(items@).drop_last() =~= views(before));
                    assert(buf@.subrange(after as int, next as int) =~= buf@.subrange(after as int, at as int)
                        + buf@.subrange(at as int, next as int));
                    assert forall|want: Seq<RespView>|
                        #![trigger resp_concat(want)]
                        want.len() == n && reads_back_all(want) && after + resp_concat(want).len() <= buf@.len()
                            && buf@.subrange(after as int, after + resp_concat(want).len()) == resp_concat(want) implies views(
                            items@,
                        ) == want.take(items@.len() as int) && next == after + resp_concat(
                            want.take(items@.len() as int),
                        ).len() by {
                        let k = before.len() as int;
                        lemma_concat_front(want, k);
                        assert(want.take(k + 1) =~= want.take(k).push(want[k]));
                        assert(views(items@) =~= views(before).push(item@));
                    }
                }
                at = next;
            },
            Ok(None) => return Ok(None),
            Err(e) => return Err(e),
        }
    }
    proof {
        lemma_array_view(items);
        assert(n as int == items@.len());
        assert(buf@.subrange(pos as int, at as int) =~= seq![0x2au8] + decimal_bytes(items@.len() as int) + crlf()
            + buf@.subrange(after as int, at as int));
        assert forall|want: Seq<RespView>|
            #![trigger resp_concat(want)]
            want.len() == n && reads_back_all(want) && end + 2 + resp_concat(want).len() <= buf@.len()
                && buf@.subrange(end + 2, end + 2 + resp_concat(want).len()) == resp_concat(want) implies views(items@)
            == want && at == end + 2 + resp_concat(want).len() by {
            assert(want.take(items@.len() as int) =~= want);
        }
    }
    Ok(Some((RespValue::Array(Some(items)), at)))
}

/// Reads one value from `buf` at `pos`: `Ok(Some((v, end)))` when
/// `buf[pos..end]` is the wire form of `v`, `Ok(None)` when more bytes are
/// needed, `Err` for bytes that are no RESP value. Where the wire form of a
/// value that reads back starts at `pos`, that value is read, whatever follows.
pub fn parse_value(buf: &[u8], pos: usize) -> (r: Result<Option<(RespValue, usize)>, String>)
    requires
        pos <= buf@.len(),
    ensures
        r matches Ok(Some((v, end))) ==> holds_value(buf@, pos as int, end as int, v@),
        forall|v: RespView|
            #![trigger resp_bytes(v)]
            reads_back(v) && holds_value(buf@, pos as int, pos + resp_bytes(v).len(), v) ==> parsed_as(
                r,
                v,
                pos + resp_bytes(v).len(),
            ),
    decreases buf@.len() - pos, 1int,
{
    if pos >= buf.len() {
        return Ok(None);
    }
    let kind = buf[pos];
    let found = find_crlf(buf, pos + 1);
    proof {
        assert forall|v: RespView|
            #![trigger resp_bytes(v)]
            reads_back(v) && holds_value(buf@, pos as int, pos + resp_bytes(v).len(), v) implies found == Some(
                (pos + 1 + head_line(v).len()) as usize,
            ) by {
            lemma_wire_shape(buf@, pos as int, v);
            let e = pos + 1 + head_line(v).len();
            match found {
                Some(f) => lemma_line_end_unique(buf@, pos + 1, f as int, e),
                None => {
                    assert(buf@[e] == 0x0du8 && buf@[e + 1] == 0x0au8);
                },
            }
        }
    }
    let end = match found {
        Some(e) => e,
        None => return Ok(None),
    };
    let line = copy_range(buf, pos + 1, end);
    let after = end + 2;
    proof {
        assert(buf@.subrange(end as int, after as int) =~= crlf());
    }
    let r = if kind == 0x2bu8 {
        proof {
            assert(buf@.subrange(pos as int, after as int) =~= seq![0x2bu8] + line@ + crlf());
        }
        Ok(Some((RespValue::SimpleString(line), after)))
    } else if kind == 0x2du8 {
        match utf8_str(line.as_slice()) {
            Some(text) => {
                let message = owned(text);
                proof {
                    vstd::utf8::decode_utf8_encode_utf8(line@);
                    assert(buf@.subrange(pos as int, after as int) =~= seq![0x2du8] + vstd::utf8::encode_utf8(message@)
                        + crlf());
                }
                Ok(Some((RespValue::Error(message), after)))
            },
            None => Err(owned("Protocol error: invalid UTF-8 in error reply")),
        }
    } else if kind == 0x3au8 {
        match canonical_number(line.as_slice()) {
            Some(n) => {
                proof {
                    assert(buf@.subrange(pos as int, after as int) =~= seq![0x3au8] + decimal_bytes(n as int) + crlf());
                }
                Ok(Some((RespValue::Integer(n), after)))
            },
            None => Err(owned("Protocol error: invalid integer")),
        }
    } else if kind == 0x24u8 {
        match canonical_number(line.as_slice()) {
            Some(n) => parse_bulk(buf, pos, end, n),
            None => Err(owned("Protocol error: invalid bulk length")),
        }
    } else if kind == 0x2au8 {
        match canonical_number(line.as_slice()) {
            Some(n) => parse_array(buf, pos, end, n),
            None => Err(owned("Protocol error: invalid array length")),
        }
    } else {
        Err(owned("Protocol error: invalid type byte"))
    };
    proof {
        assert forall|v: RespView|
            #![trigger resp_bytes(v)]
            reads_back(v) && holds_value(buf@, pos as int, pos + resp_bytes(v).len(), v) implies parsed_as(
                r,
                v,
                pos + resp_bytes(v).len(),
            ) by {
            lemma_wire_shape(buf@, pos as int, v);
            lemma_wire_parts(v);
            assert(line@ == head_line(v));
            lemma_minus_one_bytes();
            match v {
                RespView::Error(e) => {
                    vstd::utf8::encode_utf8_valid_utf8(e);
                    vstd::utf8::encode_utf8_decode_utf8(e);
                },
                RespView::BulkString(Some(b)) => {
                    let hl = head_line(v).len() as int;
                    assert(body_bytes(v) == b + crlf());
                    assert(buf@.subrange(after as int, after + b.len() + 2) == b + crlf());
                    assert(buf@[after + b.len()] == (b + crlf())[b.len() as int]);
                    assert(buf@[after + b.len() + 1] == (b + crlf())[b.len() as int + 1]);
                    assert(buf@.subrange(after as int, after + b.len()) =~= b);
                },
                RespView::Array(Some(items)) => {
                    lemma_concat_front(items, 0);
                },
                _ => {},
            }
        }
    }
    r
}

impl RespParser {
    /// The bytes received and not yet read.
    pub closed spec fn pending(&self) -> Seq<u8> {
        self.buffer@.subrange(self.position as int, self.buffer@.len() as int)
    }

    pub closed spec fn well_formed(&self) -> bool {
        self.position <= self.buffer@.len()
    }

    pub fn new() -> (r: Self)
        ensures
            r.well_formed(),
            r.pending() == Seq::<u8>::empty(),
    {
        let r = RespParser { buffer: Vec::new(), position: 0 };
        assert(r.pending() =~= Seq::<u8>::empty());
        r
    }

    /// Adds received bytes after those not yet read.
    pub fn feed(&mut self, data: &[u8])
        requires
            old(self).well_formed(),
        ensures
            final(self).well_formed(),
            final(self).pending() == old(self).pending() + data@,
    {
        let rest = copy_range(self.buffer.as_slice(), self.position, self.buffer.len());
        let mut buffer = rest;
        let mut k: usize = 0;
        let ghost start = buffer@;
        while k < data.len()
            invariant
                k <= data@.len(),
                buffer@ == start + data@.take(k as int),
            decreases data@.len() - k,
        {
            buffer.push(data[k]);
            assert(data@.take(k + 1) =~= data@.take(k as int).push(data@[k as int]));
            k += 1;
        }
        assert(data@.take(k as int) =~= data@);
        self.buffer = buffer;
        self.position = 0;
        assert(self.pending() =~= old(self).pending() + data@);
    }

    /// Reads the next complete value: `Ok(Some(v))` takes the wire form of `v`
    /// off the front of the pending bytes, `Ok(None)` leaves them for more to
    /// arrive, `Err` reports bytes that are no RESP value.
    pub fn parse_next(&mut self) -> (r: Result<Option<RespValue>, String>)
        requires
            old(self).well_formed(),
        ensures
            final(self).well_formed(),
            r matches Ok(Some(v)) ==> old(self).pending() == resp_bytes(v@) + final(self).pending(),
            !(r matches Ok(Some(_))) ==> final(self).pending() == old(self).pending(),
            forall|v: RespView|
                #![trigger resp_bytes(v)]
                reads_back(v) && resp_bytes(v).is_prefix_of(old(self).pending()) ==> next_is(r, v),
    {
        proof {
            let buf = self.buffer@;
            let pos = self.position as int;
            assert forall|v: RespView|
                #![trigger resp_bytes(v)]
                reads_back(v) && resp_bytes(v).is_prefix_of(self.pending()) implies holds_value(
                buf,
                pos,
                pos + resp_bytes(v).len(),
                v,
            ) by {
                lemma_wire_parts(v);
                assert(buf.subrange(pos, pos + resp_bytes(v).len()) =~= self.pending().subrange(
                    0,
                    resp_bytes(v).len() as int,
                ));
            }
        }
        match parse_value(self.buffer.as_slice(), self.position) {
            Ok(Some((v, end))) => {
                let ghost before = self.pending();
                self.position = end;
                proof {
                    assert(before =~= resp_bytes(v@) + self.pending());
                }
                Ok(Some(v))
            },
            Ok(None) => Ok(None),
            Err(e) => Err(e),
        }
    }
}

} // verus!
