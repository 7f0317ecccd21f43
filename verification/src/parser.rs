use vstd::prelude::*;

use crate::numerals::dec_digits;
use crate::numerals::parse_or_zero;
use crate::numerals::parse_usize_or_zero;
use crate::numerals::usize_to_string;

verus! {

/// The tag of one decoded protocol unit.
#[derive(Debug, PartialEq)]
pub enum ValueType {
    SimpleString,
    Error,
    Integer,
    Null,
    BulkString,
    Array,
}

/// One decoded protocol unit: a tag, the text it carries (absent for `Null`
/// and for arrays), and the elements when the unit is an array.
#[derive(Debug)]
pub struct Value {
    pub value: Option<String>,
    pub value_type: ValueType,
    pub null: bool,
    pub array: Vec<Value>,
}

/// The mathematical shape of a protocol unit: what a `Value` means, with
/// the representation details (option, flag, unused fields) stripped away.
pub enum WireValue {
    Simple(Seq<char>),
    Error(Seq<char>),
    Integer(Seq<char>),
    Bulk(Seq<char>),
    Null,
    Arr(Seq<WireValue>),
}

pub open spec fn opt_text(v: Option<String>) -> Seq<char> {
    match v {
        Some(s) => s@,
        None => Seq::empty(),
    }
}

/// The views of a run of units, element by element.
pub open spec fn views_of(vs: Seq<Value>) -> Seq<WireValue>
    decreases vs,
{
    Seq::new(
        vs.len(),
        |i: int|
            if 0 <= i < vs.len() {
                vs[i]@
            } else {
                WireValue::Null
            },
    )
}

impl View for Value {
    type V = WireValue;

    open spec fn view(&self) -> WireValue
        decreases self,
    {
        match self.value_type {
            ValueType::SimpleString => WireValue::Simple(opt_text(self.value)),
            ValueType::Error => WireValue::Error(opt_text(self.value)),
            ValueType::Integer => WireValue::Integer(opt_text(self.value)),
            ValueType::BulkString => WireValue::Bulk(opt_text(self.value)),
            ValueType::Null => WireValue::Null,
            ValueType::Array => WireValue::Arr(views_of(self.array@)),
        }
    }
}

/// A `Value` that carries what its tag promises: text-bearing tags hold
/// text, and array elements are themselves well formed.
pub open spec fn wf_value(v: Value) -> bool
    decreases v,
{
    match v.value_type {
        ValueType::Array => forall|i: int|
            0 <= i < v.array@.len() ==> wf_value(#[trigger] v.array@[i]),
        ValueType::Null => true,
        _ => v.value is Some,
    }
}

/// A `Value` whose representation fields all follow its tag: the `null`
/// flag marks exactly the null unit, text stands exactly under the
/// text-bearing tags, and only arrays hold elements, themselves tidy.
pub open spec fn tidy_value(v: Value) -> bool
    decreases v,
{
    &&& (v.null <==> v.value_type is Null)
    &&& (v.value is Some <==> !(v.value_type is Null || v.value_type is Array))
    &&& match v.value_type {
        ValueType::Array => forall|i: int|
            0 <= i < v.array@.len() ==> tidy_value(#[trigger] v.array@[i]),
        _ => v.array@.len() == 0,
    }
}

pub open spec fn crlf() -> Seq<char> {
    seq!['\r', '\n']
}

/// The UTF-8 byte length of one character.
pub open spec fn char_size(c: char) -> nat {
    vstd::utf8::encode_scalar(c as u32).len()
}

/// The UTF-8 byte length of a text: the unit bulk-string headers count.
pub open spec fn byte_len(t: Seq<char>) -> nat {
    vstd::utf8::encode_utf8(t).len()
}

/// The exact wire text of one unit. A bulk string is prefixed with the
/// byte length of its payload, which is what the decoder consumes back.
pub open spec fn encode(v: WireValue) -> Seq<char>
    decreases v,
{
    match v {
        WireValue::Simple(t) => seq!['+'] + t + crlf(),
        WireValue::Error(t) => seq!['-'] + t + crlf(),
        WireValue::Integer(t) => seq![':'] + t + crlf(),
        WireValue::Bulk(t) => seq!['$'] + dec_digits(byte_len(t)) + crlf() + t + crlf(),
        WireValue::Null => seq!['$', '-', '1'] + crlf(),
        WireValue::Arr(es) => seq!['*'] + dec_digits(es.len()) + crlf() + encode_all(es),
    }
}

/// The prefix of `t` that fills exactly `n` bytes once encoded: nothing
/// when the text runs out short of `n` bytes, or when the count lands
/// inside a character.
pub open spec fn take_bytes(t: Seq<char>, n: int) -> Option<Seq<char>>
    decreases t.len(),
{
    if n == 0 {
        Some(Seq::empty())
    } else if n < 0 || t.len() == 0 {
        None
    } else {
        match take_bytes(t.drop_first(), n - char_size(t[0])) {
            Some(rest) => Some(seq![t[0]] + rest),
            None => None,
        }
    }
}

proof fn lemma_char_size_range(c: char)
    ensures
        1 <= char_size(c) <= 4,
{
    vstd::utf8::char_is_scalar(c);
}

proof fn lemma_byte_len_unfold(t: Seq<char>)
    requires
        t.len() > 0,
    ensures
        byte_len(t) == char_size(t[0]) + byte_len(t.drop_first()),
{
}

/// A text consumed against its own byte length comes back whole.
proof fn lemma_take_bytes_all(t: Seq<char>)
    ensures
        take_bytes(t, byte_len(t) as int) == Some(t),
    decreases t.len(),
{
    if t.len() == 0 {
        assert(byte_len(t) == 0);
        assert(take_bytes(t, 0) == Some(Seq::<char>::empty()));
        assert(t =~= Seq::<char>::empty());
    } else {
        lemma_byte_len_unfold(t);
        lemma_char_size_range(t[0]);
        lemma_take_bytes_all(t.drop_first());
        assert(seq![t[0]] + t.drop_first() =~= t);
    }
}

/// The concatenation of the encodings of a run of units, in order.
pub open spec fn encode_all(es: Seq<WireValue>) -> Seq<char>
    decreases es,
{
    if es.len() == 0 {
        Seq::empty()
    } else {
        encode(es[0]) + encode_all(es.drop_first())
    }
}

pub proof fn lemma_encode_all_snoc(es: Seq<WireValue>, e: WireValue)
    ensures
        encode_all(es.push(e)) == encode_all(es) + encode(e),
    decreases es.len(),
{
    if es.len() == 0 {
        assert(es.push(e)[0] == e);
        assert(es.push(e).drop_first() =~= Seq::<WireValue>::empty());
        assert(encode_all(Seq::<WireValue>::empty()) == Seq::<char>::empty());
        assert(encode_all(es.push(e)) == encode(e) + Seq::<char>::empty());
        assert(encode_all(es.push(e)) =~= encode_all(es) + encode(e));
    } else {
        assert(es.push(e)[0] == es[0]);
        assert(es.push(e).drop_first() =~= es.drop_first().push(e));
        lemma_encode_all_snoc(es.drop_first(), e);
        assert(encode(es[0]) + (encode_all(es.drop_first()) + encode(e)) =~= (encode(es[0])
            + encode_all(es.drop_first())) + encode(e));
    }
}

/// Writes one well-formed unit back out in its exact wire form.
pub fn stringify(value: &Value) -> (r: String)
    requires
        wf_value(*value),
    ensures
        r@ == encode(value@),
    decreases *value,
{
    proof {
        reveal_strlit("+");
        reveal_strlit("-");
        reveal_strlit(":");
        reveal_strlit("$");
        reveal_strlit("*");
        reveal_strlit("\r\n");
        reveal_strlit("$-1\r\n");
    }
    let mut result = String::new();
    match value.value_type {
        ValueType::Array => {
            let ghost views = views_of(value.array@);
            result.append("*");
            let n = value.array.len();
            let count = usize_to_string(n);
            result.append(count.as_str());
            result.append("\r\n");
            proof {
                assert(views.subrange(0, 0) =~= Seq::<WireValue>::empty());
                assert(result@ =~= seq!['*'] + dec_digits(n as nat) + crlf() + encode_all(
                    views.subrange(0, 0),
                ));
            }
            let mut idx: usize = 0;
            while idx < n
                invariant
                    wf_value(*value),
                    value.value_type is Array,
                    n == value.array@.len(),
                    0 <= idx <= n,
                    views == views_of(value.array@),
                    result@ == seq!['*'] + dec_digits(n as nat) + crlf() + encode_all(
                        views.subrange(0, idx as int),
                    ),
                decreases n - idx,
            {
                let piece = stringify(&value.array[idx]);
                result.append(piece.as_str());
                proof {
                    lemma_encode_all_snoc(views.subrange(0, idx as int), views[idx as int]);
                    assert(views.subrange(0, idx as int).push(views[idx as int]) =~= views
                        .subrange(0, idx as int + 1));
                    assert(result@ =~= seq!['*'] + dec_digits(n as nat) + crlf() + encode_all(
                        views.subrange(0, idx as int + 1),
                    ));
                }
                idx += 1;
            }
            proof {
                assert(views.subrange(0, n as int) =~= views);
                assert(result@ =~= encode(value@));
            }
        },
        ValueType::SimpleString => {
            let s = value.value.as_ref().unwrap();
            result.append("+");
            result.append(s.as_str());
            result.append("\r\n");
            proof {
                assert(result@ =~= encode(value@));
            }
        },
        ValueType::Error => {
            let s = value.value.as_ref().unwrap();
            result.append("-");
            result.append(s.as_str());
            result.append("\r\n");
            proof {
                assert(result@ =~= encode(value@));
            }
        },
        ValueType::Integer => {
            let s = value.value.as_ref().unwrap();
            result.append(":");
            result.append(s.as_str());
            result.append("\r\n");
            proof {
                assert(result@ =~= encode(value@));
            }
        },
        ValueType::Null => {
            result.append("$-1\r\n");
            proof {
                assert(result@ =~= encode(value@));
            }
        },
        ValueType::BulkString => {
            let s = value.value.as_ref().unwrap();
            result.append("$");
            let bytes = s.as_str().as_bytes_vec();
            let len = usize_to_string(bytes.len());
            result.append(len.as_str());
            result.append("\r\n");
            result.append(s.as_str());
            result.append("\r\n");
            proof {
                assert(result@ =~= encode(value@));
            }
        },
    }
    result
}

/// Text that can ride inside one line of the wire format: free of the
/// carriage-return and line-feed characters that delimit lines.
pub open spec fn line_ok(t: Seq<char>) -> bool {
    forall|i: int| 0 <= i < t.len() ==> (#[trigger] t[i]) != '\r' && t[i] != '\n'
}

/// A unit whose wire form decodes back to it: its texts stay clear of the
/// line terminator, and its lengths fit the machine word that the decoder
/// parses them into.
pub open spec fn wire_ok(v: WireValue) -> bool
    decreases v,
{
    match v {
        WireValue::Simple(t) => line_ok(t),
        WireValue::Error(t) => line_ok(t),
        WireValue::Integer(t) => line_ok(t),
        WireValue::Bulk(t) => line_ok(t) && byte_len(t) <= usize::MAX,
        WireValue::Null => true,
        WireValue::Arr(es) => es.len() <= usize::MAX && forall|i: int|
            0 <= i < es.len() ==> wire_ok(#[trigger] es[i]),
    }
}

/// Why a decode failed: no line terminator in reach, a bulk-string payload
/// shorter than its declared length, a unit tag outside the grammar, or a
/// buffer that ends where a unit should begin.
#[derive(Debug, PartialEq, Eq, Structural, Clone, Copy)]
pub enum DecodeError {
    MissingTerminator,
    LengthMismatch,
    UnknownType,
    UnexpectedEnd,
}

/// The position of the first carriage-return-line-feed pair at or after `i`.
pub open spec fn find_crlf(s: Seq<char>, i: int) -> Option<int>
    decreases s.len() - i,
{
    if i < 0 || i + 1 >= s.len() {
        None
    } else if s[i] == '\r' && s[i + 1] == '\n' {
        Some(i)
    } else {
        find_crlf(s, i + 1)
    }
}

/// One line read from position `i`: the text before the first terminator,
/// and the position just past the terminator. `None` when no terminator is
/// left, which the decoder treats as a malformed line.
pub open spec fn spec_line(s: Seq<char>, i: int) -> Option<(Seq<char>, int)> {
    match find_crlf(s, i) {
        Some(j) => Some((s.subrange(i, j), j + 2)),
        None => None,
    }
}

proof fn lemma_find_crlf_bounds(s: Seq<char>, i: int)
    requires
        0 <= i,
    ensures
        match find_crlf(s, i) {
            Some(j) => i <= j && j + 1 < s.len() && s[j] == '\r' && s[j + 1] == '\n' && forall|
                m: int,
            | i <= m < j ==> !((#[trigger] s[m]) == '\r' && s[m + 1] == '\n'),
            None => forall|m: int|
                i <= m && m + 1 < s.len() ==> !((#[trigger] s[m]) == '\r' && s[m + 1] == '\n'),
        },
    decreases s.len() - i,
{
    if !(i < 0 || i + 1 >= s.len()) && !(s[i] == '\r' && s[i + 1] == '\n') {
        lemma_find_crlf_bounds(s, i + 1);
    }
}

/// One unit decoded from position `i` of `s`: the unit and the position
/// just past everything it consumed. Numeric headers that fail to parse
/// count as zero; a failure never consumes. The checks that positions
/// stay inside the buffer ground the recursion; a line read past a tag
/// always lands beyond where it started, so they never answer.
pub open spec fn dec(s: Seq<char>, i: int) -> Result<(WireValue, int), DecodeError>
    decreases s.len() - i, 0int,
{
    if i < 0 || i >= s.len() {
        Err(DecodeError::UnexpectedEnd)
    } else {
        let c = s[i];
        if c == '+' {
            match spec_line(s, i + 1) {
                Some(t) => Ok((WireValue::Simple(t.0), t.1)),
                None => Err(DecodeError::MissingTerminator),
            }
        } else if c == '-' {
            match spec_line(s, i + 1) {
                Some(t) => Ok((WireValue::Error(t.0), t.1)),
                None => Err(DecodeError::MissingTerminator),
            }
        } else if c == ':' {
            match spec_line(s, i + 1) {
                Some(t) => Ok((WireValue::Integer(t.0), t.1)),
                None => Err(DecodeError::MissingTerminator),
            }
        } else if c == '$' {
            match spec_line(s, i + 1) {
                None => Err(DecodeError::MissingTerminator),
                Some(hd) => if hd.0 == seq!['-', '1'] {
                    Ok((WireValue::Null, hd.1))
                } else {
                    let n = parse_or_zero(hd.0);
                    match spec_line(s, hd.1) {
                        None => Err(DecodeError::MissingTerminator),
                        Some(pl) => match take_bytes(pl.0, n as int) {
                            None => Err(DecodeError::LengthMismatch),
                            Some(t) => Ok((WireValue::Bulk(t), pl.1)),
                        },
                    }
                },
            }
        } else if c == '*' {
            match spec_line(s, i + 1) {
                None => Err(DecodeError::MissingTerminator),
                Some(hd) => if hd.1 <= i || hd.1 > s.len() {
                    Err(DecodeError::MissingTerminator)
                } else {
                    match dec_list(s, hd.1, parse_or_zero(hd.0)) {
                        Ok(t) => Ok((WireValue::Arr(t.0), t.1)),
                        Err(e) => Err(e),
                    }
                },
            }
        } else {
            Err(DecodeError::UnknownType)
        }
    }
}

/// `n` units decoded one after the other from position `i`.
pub open spec fn dec_list(s: Seq<char>, i: int, n: nat) -> Result<
    (Seq<WireValue>, int),
    DecodeError,
>
    decreases s.len() - i, n as int,
{
    if n == 0 {
        Ok((Seq::empty(), i))
    } else {
        match dec(s, i) {
            Err(e) => Err(e),
            Ok(hd) => if hd.1 <= i || hd.1 > s.len() {
                Err(DecodeError::UnexpectedEnd)
            } else {
                match dec_list(s, hd.1, (n - 1) as nat) {
                    Err(e) => Err(e),
                    Ok(tl) => Ok((seq![hd.0] + tl.0, tl.1)),
                }
            },
        }
    }
}

proof fn lemma_dec_progress(s: Seq<char>, i: int)
    ensures
        match dec(s, i) {
            Ok(t) => i < t.1 <= s.len(),
            Err(_) => true,
        },
    decreases s.len() - i, 0int,
{
    if 0 <= i < s.len() {
        lemma_find_crlf_bounds(s, i + 1);
        if s[i] == '$' {
            match spec_line(s, i + 1) {
                Some(hd) => {
                    lemma_find_crlf_bounds(s, hd.1);
                },
                None => {},
            }
        }
        if s[i] == '*' {
            match spec_line(s, i + 1) {
                Some(hd) => {
                    if i < hd.1 <= s.len() {
                        lemma_dec_list_progress(s, hd.1, parse_or_zero(hd.0));
                    }
                },
                None => {},
            }
        }
    }
}

proof fn lemma_dec_list_progress(s: Seq<char>, i: int, n: nat)
    requires
        i <= s.len(),
    ensures
        match dec_list(s, i, n) {
            Ok(t) => i <= t.1 <= s.len(),
            Err(_) => true,
        },
    decreases s.len() - i, n as int,
{
    if n > 0 {
        lemma_dec_progress(s, i);
        match dec(s, i) {
            Ok(hd) => {
                if i < hd.1 <= s.len() {
                    lemma_dec_list_progress(s, hd.1, (n - 1) as nat);
                }
            },
            Err(_) => {},
        }
    }
}

proof fn lemma_find_crlf_exact(s: Seq<char>, i: int, j: int)
    requires
        0 <= i <= j,
        j + 1 < s.len(),
        s[j] == '\r',
        s[j + 1] == '\n',
        forall|m: int| i <= m < j ==> !((#[trigger] s[m]) == '\r' && s[m + 1] == '\n'),
    ensures
        find_crlf(s, i) == Some(j),
{
    lemma_find_crlf_bounds(s, i);
    match find_crlf(s, i) {
        Some(j2) => {
            if j2 < j {
                assert(!(s[j2] == '\r' && s[j2 + 1] == '\n'));
            }
            if j2 > j {
                assert(!(s[j] == '\r' && s[j + 1] == '\n'));
            }
        },
        None => {
            assert(!(s[j] == '\r' && s[j + 1] == '\n'));
        },
    }
}

proof fn lemma_sub_sub(s: Seq<char>, i: int, e: Seq<char>, a: int, b: int)
    requires
        0 <= i,
        i + e.len() <= s.len(),
        s.subrange(i, i + e.len() as int) == e,
        0 <= a <= b <= e.len(),
    ensures
        s.subrange(i + a, i + b) == e.subrange(a, b),
{
    assert forall|k: int| 0 <= k < b - a implies s.subrange(i + a, i + b)[k] == e.subrange(a, b)[k]
        by {
        assert(s.subrange(i, i + e.len() as int)[a + k] == e[a + k]);
    }
    assert(s.subrange(i + a, i + b) =~= e.subrange(a, b));
}

/// A line-terminator-free text followed by the terminator reads back as
/// exactly that text.
proof fn lemma_line_exact(s: Seq<char>, i: int, t: Seq<char>)
    requires
        0 <= i,
        line_ok(t),
        i + t.len() + 2 <= s.len(),
        s.subrange(i, i + t.len() + 2) == t + crlf(),
    ensures
        spec_line(s, i) == Some((t, i + t.len() + 2)),
{
    let e = t + crlf();
    let j = i + t.len();
    assert forall|m: int| i <= m < j implies !((#[trigger] s[m]) == '\r' && s[m + 1] == '\n') by {
        assert(s.subrange(i, i + e.len() as int)[m - i] == e[m - i]);
        assert(e[m - i] == t[m - i]);
        assert(t[m - i] != '\r');
    }
    assert(s.subrange(i, i + e.len() as int)[t.len() as int] == e[t.len() as int]);
    assert(s.subrange(i, i + e.len() as int)[t.len() as int + 1] == e[t.len() as int + 1]);
    assert(s[j] == '\r');
    assert(s[j + 1] == '\n');
    lemma_find_crlf_exact(s, i, j);
    lemma_sub_sub(s, i, e, 0, t.len() as int);
    assert(e.subrange(0, t.len() as int) =~= t);
    assert(s.subrange(i, j) == t);
}

proof fn lemma_digits_line_ok(d: Seq<char>)
    requires
        crate::numerals::all_digits(d),
    ensures
        line_ok(d),
{
    assert forall|i: int| 0 <= i < d.len() implies (#[trigger] d[i]) != '\r' && d[i] != '\n' by {
        assert(crate::numerals::is_digit(d[i]));
    }
}

proof fn lemma_encode_len(v: WireValue)
    ensures
        encode(v).len() >= 3,
{
    match v {
        WireValue::Simple(_) => {},
        WireValue::Error(_) => {},
        WireValue::Integer(_) => {},
        WireValue::Bulk(t) => {
            crate::numerals::lemma_dec_digits_shape(byte_len(t));
        },
        WireValue::Null => {},
        WireValue::Arr(es) => {
            crate::numerals::lemma_dec_digits_shape(es.len());
        },
    }
}

/// Decoding from the start of a unit's wire form, wherever it stands in a
/// larger buffer, yields the unit back and stops exactly past it.
proof fn lemma_decode_encode_at(v: WireValue, s: Seq<char>, i: int)
    requires
        wire_ok(v),
        0 <= i,
        i + encode(v).len() <= s.len(),
        s.subrange(i, i + encode(v).len() as int) == encode(v),
    ensures
        dec(s, i) == Ok::<(WireValue, int), DecodeError>((v, i + encode(v).len() as int)),
    decreases v,
{
    let e = encode(v);
    let ln = e.len() as int;
    lemma_encode_len(v);
    assert(s.subrange(i, i + ln)[0] == e[0]);
    assert(s[i] == e[0]);
    match v {
        WireValue::Simple(t) => {
            assert(s[i] == '+');
            assert(e.subrange(1, ln) =~= t + crlf());
            lemma_sub_sub(s, i, e, 1, ln);
            lemma_line_exact(s, i + 1, t);
        },
        WireValue::Error(t) => {
            assert(s[i] == '-');
            assert(e.subrange(1, ln) =~= t + crlf());
            lemma_sub_sub(s, i, e, 1, ln);
            lemma_line_exact(s, i + 1, t);
        },
        WireValue::Integer(t) => {
            assert(s[i] == ':');
            assert(e.subrange(1, ln) =~= t + crlf());
            lemma_sub_sub(s, i, e, 1, ln);
            lemma_line_exact(s, i + 1, t);
        },
        WireValue::Null => {
            assert(s[i] == '$');
            let t = seq!['-', '1'];
            assert(line_ok(t));
            assert(e.subrange(1, ln) =~= t + crlf());
            lemma_sub_sub(s, i, e, 1, ln);
            lemma_line_exact(s, i + 1, t);
        },
        WireValue::Bulk(t) => {
            assert(s[i] == '$');
            crate::numerals::lemma_dec_digits_shape(byte_len(t));
            crate::numerals::lemma_dec_digits_parse(byte_len(t));
            let d = dec_digits(byte_len(t));
            let dl = d.len() as int;
            lemma_digits_line_ok(d);
            assert(e.subrange(1, 1 + dl + 2) =~= d + crlf());
            lemma_sub_sub(s, i, e, 1, 1 + dl + 2);
            lemma_line_exact(s, i + 1, d);
            assert(crate::numerals::is_digit(d[0]));
            assert(d != seq!['-', '1']);
            let p1 = i + 1 + dl + 2;
            assert(e.subrange(1 + dl + 2, ln) =~= t + crlf());
            lemma_sub_sub(s, i, e, 1 + dl + 2, ln);
            lemma_line_exact(s, p1, t);
            lemma_take_bytes_all(t);
        },
        WireValue::Arr(es) => {
            assert(s[i] == '*');
            crate::numerals::lemma_dec_digits_shape(es.len());
            crate::numerals::lemma_dec_digits_parse(es.len());
            let d = dec_digits(es.len());
            let dl = d.len() as int;
            lemma_digits_line_ok(d);
            assert(e.subrange(1, 1 + dl + 2) =~= d + crlf());
            lemma_sub_sub(s, i, e, 1, 1 + dl + 2);
            lemma_line_exact(s, i + 1, d);
            let p1 = i + 1 + dl + 2;
            assert(e.subrange(1 + dl + 2, ln) =~= encode_all(es));
            lemma_sub_sub(s, i, e, 1 + dl + 2, ln);
            lemma_decode_encode_list_at(es, s, p1);
        },
    }
}

/// Decoding the concatenated wire forms of a run of units yields the run
/// back, element for element.
proof fn lemma_decode_encode_list_at(es: Seq<WireValue>, s: Seq<char>, i: int)
    requires
        forall|k: int| 0 <= k < es.len() ==> wire_ok(#[trigger] es[k]),
        0 <= i,
        i + encode_all(es).len() <= s.len(),
        s.subrange(i, i + encode_all(es).len() as int) == encode_all(es),
    ensures
        dec_list(s, i, es.len()) == Ok::<(Seq<WireValue>, int), DecodeError>(
            (es, i + encode_all(es).len() as int),
        ),
    decreases es,
{
    if es.len() == 0 {
        assert(dec_list(s, i, 0) == Ok::<(Seq<WireValue>, int), DecodeError>((Seq::empty(), i)));
        assert(es =~= Seq::<WireValue>::empty());
    } else {
        let e = encode_all(es);
        let e0 = encode(es[0]);
        let rest = encode_all(es.drop_first());
        assert(e == e0 + rest);
        lemma_encode_len(es[0]);
        assert(e.subrange(0, e0.len() as int) =~= e0);
        lemma_sub_sub(s, i, e, 0, e0.len() as int);
        lemma_decode_encode_at(es[0], s, i);
        let p1 = i + e0.len() as int;
        assert(e.subrange(e0.len() as int, e.len() as int) =~= rest);
        lemma_sub_sub(s, i, e, e0.len() as int, e.len() as int);
        lemma_decode_encode_list_at(es.drop_first(), s, p1);
        assert(seq![es[0]] + es.drop_first() =~= es);
        assert((es.len() - 1) as nat == es.drop_first().len());
    }
}

/// Round trip: the wire form of any well-formed unit decodes back to that
/// unit, consuming the whole form.
pub proof fn lemma_decode_encode(v: WireValue)
    requires
        wire_ok(v),
    ensures
        dec(encode(v), 0) == Ok::<(WireValue, int), DecodeError>((v, encode(v).len() as int)),
{
    assert(encode(v).subrange(0, encode(v).len() as int) =~= encode(v));
    lemma_decode_encode_at(v, encode(v), 0);
}

/// A cursor walking a byte buffer, reading one character or one
/// terminator-delimited line at a time, and decoding units by recursive
/// descent over the grammar.
pub struct Parser {
    cursor: usize,
    buf: String,
}

/// Reads the line that starts at `start`: the text before the first
/// terminator and the position just past it, or a malformed-line error when
/// no terminator is left.
fn line_at(buf: &String, start: usize) -> (r: (Result<String, DecodeError>, usize))
    requires
        start as int <= buf@.len(),
    ensures
        match spec_line(buf@, start as int) {
            Some(t) => r.0 matches Ok(x) && x@ == t.0 && r.1 as int == t.1 && start + 2 <= t.1
                <= buf@.len(),
            None => r.0 matches Err(e) && e == DecodeError::MissingTerminator && r.1 == start,
        },
{
    let len = buf.as_str().unicode_len();
    let mut k = start;
    while len - k > 1
        invariant
            start <= k <= len,
            len == buf@.len(),
            forall|m: int| start <= m < k ==> !((#[trigger] buf@[m]) == '\r' && buf@[m + 1] == '\n'),
        decreases len - k,
    {
        if buf.as_str().get_char(k) == '\r' && buf.as_str().get_char(k + 1) == '\n' {
            proof {
                lemma_find_crlf_bounds(buf@, start as int);
                match find_crlf(buf@, start as int) {
                    Some(j) => {
                        assert(!(j < k as int));
                        assert(!(j > k as int));
                    },
                    None => {
                        assert(false);
                    },
                }
            }
            let text = String::from_str(buf.as_str().substring_char(start, k));
            return (Ok(text), k + 2);
        }
        k += 1;
    }
    proof {
        lemma_find_crlf_bounds(buf@, start as int);
        match find_crlf(buf@, start as int) {
            Some(j) => {
                assert(false);
            },
            None => {},
        }
    }
    (Err(DecodeError::MissingTerminator), start)
}

/// How many bytes the character fills once encoded.
fn utf8_size(c: char) -> (r: usize)
    ensures
        r as nat == char_size(c),
{
    proof {
        vstd::utf8::char_is_scalar(c);
    }
    let v = c as u32;
    if v <= 0x7F {
        1
    } else if v <= 0x7FF {
        2
    } else if v <= 0xFFFF {
        3
    } else {
        4
    }
}

/// The longest prefix of `line` that fills exactly `n` bytes, or a length
/// mismatch when the line falls short or `n` lands inside a character.
fn take_payload(line: &String, n: usize) -> (r: Result<String, DecodeError>)
    ensures
        match take_bytes(line@, n as int) {
            Some(t) => r matches Ok(x) && x@ == t,
            None => r matches Err(e) && e == DecodeError::LengthMismatch,
        },
{
    let llen = line.as_str().unicode_len();
    let mut k: usize = 0;
    let mut remaining: usize = n;
    proof {
        assert(line@.skip(0) =~= line@);
        assert(line@.subrange(0, 0) =~= Seq::<char>::empty());
    }
    while k < llen && remaining > 0
        invariant
            k <= llen,
            llen == line@.len(),
            remaining <= n,
            take_bytes(line@, n as int) == (match take_bytes(
                line@.skip(k as int),
                remaining as int,
            ) {
                Some(rest) => Some(line@.subrange(0, k as int) + rest),
                None => None::<Seq<char>>,
            }),
        decreases llen - k,
    {
        let c = line.as_str().get_char(k);
        let cs = utf8_size(c);
        proof {
            assert(line@.skip(k as int)[0] == line@[k as int]);
            assert(line@.skip(k as int).drop_first() =~= line@.skip(k as int + 1));
        }
        if cs > remaining {
            proof {
                assert(take_bytes(
                    line@.skip(k as int + 1),
                    remaining as int - char_size(line@[k as int]),
                ) == None::<Seq<char>>);
                assert(take_bytes(line@.skip(k as int), remaining as int) == None::<Seq<char>>);
            }
            return Err(DecodeError::LengthMismatch);
        }
        remaining = remaining - cs;
        proof {
            assert(line@.subrange(0, k as int) + (seq![line@[k as int]] + line@.skip(
                k as int + 1,
            ).subrange(0, 0)) =~= line@.subrange(0, k as int + 1) + line@.skip(
                k as int + 1,
            ).subrange(0, 0));
            match take_bytes(line@.skip(k as int + 1), remaining as int) {
                Some(rest) => {
                    assert(line@.subrange(0, k as int) + (seq![line@[k as int]] + rest)
                        =~= line@.subrange(0, k as int + 1) + rest);
                },
                None => {},
            }
        }
        k += 1;
    }
    if remaining > 0 {
        proof {
            assert(line@.skip(k as int).len() == 0);
        }
        return Err(DecodeError::LengthMismatch);
    }
    proof {
        assert(take_bytes(line@.skip(k as int), 0) == Some(Seq::<char>::empty()));
        assert(line@.subrange(0, k as int) + Seq::<char>::empty() =~= line@.subrange(
            0,
            k as int,
        ));
    }
    Ok(String::from_str(line.as_str().substring_char(0, k)))
}

/// Decodes the unit that starts at `cursor`, returning it together with
/// the position just past what it consumed; a failure returns `cursor`
/// unchanged. Matches `dec` case for case.
fn parse_at(buf: &String, cursor: usize) -> (r: (Result<Value, DecodeError>, usize))
    requires
        cursor as int <= buf@.len(),
    ensures
        r.1 as int <= buf@.len(),
        match dec(buf@, cursor as int) {
            Ok(t) => r.0 matches Ok(v) && v@ == t.0 && wf_value(v) && tidy_value(v) && r.1 as int
                == t.1,
            Err(e) => r.0 matches Err(e2) && e2 == e && r.1 == cursor,
        },
    decreases buf@.len() - cursor,
{
    proof {
        reveal_strlit("-1");
        assert("-1"@ =~= seq!['-', '1']);
    }
    let len = buf.as_str().unicode_len();
    if cursor >= len {
        return (Err(DecodeError::UnexpectedEnd), cursor);
    }
    let c = buf.as_str().get_char(cursor);
    let after_tag = cursor + 1;
    if c == '+' {
        match line_at(buf, after_tag) {
            (Ok(text), p) => (
                (
                    Ok(
                        Value {
                            value: Some(text),
                            value_type: ValueType::SimpleString,
                            null: false,
                            array: Vec::new(),
                        },
                    ),
                    p,
                )
            ),
            (Err(e), _) => ((Err(e), cursor)),
        }
    } else if c == '-' {
        match line_at(buf, after_tag) {
            (Ok(text), p) => (
                (
                    Ok(
                        Value {
                            value: Some(text),
                            value_type: ValueType::Error,
                            null: false,
                            array: Vec::new(),
                        },
                    ),
                    p,
                )
            ),
            (Err(e), _) => ((Err(e), cursor)),
        }
    } else if c == ':' {
        match line_at(buf, after_tag) {
            (Ok(text), p) => (
                (
                    Ok(
                        Value {
                            value: Some(text),
                            value_type: ValueType::Integer,
                            null: false,
                            array: Vec::new(),
                        },
                    ),
                    p,
                )
            ),
            (Err(e), _) => ((Err(e), cursor)),
        }
    } else if c == '$' {
        let (hd, p1) = line_at(buf, after_tag);
        match hd {
            Err(e) => ((Err(e), cursor)),
            Ok(header) => {
                if header == String::from_str("-1") {
                    (
                        (
                            Ok(
                                Value {
                                    value: None,
                                    value_type: ValueType::Null,
                                    null: true,
                                    array: Vec::new(),
                                },
                            ),
                            p1,
                        )
                    )
                } else {
                    let n = parse_usize_or_zero(header.as_str());
                    let (pl, p2) = line_at(buf, p1);
                    match pl {
                        Err(e) => ((Err(e), cursor)),
                        Ok(line) => match take_payload(&line, n) {
                            Err(e) => ((Err(e), cursor)),
                            Ok(payload) => (
                                (
                                    Ok(
                                        Value {
                                            value: Some(payload),
                                            value_type: ValueType::BulkString,
                                            null: false,
                                            array: Vec::new(),
                                        },
                                    ),
                                    p2,
                                )
                            ),
                        },
                    }
                }
            },
        }
    } else if c == '*' {
        let (hd, p1) = line_at(buf, after_tag);
        match hd {
            Err(e) => ((Err(e), cursor)),
            Ok(header) => {
                let cnt = parse_usize_or_zero(header.as_str());
                let ghost start_list = p1 as int;
                let mut arr: Vec<Value> = Vec::new();
                let mut p = p1;
                let mut k: usize = 0;
                proof {
                    assert(views_of(arr@) =~= Seq::<WireValue>::empty());
                }
                while k < cnt
                    invariant
                        cursor < p <= buf@.len(),
                        k <= cnt,
                        arr@.len() == k,
                        dec(buf@, cursor as int) == (match dec_list(buf@, start_list, cnt as nat) {
                            Ok(t) => Ok::<(WireValue, int), DecodeError>((WireValue::Arr(t.0), t.1)),
                            Err(e) => Err::<(WireValue, int), DecodeError>(e),
                        }),
                        forall|m: int| 0 <= m < k ==> wf_value(#[trigger] arr@[m]),
                        forall|m: int| 0 <= m < k ==> tidy_value(#[trigger] arr@[m]),
                        dec_list(buf@, start_list, cnt as nat) == (match dec_list(
                            buf@,
                            p as int,
                            (cnt - k) as nat,
                        ) {
                            Ok(t) => Ok::<(Seq<WireValue>, int), DecodeError>(
                                (views_of(arr@) + t.0, t.1),
                            ),
                            Err(e) => Err::<(Seq<WireValue>, int), DecodeError>(e),
                        }),
                    decreases cnt - k,
                {
                    let (elem, p2) = parse_at(buf, p);
                    proof {
                        lemma_dec_progress(buf@, p as int);
                    }
                    match elem {
                        Err(e) => {
                            return (Err(e), cursor);
                        },
                        Ok(v) => {
                            proof {
                                assert(views_of(arr@.push(v)) =~= views_of(arr@) + seq![v@]);
                                match dec_list(buf@, p2 as int, (cnt - k - 1) as nat) {
                                    Ok(t) => {
                                        assert((views_of(arr@) + seq![v@]) + t.0 =~= views_of(
                                            arr@,
                                        ) + (seq![v@] + t.0));
                                    },
                                    Err(_) => {},
                                }
                            }
                            arr.push(v);
                            p = p2;
                            k += 1;
                        },
                    }
                }
                proof {
                    assert(views_of(arr@) + Seq::<WireValue>::empty() =~= views_of(arr@));
                }
                (
                    (
                        Ok(
                            Value {
                                value: None,
                                value_type: ValueType::Array,
                                null: false,
                                array: arr,
                            },
                        ),
                        p,
                    )
                )
            },
        }
    } else {
        ((Err(DecodeError::UnknownType), cursor))
    }
}

impl Parser {
    /// Where the cursor stands, as a character position.
    pub closed spec fn pos(&self) -> int {
        self.cursor as int
    }

    /// The buffer being decoded.
    pub closed spec fn text(&self) -> Seq<char> {
        self.buf@
    }

    /// The cursor never leaves the buffer.
    pub closed spec fn wf(&self) -> bool {
        self.cursor as int <= self.buf@.len()
    }

    pub fn new(input: String) -> (r: Parser)
        ensures
            r.text() == input@,
            r.pos() == 0,
            r.wf(),
    {
        Parser { cursor: 0, buf: input }
    }

    /// Reads the character under the cursor and advances past it.
    pub fn next(&mut self) -> (c: char)
        requires
            old(self).pos() < old(self).text().len(),
    ensures
            final(self).text() == old(self).text(),
            final(self).pos() == old(self).pos() + 1,
            final(self).wf(),
            c == old(self).text()[old(self).pos()],
    {
        let len = self.buf.as_str().unicode_len();
        let c = self.buf.as_str().get_char(self.cursor);
        self.cursor = self.cursor + 1;
        proof {
            assert(self.cursor <= len);
        }
        c
    }

    /// Reads one terminator-delimited line from the cursor onward, or
    /// reports the line malformed when no terminator is left.
    pub fn next_command(&mut self) -> (r: Result<String, DecodeError>)
        requires
            old(self).wf(),
        ensures
            final(self).text() == old(self).text(),
            final(self).wf(),
            match spec_line(old(self).text(), old(self).pos()) {
                Some(t) => r matches Ok(x) && x@ == t.0 && final(self).pos() == t.1,
                None => r matches Err(e) && e == DecodeError::MissingTerminator && final(self).pos()
                    == old(self).pos(),
            },
    {
        let (r, p) = line_at(&self.buf, self.cursor);
        self.cursor = p;
        r
    }

    /// Decodes one unit from the cursor onward and advances past it; a
    /// failure reports its cause and leaves the cursor where it stood.
    pub fn parse(&mut self) -> (r: Result<Value, DecodeError>)
        requires
            old(self).wf(),
        ensures
            final(self).text() == old(self).text(),
            final(self).wf(),
            match dec(old(self).text(), old(self).pos()) {
                Ok(t) => r matches Ok(v) && v@ == t.0 && wf_value(v) && tidy_value(v)
                    && final(self).pos() == t.1,
                Err(e) => r matches Err(e2) && e2 == e && final(self).pos() == old(self).pos(),
            },
    {
        let (r, p) = parse_at(&self.buf, self.cursor);
        self.cursor = p;
        r
    }
}

} // verus!
