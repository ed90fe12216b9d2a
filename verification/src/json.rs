//! The JSON documents that travel over the wire: declarative request
//! bodies and the authentication exchange.
//!
//! The library models a JSON document with [`JsonValue`] (numbers are
//! 64-bit integers; floating-point documents are not representable) and
//! carries its own verified serializer and parser for that model, so that
//! what is sent and what is decoded is pinned down exactly.

use vstd::prelude::*;

use crate::text::chars_to_string;

verus! {

/// A JSON document. `Null` doubles as the sentinel for "no request body".
#[derive(Debug, PartialEq)]
pub enum JsonValue {
    Null,
    Bool(bool),
    Int(i64),
    Str(String),
    Arr(Vec<JsonValue>),
    Obj(Vec<(String, JsonValue)>),
}

/// The mathematical model of a JSON document.
pub enum JsonModel {
    Null,
    Bool(bool),
    Int(int),
    Str(Seq<char>),
    Arr(Seq<JsonModel>),
    Obj(Seq<(Seq<char>, JsonModel)>),
}

pub open spec fn model_of(v: JsonValue) -> JsonModel
    decreases v,
{
    match v {
        JsonValue::Null => JsonModel::Null,
        JsonValue::Bool(b) => JsonModel::Bool(b),
        JsonValue::Int(i) => JsonModel::Int(i as int),
        JsonValue::Str(s) => JsonModel::Str(s@),
        JsonValue::Arr(a) => JsonModel::Arr(models_of(a@)),
        JsonValue::Obj(m) => JsonModel::Obj(member_models_of(m@)),
    }
}

pub open spec fn models_of(s: Seq<JsonValue>) -> Seq<JsonModel>
    decreases s,
{
    if s.len() == 0 {
        Seq::empty()
    } else {
        models_of(s.drop_last()).push(model_of(s.last()))
    }
}

pub open spec fn member_models_of(s: Seq<(String, JsonValue)>) -> Seq<(Seq<char>, JsonModel)>
    decreases s,
{
    if s.len() == 0 {
        Seq::empty()
    } else {
        member_models_of(s.drop_last()).push((s.last().0@, model_of(s.last().1)))
    }
}

impl View for JsonValue {
    type V = JsonModel;

    open spec fn view(&self) -> JsonModel {
        model_of(*self)
    }
}

pub proof fn lemma_models_of_index(s: Seq<JsonValue>, i: int)
    requires
        0 <= i < s.len(),
    ensures
        models_of(s).len() == s.len(),
        models_of(s)[i] == model_of(s[i]),
    decreases s.len(),
{
    lemma_models_of_len(s);
    lemma_models_of_len(s.drop_last());
    if i < s.len() - 1 {
        lemma_models_of_index(s.drop_last(), i);
    }
}

pub proof fn lemma_models_of_len(s: Seq<JsonValue>)
    ensures
        models_of(s).len() == s.len(),
    decreases s.len(),
{
    if s.len() > 0 {
        lemma_models_of_len(s.drop_last());
    }
}

pub proof fn lemma_member_models_of_index(s: Seq<(String, JsonValue)>, i: int)
    requires
        0 <= i < s.len(),
    ensures
        member_models_of(s).len() == s.len(),
        member_models_of(s)[i] == (s[i].0@, model_of(s[i].1)),
    decreases s.len(),
{
    lemma_member_models_of_len(s);
    lemma_member_models_of_len(s.drop_last());
    if i < s.len() - 1 {
        lemma_member_models_of_index(s.drop_last(), i);
    }
}

pub proof fn lemma_member_models_of_len(s: Seq<(String, JsonValue)>)
    ensures
        member_models_of(s).len() == s.len(),
    decreases s.len(),
{
    if s.len() > 0 {
        lemma_member_models_of_len(s.drop_last());
    }
}

// ---------------------------------------------------------------------------
// The text of a document.
// ---------------------------------------------------------------------------

/// The character for one digit value (base 16; base 10 uses the prefix).
pub open spec fn digit_char(d: int) -> char {
    if d == 0 {
        '0'
    } else if d == 1 {
        '1'
    } else if d == 2 {
        '2'
    } else if d == 3 {
        '3'
    } else if d == 4 {
        '4'
    } else if d == 5 {
        '5'
    } else if d == 6 {
        '6'
    } else if d == 7 {
        '7'
    } else if d == 8 {
        '8'
    } else if d == 9 {
        '9'
    } else if d == 10 {
        'a'
    } else if d == 11 {
        'b'
    } else if d == 12 {
        'c'
    } else if d == 13 {
        'd'
    } else if d == 14 {
        'e'
    } else {
        'f'
    }
}

/// Decimal representation of a natural number, most significant digit first.
pub open spec fn dec_nat(n: nat) -> Seq<char>
    decreases n,
{
    if n < 10 {
        seq![digit_char(n as int)]
    } else {
        dec_nat(n / 10).push(digit_char((n % 10) as int))
    }
}

/// Decimal representation of an integer.
pub open spec fn dec_int(i: int) -> Seq<char> {
    if i < 0 {
        seq!['-'] + dec_nat((-i) as nat)
    } else {
        dec_nat(i as nat)
    }
}

pub open spec fn is_control(c: char) -> bool {
    (c as u32) < 0x20
}

/// How one character appears inside a JSON string literal.
pub open spec fn escape_char(c: char) -> Seq<char> {
    if c == '"' {
        seq!['\\', '"']
    } else if c == '\\' {
        seq!['\\', '\\']
    } else if is_control(c) {
        seq!['\\', 'u', '0', '0', digit_char((c as u32) as int / 16), digit_char((c as u32) as int % 16)]
    } else {
        seq![c]
    }
}

pub open spec fn escape_str(s: Seq<char>) -> Seq<char>
    decreases s.len(),
{
    if s.len() == 0 {
        Seq::empty()
    } else {
        escape_str(s.drop_last()) + escape_char(s.last())
    }
}

/// A JSON string literal: quoted and escaped.
pub open spec fn quoted(s: Seq<char>) -> Seq<char> {
    seq!['"'] + escape_str(s) + seq!['"']
}

/// The canonical text of a document: no whitespace between tokens.
pub open spec fn json_text(m: JsonModel) -> Seq<char>
    decreases m, 1int,
{
    match m {
        JsonModel::Null => seq!['n', 'u', 'l', 'l'],
        JsonModel::Bool(b) => if b {
            seq!['t', 'r', 'u', 'e']
        } else {
            seq!['f', 'a', 'l', 's', 'e']
        },
        JsonModel::Int(i) => dec_int(i),
        JsonModel::Str(s) => quoted(s),
        JsonModel::Arr(a) => seq!['['] + items_text(a) + seq![']'],
        JsonModel::Obj(ms) => seq!['{'] + members_text(ms) + seq!['}'],
    }
}

pub open spec fn items_text(a: Seq<JsonModel>) -> Seq<char>
    decreases a, 2int,
{
    if a.len() == 0 {
        Seq::empty()
    } else if a.len() == 1 {
        json_text(a[0])
    } else {
        items_text(a.drop_last()) + seq![','] + json_text(a.last())
    }
}

pub open spec fn member_text(kv: (Seq<char>, JsonModel)) -> Seq<char>
    decreases kv, 2int,
{
    quoted(kv.0) + seq![':'] + json_text(kv.1)
}

pub open spec fn members_text(ms: Seq<(Seq<char>, JsonModel)>) -> Seq<char>
    decreases ms, 3int,
{
    if ms.len() == 0 {
        Seq::empty()
    } else if ms.len() == 1 {
        member_text(ms[0])
    } else {
        members_text(ms.drop_last()) + seq![','] + member_text(ms.last())
    }
}

// ---------------------------------------------------------------------------
// The serializer.
// ---------------------------------------------------------------------------

fn push_digit(d: u32, out: &mut Vec<char>)
    requires
        d < 16,
    ensures
        final(out)@ == old(out)@.push(digit_char(d as int)),
{
    let c: char = if d == 0 {
        '0'
    } else if d == 1 {
        '1'
    } else if d == 2 {
        '2'
    } else if d == 3 {
        '3'
    } else if d == 4 {
        '4'
    } else if d == 5 {
        '5'
    } else if d == 6 {
        '6'
    } else if d == 7 {
        '7'
    } else if d == 8 {
        '8'
    } else if d == 9 {
        '9'
    } else if d == 10 {
        'a'
    } else if d == 11 {
        'b'
    } else if d == 12 {
        'c'
    } else if d == 13 {
        'd'
    } else if d == 14 {
        'e'
    } else {
        'f'
    };
    out.push(c);
}

fn push_dec_u64(n: u64, out: &mut Vec<char>)
    ensures
        final(out)@ == old(out)@ + dec_nat(n as nat),
    decreases n,
{
    if n < 10 {
        push_digit(n as u32, out);
        proof {
            assert(old(out)@.push(digit_char(n as int)) =~= old(out)@ + dec_nat(n as nat));
        }
    } else {
        push_dec_u64(n / 10, out);
        push_digit((n % 10) as u32, out);
        proof {
            assert((old(out)@ + dec_nat((n / 10) as nat)).push(digit_char((n % 10) as int)) =~= old(
                out,
            )@ + dec_nat(n as nat));
        }
    }
}

fn push_dec_i64(i: i64, out: &mut Vec<char>)
    ensures
        final(out)@ == old(out)@ + dec_int(i as int),
{
    if i < 0 {
        out.push('-');
        let m: u64 = ((-(i + 1)) as u64) + 1;
        push_dec_u64(m, out);
        proof {
            assert(m as nat == (-(i as int)) as nat);
            assert(old(out)@.push('-') + dec_nat((-(i as int)) as nat) =~= old(out)@ + dec_int(
                i as int,
            ));
        }
    } else {
        push_dec_u64(i as u64, out);
    }
}

fn push_escaped(s: &str, out: &mut Vec<char>)
    ensures
        final(out)@ == old(out)@ + escape_str(s@),
{
    let len = s.unicode_len();
    let mut i: usize = 0;
    proof {
        assert(s@.subrange(0, 0) =~= Seq::<char>::empty());
        assert(out@ + escape_str(s@.subrange(0, 0)) =~= out@);
    }
    while i < len
        invariant
            i <= len,
            len == s@.len(),
            out@ == old(out)@ + escape_str(s@.subrange(0, i as int)),
        decreases len - i,
    {
        let c = s.get_char(i);
        if c == '"' {
            out.push('\\');
            out.push('"');
        } else if c == '\\' {
            out.push('\\');
            out.push('\\');
        } else if (c as u32) < 0x20 {
            out.push('\\');
            out.push('u');
            out.push('0');
            out.push('0');
            push_digit((c as u32) / 16, out);
            push_digit((c as u32) % 16, out);
        } else {
            out.push(c);
        }
        proof {
            assert(s@.subrange(0, i + 1).drop_last() =~= s@.subrange(0, i as int));
            assert(s@.subrange(0, i + 1).last() == s@[i as int]);
            assert(escape_str(s@.subrange(0, i + 1)) == escape_str(s@.subrange(0, i as int))
                + escape_char(s@[i as int]));
            assert(out@ =~= old(out)@ + escape_str(s@.subrange(0, i + 1)));
        }
        i = i + 1;
    }
    proof {
        assert(s@.subrange(0, len as int) =~= s@);
    }
}

#[verifier::loop_isolation(false)]
fn push_json(v: &JsonValue, out: &mut Vec<char>)
    ensures
        final(out)@ == old(out)@ + json_text(v@),
    decreases v,
{
    match v {
        JsonValue::Null => {
            out.push('n');
            out.push('u');
            out.push('l');
            out.push('l');
            proof {
                assert(out@ =~= old(out)@ + json_text(v@));
            }
        },
        JsonValue::Bool(b) => {
            if *b {
                out.push('t');
                out.push('r');
                out.push('u');
                out.push('e');
            } else {
                out.push('f');
                out.push('a');
                out.push('l');
                out.push('s');
                out.push('e');
            }
            proof {
                assert(out@ =~= old(out)@ + json_text(v@));
            }
        },
        JsonValue::Int(i) => {
            push_dec_i64(*i, out);
        },
        JsonValue::Str(s) => {
            out.push('"');
            push_escaped(s.as_str(), out);
            out.push('"');
            proof {
                assert(out@ =~= old(out)@ + quoted(s@));
            }
        },
        JsonValue::Arr(a) => {
            let ghost am = models_of(a@);
            proof {
                lemma_models_of_len(a@);
            }
            out.push('[');
            let n = a.len();
            let mut i: usize = 0;
            proof {
                assert(am.subrange(0, 0) =~= Seq::<JsonModel>::empty());
            }
            while i < n
                invariant
                    i <= n,
                    n == a@.len(),
                    am == models_of(a@),
                    am.len() == n,
                    out@ == old(out)@.push('[') + items_text(am.subrange(0, i as int)),
                decreases n - i,
            {
                if i > 0 {
                    out.push(',');
                }
                proof {
                    assert(*v == JsonValue::Arr(*a));
                    assert(decreases_to!(JsonValue::Arr(*a) => *a));
                    assert(decreases_to!(*a => a@));
                    assert(decreases_to!(a@ => a@[i as int]));
                }
                push_json(&a[i], out);
                proof {
                    lemma_models_of_index(a@, i as int);
                    assert(am.subrange(0, i + 1).drop_last() =~= am.subrange(0, i as int));
                    assert(am.subrange(0, i + 1).last() == am[i as int]);
                    if i == 0 {
                        assert(items_text(am.subrange(0, 1)) == json_text(am[0]));
                        assert(out@ =~= old(out)@.push('[') + items_text(am.subrange(0, 1)));
                    } else {
                        assert(items_text(am.subrange(0, i + 1)) == items_text(
                            am.subrange(0, i as int),
                        ) + seq![','] + json_text(am[i as int]));
                        assert(out@ =~= old(out)@.push('[') + items_text(am.subrange(0, i + 1)));
                    }
                }
                i = i + 1;
            }
            out.push(']');
            proof {
                assert(am.subrange(0, n as int) =~= am);
                assert(out@ =~= old(out)@ + json_text(v@));
            }
        },
        JsonValue::Obj(ms) => {
            let ghost mm = member_models_of(ms@);
            proof {
                lemma_member_models_of_len(ms@);
            }
            out.push('{');
            let n = ms.len();
            let mut i: usize = 0;
            proof {
                assert(mm.subrange(0, 0) =~= Seq::<(Seq<char>, JsonModel)>::empty());
            }
            while i < n
                invariant
                    i <= n,
                    n == ms@.len(),
                    mm == member_models_of(ms@),
                    mm.len() == n,
                    out@ == old(out)@.push('{') + members_text(mm.subrange(0, i as int)),
                decreases n - i,
            {
                if i > 0 {
                    out.push(',');
                }
                out.push('"');
                push_escaped(ms[i].0.as_str(), out);
                out.push('"');
                out.push(':');
                proof {
                    assert(*v == JsonValue::Obj(*ms));
                    assert(decreases_to!(JsonValue::Obj(*ms) => *ms));
                    assert(decreases_to!(*ms => ms@));
                    assert(decreases_to!(ms@ => ms@[i as int]));
                    assert(decreases_to!(ms@[i as int] => ms@[i as int].1));
                }
                push_json(&ms[i].1, out);
                proof {
                    lemma_member_models_of_index(ms@, i as int);
                    assert(mm.subrange(0, i + 1).drop_last() =~= mm.subrange(0, i as int));
                    assert(mm.subrange(0, i + 1).last() == mm[i as int]);
                    if i == 0 {
                        assert(members_text(mm.subrange(0, 1)) == member_text(mm[0]));
                        assert(out@ =~= old(out)@.push('{') + members_text(mm.subrange(0, 1)));
                    } else {
                        assert(members_text(mm.subrange(0, i + 1)) == members_text(
                            mm.subrange(0, i as int),
                        ) + seq![','] + member_text(mm[i as int]));
                        assert(out@ =~= old(out)@.push('{') + members_text(mm.subrange(0, i + 1)));
                    }
                }
                i = i + 1;
            }
            out.push('}');
            proof {
                assert(mm.subrange(0, n as int) =~= mm);
                assert(out@ =~= old(out)@ + json_text(v@));
            }
        },
    }
}

/// The decimal text of a number.
pub fn u64_to_dec_string(n: u64) -> (r: String)
    ensures
        r@ == dec_nat(n as nat),
{
    let mut out: Vec<char> = Vec::new();
    push_dec_u64(n, &mut out);
    proof {
        assert(Seq::<char>::empty() + dec_nat(n as nat) =~= dec_nat(n as nat));
    }
    chars_to_string(&out)
}

/// The canonical JSON text of a document: no whitespace between tokens,
/// strings escaped as [`escape_char`] says.
pub fn to_json_text(v: &JsonValue) -> (r: String)
    ensures
        r@ == json_text(v@),
{
    let mut out: Vec<char> = Vec::new();
    push_json(v, &mut out);
    chars_to_string(&out)
}

// ---------------------------------------------------------------------------
// The parser, at the specification level.
//
// All parsing functions take a position and return the parsed entity with
// the position just after it, or `None` when the text does not parse.
// Numbers must be integers that fit in an `i64` (a fraction or exponent
// makes the surrounding document fail to parse); leading zeros are
// tolerated.
// ---------------------------------------------------------------------------

pub open spec fn is_ws(c: char) -> bool {
    c == ' ' || c == '\n' || c == '\r' || c == '\t'
}

/// The first position at or after `i` that does not hold whitespace.
pub open spec fn skip_ws(s: Seq<char>, i: int) -> int
    decreases s.len() - i,
{
    if 0 <= i < s.len() && is_ws(s[i]) {
        skip_ws(s, i + 1)
    } else {
        i
    }
}

pub proof fn lemma_skip_ws_bounds(s: Seq<char>, i: int)
    requires
        0 <= i <= s.len(),
    ensures
        i <= skip_ws(s, i) <= s.len(),
        skip_ws(s, i) < s.len() ==> !is_ws(s[skip_ws(s, i)]),
    decreases s.len() - i,
{
    if i < s.len() && is_ws(s[i]) {
        lemma_skip_ws_bounds(s, i + 1);
    }
}

pub open spec fn is_digit(c: char) -> bool {
    48 <= c as u32 <= 57
}

pub open spec fn digit_val(c: char) -> int {
    c as u32 - 48
}

/// The first position at or after `i` that does not hold a decimal digit.
pub open spec fn digits_end(s: Seq<char>, i: int) -> int
    decreases s.len() - i,
{
    if 0 <= i < s.len() && is_digit(s[i]) {
        digits_end(s, i + 1)
    } else {
        i
    }
}

/// The value of the digit run `s[i..j]`.
pub open spec fn digits_val(s: Seq<char>, i: int, j: int) -> int
    decreases j - i,
{
    if i >= j {
        0
    } else {
        digits_val(s, i, j - 1) * 10 + digit_val(s[j - 1])
    }
}

/// A number at position `j` (no leading whitespace).
pub open spec fn sp_number(s: Seq<char>, j: int) -> Option<(JsonModel, int)> {
    let neg = 0 <= j < s.len() && s[j] == '-';
    let k = if neg {
        j + 1
    } else {
        j
    };
    let e = digits_end(s, k);
    if e == k {
        None
    } else {
        let mag = digits_val(s, k, e);
        if neg {
            if mag > 0x8000000000000000 {
                None
            } else {
                Some((JsonModel::Int(-mag), e))
            }
        } else {
            if mag > 0x7fffffffffffffff {
                None
            } else {
                Some((JsonModel::Int(mag), e))
            }
        }
    }
}

/// The character a simple backslash escape stands for.
pub open spec fn unescape_simple(c: char) -> Option<char> {
    if c == '"' {
        Some('"')
    } else if c == '\\' {
        Some('\\')
    } else if c == '/' {
        Some('/')
    } else if c == 'b' {
        Some('\u{0008}')
    } else if c == 'f' {
        Some('\u{000C}')
    } else if c == 'n' {
        Some('\n')
    } else if c == 'r' {
        Some('\r')
    } else if c == 't' {
        Some('\t')
    } else {
        None
    }
}

pub open spec fn hex_val(c: char) -> int {
    if 48 <= c as u32 <= 57 {
        c as u32 - 48
    } else if 97 <= c as u32 <= 102 {
        c as u32 - 87
    } else if 65 <= c as u32 <= 70 {
        c as u32 - 55
    } else {
        -1
    }
}

/// String contents starting at `i`, just after the opening quote; ends with
/// the position after the closing quote.  Raw control characters are
/// refused, as JSON asks.
pub open spec fn sp_string(s: Seq<char>, i: int) -> Option<(Seq<char>, int)>
    decreases s.len() - i,
{
    if i < 0 || i >= s.len() {
        None
    } else {
        let c = s[i];
        if c == '"' {
            Some((Seq::empty(), i + 1))
        } else if c == '\\' {
            if i + 2 > s.len() {
                None
            } else {
                let e = s[i + 1];
                if e == 'u' {
                    if i + 6 > s.len() {
                        None
                    } else {
                        let h1 = hex_val(s[i + 2]);
                        let h2 = hex_val(s[i + 3]);
                        let h3 = hex_val(s[i + 4]);
                        let h4 = hex_val(s[i + 5]);
                        if h1 < 0 || h2 < 0 || h3 < 0 || h4 < 0 {
                            None
                        } else {
                            let n = ((h1 * 16 + h2) * 16 + h3) * 16 + h4;
                            if 0xD800 <= n < 0xE000 {
                                None
                            } else {
                                match sp_string(s, i + 6) {
                                    Option::None => None,
                                    Option::Some((rest, e2)) => Some(
                                        (seq![(n as u32) as char] + rest, e2),
                                    ),
                                }
                            }
                        }
                    }
                } else {
                    match unescape_simple(e) {
                        Option::None => None,
                        Option::Some(d) => match sp_string(s, i + 2) {
                            Option::None => None,
                            Option::Some((rest, e2)) => Some((seq![d] + rest, e2)),
                        },
                    }
                }
            }
        } else if is_control(c) {
            None
        } else {
            match sp_string(s, i + 1) {
                Option::None => None,
                Option::Some((rest, e2)) => Some((seq![c] + rest, e2)),
            }
        }
    }
}

/// A value starting at or after `i`, leading whitespace allowed.
pub open spec fn sp_value(s: Seq<char>, i: int) -> Option<(JsonModel, int)>
    decreases s.len() - i, 1int,
{
    let j = skip_ws(s, i);
    if j < i || j >= s.len() {
        None
    } else {
        let c = s[j];
        if c == 'n' {
            if j + 4 <= s.len() && s[j + 1] == 'u' && s[j + 2] == 'l' && s[j + 3] == 'l' {
                Some((JsonModel::Null, j + 4))
            } else {
                None
            }
        } else if c == 't' {
            if j + 4 <= s.len() && s[j + 1] == 'r' && s[j + 2] == 'u' && s[j + 3] == 'e' {
                Some((JsonModel::Bool(true), j + 4))
            } else {
                None
            }
        } else if c == 'f' {
            if j + 5 <= s.len() && s[j + 1] == 'a' && s[j + 2] == 'l' && s[j + 3] == 's' && s[j + 4]
                == 'e' {
                Some((JsonModel::Bool(false), j + 5))
            } else {
                None
            }
        } else if c == '"' {
            match sp_string(s, j + 1) {
                Option::None => None,
                Option::Some((cs, e)) => Some((JsonModel::Str(cs), e)),
            }
        } else if c == '-' || is_digit(c) {
            sp_number(s, j)
        } else if c == '[' {
            match sp_items(s, j + 1, true) {
                Option::None => None,
                Option::Some((elems, e)) => Some((JsonModel::Arr(elems), e)),
            }
        } else if c == '{' {
            match sp_members(s, j + 1, true) {
                Option::None => None,
                Option::Some((mems, e)) => Some((JsonModel::Obj(mems), e)),
            }
        } else {
            None
        }
    }
}

/// Array elements from `i` up to and including the closing bracket.
/// `first` is true only directly after the opening bracket, where an
/// empty array may close.
pub open spec fn sp_items(s: Seq<char>, i: int, first: bool) -> Option<(Seq<JsonModel>, int)>
    decreases s.len() - i, 2int,
{
    let j = skip_ws(s, i);
    if j < i || j >= s.len() {
        None
    } else if s[j] == ']' && first {
        Some((Seq::empty(), j + 1))
    } else {
        match sp_value(s, j) {
            Option::None => None,
            Option::Some((v, e)) => {
                if e <= j || e > s.len() {
                    None
                } else {
                    let k = skip_ws(s, e);
                    if k < e || k >= s.len() {
                        None
                    } else if s[k] == ']' {
                        Some((seq![v], k + 1))
                    } else if s[k] == ',' {
                        match sp_items(s, k + 1, false) {
                            Option::None => None,
                            Option::Some((rest, e2)) => Some((seq![v] + rest, e2)),
                        }
                    } else {
                        None
                    }
                }
            },
        }
    }
}

/// Object members from `i` up to and including the closing brace.
pub open spec fn sp_members(s: Seq<char>, i: int, first: bool) -> Option<
    (Seq<(Seq<char>, JsonModel)>, int),
>
    decreases s.len() - i, 2int,
{
    let j = skip_ws(s, i);
    if j < i || j >= s.len() {
        None
    } else if s[j] == '}' && first {
        Some((Seq::empty(), j + 1))
    } else if s[j] != '"' {
        None
    } else {
        match sp_string(s, j + 1) {
            Option::None => None,
            Option::Some((key, e)) => {
                if e <= j || e > s.len() {
                    None
                } else {
                    let k = skip_ws(s, e);
                    if k < e || k >= s.len() || s[k] != ':' {
                        None
                    } else {
                        match sp_value(s, k + 1) {
                            Option::None => None,
                            Option::Some((v, e2)) => {
                                if e2 <= k || e2 > s.len() {
                                    None
                                } else {
                                    let k2 = skip_ws(s, e2);
                                    if k2 < e2 || k2 >= s.len() {
                                        None
                                    } else if s[k2] == '}' {
                                        Some((seq![(key, v)], k2 + 1))
                                    } else if s[k2] == ',' {
                                        match sp_members(s, k2 + 1, false) {
                                            Option::None => None,
                                            Option::Some((rest, e3)) => Some(
                                                (seq![(key, v)] + rest, e3),
                                            ),
                                        }
                                    } else {
                                        None
                                    }
                                }
                            },
                        }
                    }
                }
            },
        }
    }
}

/// A whole document: one value, with only whitespace around it.
pub open spec fn sp_json(s: Seq<char>) -> Option<JsonModel> {
    match sp_value(s, 0) {
        Option::None => None,
        Option::Some((v, e)) => {
            if 0 <= e <= s.len() && skip_ws(s, e) == s.len() {
                Some(v)
            } else {
                None
            }
        },
    }
}

// ---------------------------------------------------------------------------
// The parser, executable, proved equal to the specification above.
// ---------------------------------------------------------------------------

pub proof fn lemma_digits_end_bounds(s: Seq<char>, i: int)
    requires
        0 <= i <= s.len(),
    ensures
        i <= digits_end(s, i) <= s.len(),
        forall|t: int| i <= t < digits_end(s, i) ==> is_digit(s[t]),
        digits_end(s, i) < s.len() ==> !is_digit(s[digits_end(s, i)]),
    decreases s.len() - i,
{
    if i < s.len() && is_digit(s[i]) {
        lemma_digits_end_bounds(s, i + 1);
    }
}

pub proof fn lemma_digits_val_nonneg(s: Seq<char>, i: int, j: int)
    requires
        0 <= i,
        j <= s.len(),
        forall|t: int| i <= t < j ==> is_digit(s[t]),
    ensures
        digits_val(s, i, j) >= 0,
    decreases j - i,
{
    if i < j {
        lemma_digits_val_nonneg(s, i, j - 1);
    }
}

pub proof fn lemma_digits_val_mono(s: Seq<char>, i: int, m: int, j: int)
    requires
        0 <= i <= m <= j <= s.len(),
        forall|t: int| i <= t < j ==> is_digit(s[t]),
    ensures
        digits_val(s, i, j) >= digits_val(s, i, m),
    decreases j - m,
{
    if m < j {
        lemma_digits_val_mono(s, i, m, j - 1);
        lemma_digits_val_nonneg(s, i, j - 1);
    }
}

fn p_skip_ws(s: &Vec<char>, i: usize) -> (r: usize)
    requires
        i <= s.len(),
    ensures
        r as int == skip_ws(s@, i as int),
        i <= r <= s.len(),
{
    let mut k = i;
    while k < s.len() && (s[k] == ' ' || s[k] == '\n' || s[k] == '\r' || s[k] == '\t')
        invariant
            i <= k <= s.len(),
            skip_ws(s@, i as int) == skip_ws(s@, k as int),
        decreases s.len() - k,
    {
        k = k + 1;
    }
    k
}

fn hex_val_exec(c: char) -> (r: Option<u32>)
    ensures
        match r {
            Option::Some(v) => hex_val(c) == v as int && v < 16,
            Option::None => hex_val(c) < 0,
        },
{
    let u = c as u32;
    if 48 <= u && u <= 57 {
        Some(u - 48)
    } else if 97 <= u && u <= 102 {
        Some(u - 87)
    } else if 65 <= u && u <= 70 {
        Some(u - 55)
    } else {
        None
    }
}

fn unescape_simple_exec(c: char) -> (r: Option<char>)
    ensures
        r == unescape_simple(c),
{
    if c == '"' {
        Some('"')
    } else if c == '\\' {
        Some('\\')
    } else if c == '/' {
        Some('/')
    } else if c == 'b' {
        Some('\u{0008}')
    } else if c == 'f' {
        Some('\u{000C}')
    } else if c == 'n' {
        Some('\n')
    } else if c == 'r' {
        Some('\r')
    } else if c == 't' {
        Some('\t')
    } else {
        None
    }
}

#[verifier::loop_isolation(false)]
fn p_string(s: &Vec<char>, i0: usize) -> (r: Option<(String, usize)>)
    requires
        i0 <= s.len(),
    ensures
        match r {
            Option::Some((cs, e)) => sp_string(s@, i0 as int) == Some((cs@, e as int)) && i0 < e
                <= s.len(),
            Option::None => sp_string(s@, i0 as int) is None,
        },
{
    let mut acc: Vec<char> = Vec::new();
    let mut i = i0;
    loop
        invariant
            i0 <= i <= s.len(),
            sp_string(s@, i0 as int) == (match sp_string(s@, i as int) {
                Option::None => Option::<(Seq<char>, int)>::None,
                Option::Some((rest, e)) => Option::Some((acc@ + rest, e)),
            }),
        decreases s.len() - i,
    {
        if i >= s.len() {
            return None;
        }
        let c = s[i];
        if c == '"' {
            proof {
                assert(acc@ + Seq::<char>::empty() =~= acc@);
            }
            let out = chars_to_string(&acc);
            return Some((out, i + 1));
        } else if c == '\\' {
            if i + 1 >= s.len() {
                return None;
            }
            let e = s[i + 1];
            if e == 'u' {
                if s.len() - i < 6 {
                    return None;
                }
                let h1 = hex_val_exec(s[i + 2]);
                let h2 = hex_val_exec(s[i + 3]);
                let h3 = hex_val_exec(s[i + 4]);
                let h4 = hex_val_exec(s[i + 5]);
                match (h1, h2, h3, h4) {
                    (Option::Some(v1), Option::Some(v2), Option::Some(v3), Option::Some(v4)) => {
                        let n: u32 = ((v1 * 16 + v2) * 16 + v3) * 16 + v4;
                        if 0xD800 <= n && n < 0xE000 {
                            return None;
                        }
                        match char::from_u32(n) {
                            Option::Some(c2) => {
                                proof {
                                    vstd::utf8::char_u32_cast(c2, n);
                                    match sp_string(s@, i + 6) {
                                        Option::Some(p) => {
                                            assert(acc@ + (seq![c2] + p.0) =~= acc@.push(c2)
                                                + p.0);
                                        },
                                        Option::None => {},
                                    }
                                }
                                acc.push(c2);
                                i = i + 6;
                            },
                            Option::None => {
                                proof {
                                    assert(false);
                                }
                                return None;
                            },
                        }
                    },
                    _ => {
                        return None;
                    },
                }
            } else {
                match unescape_simple_exec(e) {
                    Option::None => {
                        return None;
                    },
                    Option::Some(dc) => {
                        proof {
                            match sp_string(s@, i + 2) {
                                Option::Some(p) => {
                                    assert(acc@ + (seq![dc] + p.0) =~= acc@.push(dc) + p.0);
                                },
                                Option::None => {},
                            }
                        }
                        acc.push(dc);
                        i = i + 2;
                    },
                }
            }
        } else if (c as u32) < 0x20 {
            return None;
        } else {
            proof {
                match sp_string(s@, i + 1) {
                    Option::Some(p) => {
                        assert(acc@ + (seq![c] + p.0) =~= acc@.push(c) + p.0);
                    },
                    Option::None => {},
                }
            }
            acc.push(c);
            i = i + 1;
        }
    }
}

#[verifier::loop_isolation(false)]
fn p_number(s: &Vec<char>, j: usize) -> (r: Option<(JsonValue, usize)>)
    requires
        j < s.len(),
    ensures
        match r {
            Option::Some((v, e)) => sp_number(s@, j as int) == Some((v@, e as int)) && j < e
                <= s.len(),
            Option::None => sp_number(s@, j as int) is None,
        },
{
    let neg = s[j] == '-';
    let start: usize = if neg {
        j + 1
    } else {
        j
    };
    let limit: u64 = if neg {
        0x8000000000000000
    } else {
        0x7fffffffffffffff
    };
    let mut k = start;
    let mut acc: u64 = 0;
    proof {
        lemma_digits_end_bounds(s@, start as int);
    }
    while k < s.len() && 48 <= (s[k] as u32) && (s[k] as u32) <= 57
        invariant
            start <= k <= s.len(),
            digits_end(s@, start as int) == digits_end(s@, k as int),
            forall|t: int| start <= t < k ==> is_digit(s@[t]),
            acc as int == digits_val(s@, start as int, k as int),
            acc <= limit,
        decreases s.len() - k,
    {
        let d: u64 = (s[k] as u32 - 48) as u64;
        if acc > (limit - d) / 10 {
            proof {
                let e = digits_end(s@, start as int);
                assert(digits_end(s@, k as int) == digits_end(s@, k + 1));
                lemma_digits_end_bounds(s@, k + 1);
                assert(digits_val(s@, start as int, k + 1) == acc * 10 + d);
                assert(acc * 10 + d > limit);
                lemma_digits_val_mono(s@, start as int, k + 1, e);
                assert(digits_val(s@, start as int, e) > limit);
            }
            return None;
        }
        acc = acc * 10 + d;
        proof {
            assert(digits_end(s@, k as int) == digits_end(s@, k + 1));
        }
        k = k + 1;
    }
    proof {
        assert(digits_end(s@, k as int) == k as int);
    }
    if k == start {
        return None;
    }
    let e = k;
    if neg {
        let v: i64 = if acc == 0x8000000000000000 {
            i64::MIN
        } else {
            -(acc as i64)
        };
        proof {
            assert(v as int == -(acc as int));
        }
        Some((JsonValue::Int(v), e))
    } else {
        Some((JsonValue::Int(acc as i64), e))
    }
}

fn p_value(s: &Vec<char>, i: usize) -> (r: Option<(JsonValue, usize)>)
    requires
        i <= s.len(),
    ensures
        match r {
            Option::Some((v, e)) => sp_value(s@, i as int) == Some((v@, e as int)) && i < e
                <= s.len(),
            Option::None => sp_value(s@, i as int) is None,
        },
    decreases s.len() - i, 1int,
{
    let j = p_skip_ws(s, i);
    if j >= s.len() {
        return None;
    }
    let c = s[j];
    if c == 'n' {
        if s.len() - j >= 4 && s[j + 1] == 'u' && s[j + 2] == 'l' && s[j + 3] == 'l' {
            Some((JsonValue::Null, j + 4))
        } else {
            None
        }
    } else if c == 't' {
        if s.len() - j >= 4 && s[j + 1] == 'r' && s[j + 2] == 'u' && s[j + 3] == 'e' {
            Some((JsonValue::Bool(true), j + 4))
        } else {
            None
        }
    } else if c == 'f' {
        if s.len() - j >= 5 && s[j + 1] == 'a' && s[j + 2] == 'l' && s[j + 3] == 's' && s[j + 4]
            == 'e' {
            Some((JsonValue::Bool(false), j + 5))
        } else {
            None
        }
    } else if c == '"' {
        match p_string(s, j + 1) {
            Option::None => None,
            Option::Some((cs, e)) => Some((JsonValue::Str(cs), e)),
        }
    } else if c == '-' || (48 <= (c as u32) && (c as u32) <= 57) {
        p_number(s, j)
    } else if c == '[' {
        match p_items(s, j + 1, true) {
            Option::None => None,
            Option::Some((elems, e)) => Some((JsonValue::Arr(elems), e)),
        }
    } else if c == '{' {
        match p_members(s, j + 1, true) {
            Option::None => None,
            Option::Some((mems, e)) => Some((JsonValue::Obj(mems), e)),
        }
    } else {
        None
    }
}

pub proof fn lemma_models_of_push(s: Seq<JsonValue>, v: JsonValue)
    ensures
        models_of(s.push(v)) == models_of(s).push(model_of(v)),
{
    assert(s.push(v).drop_last() =~= s);
    assert(s.push(v).last() == v);
}

pub proof fn lemma_member_models_of_push(s: Seq<(String, JsonValue)>, kv: (String, JsonValue))
    ensures
        member_models_of(s.push(kv)) == member_models_of(s).push((kv.0@, model_of(kv.1))),
{
    assert(s.push(kv).drop_last() =~= s);
    assert(s.push(kv).last() == kv);
}

#[verifier::loop_isolation(false)]
fn p_items(s: &Vec<char>, i0: usize, first0: bool) -> (r: Option<(Vec<JsonValue>, usize)>)
    requires
        i0 <= s.len(),
    ensures
        match r {
            Option::Some((vs, e)) => sp_items(s@, i0 as int, first0) == Some(
                (models_of(vs@), e as int),
            ) && i0 < e <= s.len(),
            Option::None => sp_items(s@, i0 as int, first0) is None,
        },
    decreases s.len() - i0, 3int,
{
    let mut acc: Vec<JsonValue> = Vec::new();
    let mut cur = i0;
    let mut first = first0;
    loop
        invariant
            i0 <= cur <= s.len(),
            sp_items(s@, i0 as int, first0) == (match sp_items(s@, cur as int, first) {
                Option::None => Option::<(Seq<JsonModel>, int)>::None,
                Option::Some((rest, e)) => Option::Some((models_of(acc@) + rest, e)),
            }),
        decreases s.len() - cur,
    {
        let j = p_skip_ws(s, cur);
        if j >= s.len() {
            return None;
        }
        if first && s[j] == ']' {
            proof {
                assert(models_of(acc@) + Seq::<JsonModel>::empty() =~= models_of(acc@));
            }
            return Some((acc, j + 1));
        }
        match p_value(s, j) {
            Option::None => {
                return None;
            },
            Option::Some((v, e)) => {
                let ghost acc_pre = acc@;
                acc.push(v);
                proof {
                    lemma_models_of_push(acc_pre, v);
                }
                let k = p_skip_ws(s, e);
                if k >= s.len() {
                    return None;
                }
                let ck = s[k];
                if ck == ']' {
                    proof {
                        assert(models_of(acc_pre) + seq![model_of(v)] =~= models_of(acc@));
                    }
                    return Some((acc, k + 1));
                } else if ck == ',' {
                    proof {
                        match sp_items(s@, k + 1, false) {
                            Option::Some(p) => {
                                assert(models_of(acc_pre) + (seq![model_of(v)] + p.0)
                                    =~= models_of(acc@) + p.0);
                            },
                            Option::None => {},
                        }
                    }
                    cur = k + 1;
                    first = false;
                } else {
                    return None;
                }
            },
        }
    }
}

#[verifier::loop_isolation(false)]
fn p_members(s: &Vec<char>, i0: usize, first0: bool) -> (r: Option<
    (Vec<(String, JsonValue)>, usize),
>)
    requires
        i0 <= s.len(),
    ensures
        match r {
            Option::Some((ms, e)) => sp_members(s@, i0 as int, first0) == Some(
                (member_models_of(ms@), e as int),
            ) && i0 < e <= s.len(),
            Option::None => sp_members(s@, i0 as int, first0) is None,
        },
    decreases s.len() - i0, 3int,
{
    let mut acc: Vec<(String, JsonValue)> = Vec::new();
    let mut cur = i0;
    let mut first = first0;
    loop
        invariant
            i0 <= cur <= s.len(),
            sp_members(s@, i0 as int, first0) == (match sp_members(s@, cur as int, first) {
                Option::None => Option::<(Seq<(Seq<char>, JsonModel)>, int)>::None,
                Option::Some((rest, e)) => Option::Some((member_models_of(acc@) + rest, e)),
            }),
        decreases s.len() - cur,
    {
        let j = p_skip_ws(s, cur);
        if j >= s.len() {
            return None;
        }
        if first && s[j] == '}' {
            proof {
                assert(member_models_of(acc@) + Seq::<(Seq<char>, JsonModel)>::empty()
                    =~= member_models_of(acc@));
            }
            return Some((acc, j + 1));
        }
        if s[j] != '"' {
            return None;
        }
        match p_string(s, j + 1) {
            Option::None => {
                return None;
            },
            Option::Some((key, e)) => {
                let k = p_skip_ws(s, e);
                if k >= s.len() {
                    return None;
                }
                if s[k] != ':' {
                    return None;
                }
                match p_value(s, k + 1) {
                    Option::None => {
                        return None;
                    },
                    Option::Some((v, e2)) => {
                        let ghost acc_pre = acc@;
                        let ghost keym = key@;
                        let ghost vm = model_of(v);
                        acc.push((key, v));
                        proof {
                            lemma_member_models_of_push(acc_pre, acc@.last());
                            assert(member_models_of(acc@) == member_models_of(acc_pre).push(
                                (keym, vm),
                            ));
                        }
                        let k2 = p_skip_ws(s, e2);
                        if k2 >= s.len() {
                            return None;
                        }
                        let ck = s[k2];
                        if ck == '}' {
                            proof {
                                assert(member_models_of(acc_pre) + seq![(keym, vm)]
                                    =~= member_models_of(acc@));
                            }
                            return Some((acc, k2 + 1));
                        } else if ck == ',' {
                            proof {
                                match sp_members(s@, k2 + 1, false) {
                                    Option::Some(p) => {
                                        assert(member_models_of(acc_pre) + (seq![(keym, vm)]
                                            + p.0) =~= member_models_of(acc@) + p.0);
                                    },
                                    Option::None => {},
                                }
                            }
                            cur = k2 + 1;
                            first = false;
                        } else {
                            return None;
                        }
                    },
                }
            },
        }
    }
}

/// The first member of an object with the given key (a decoded document
/// may in principle carry duplicate keys; the first one wins).
pub open spec fn obj_lookup(ms: Seq<(Seq<char>, JsonModel)>, key: Seq<char>) -> Option<JsonModel>
    decreases ms.len(),
{
    if ms.len() == 0 {
        None
    } else if ms[0].0 == key {
        Some(ms[0].1)
    } else {
        obj_lookup(ms.drop_first(), key)
    }
}

impl JsonValue {
    /// The first member of this object with the given key; `None` when
    /// this is no object or no member carries the key.
    #[verifier::loop_isolation(false)]
    pub fn obj_get<'a>(&'a self, key: &str) -> (r: Option<&'a JsonValue>)
        ensures
            match r {
                Option::Some(v) => self@ matches JsonModel::Obj(ms) && obj_lookup(ms, key@)
                    == Some(v@),
                Option::None => match self@ {
                    JsonModel::Obj(ms) => obj_lookup(ms, key@) is None,
                    _ => true,
                },
            },
    {
        match self {
            JsonValue::Obj(ms) => {
                let k = key.to_owned();
                let n = ms.len();
                let ghost mm = member_models_of(ms@);
                proof {
                    lemma_member_models_of_len(ms@);
                }
                let mut i: usize = 0;
                proof {
                    assert(mm.skip(0) =~= mm);
                }
                while i < n
                    invariant
                        i <= n,
                        obj_lookup(mm, key@) == obj_lookup(mm.skip(i as int), key@),
                    decreases n - i,
                {
                    proof {
                        lemma_member_models_of_index(ms@, i as int);
                        assert(mm.skip(i as int)[0] == mm[i as int]);
                    }
                    if ms[i].0 == k {
                        return Some(&ms[i].1);
                    }
                    proof {
                        assert(mm.skip(i as int).drop_first() =~= mm.skip(i + 1));
                    }
                    i = i + 1;
                }
                proof {
                    assert(mm.skip(n as int).len() == 0);
                }
                None
            },
            _ => None,
        }
    }
}

// ---------------------------------------------------------------------------
// The round trip: parsing the canonical text of a document yields the
// document back.
// ---------------------------------------------------------------------------

/// A representable document: every number fits in an `i64`.  The model
/// of every [`JsonValue`] is representable.
pub open spec fn wf_model(m: JsonModel) -> bool
    decreases m, 0int,
{
    match m {
        JsonModel::Null => true,
        JsonModel::Bool(_) => true,
        JsonModel::Int(i) => i64::MIN <= i <= i64::MAX,
        JsonModel::Str(_) => true,
        JsonModel::Arr(a) => wf_models(a),
        JsonModel::Obj(ms) => wf_members(ms),
    }
}

pub open spec fn wf_models(a: Seq<JsonModel>) -> bool
    decreases a, 1int,
{
    if a.len() == 0 {
        true
    } else {
        wf_model(a[0]) && wf_models(a.drop_first())
    }
}

pub open spec fn wf_members(ms: Seq<(Seq<char>, JsonModel)>) -> bool
    decreases ms, 1int,
{
    if ms.len() == 0 {
        true
    } else {
        wf_model(ms[0].1) && wf_members(ms.drop_first())
    }
}

pub proof fn lemma_wf_models_char(a: Seq<JsonModel>)
    ensures
        wf_models(a) <==> (forall|i: int| 0 <= i < a.len() ==> wf_model(a[i])),
    decreases a.len(),
{
    if a.len() > 0 {
        lemma_wf_models_char(a.drop_first());
        assert forall|i: int| 1 <= i < a.len() implies a.drop_first()[i - 1] == a[i] by {}
        if wf_models(a) {
            assert forall|i: int| 0 <= i < a.len() implies wf_model(a[i]) by {
                if i >= 1 {
                    assert(wf_model(a.drop_first()[i - 1]));
                }
            }
        }
        if forall|i: int| 0 <= i < a.len() ==> wf_model(a[i]) {
            assert forall|i: int| 0 <= i < a.drop_first().len() implies wf_model(
                a.drop_first()[i],
            ) by {
                assert(a.drop_first()[i] == a[i + 1]);
            }
        }
    }
}

pub proof fn lemma_wf_members_char(ms: Seq<(Seq<char>, JsonModel)>)
    ensures
        wf_members(ms) <==> (forall|i: int| 0 <= i < ms.len() ==> wf_model(ms[i].1)),
    decreases ms.len(),
{
    if ms.len() > 0 {
        lemma_wf_members_char(ms.drop_first());
        assert forall|i: int| 1 <= i < ms.len() implies ms.drop_first()[i - 1] == ms[i] by {}
        if wf_members(ms) {
            assert forall|i: int| 0 <= i < ms.len() implies wf_model(ms[i].1) by {
                if i >= 1 {
                    assert(wf_model(ms.drop_first()[i - 1].1));
                }
            }
        }
        if forall|i: int| 0 <= i < ms.len() ==> wf_model(ms[i].1) {
            assert forall|i: int| 0 <= i < ms.drop_first().len() implies wf_model(
                ms.drop_first()[i].1,
            ) by {
                assert(ms.drop_first()[i] == ms[i + 1]);
            }
        }
    }
}

/// The model of every value is representable.
pub proof fn lemma_model_of_wf(v: JsonValue)
    ensures
        wf_model(model_of(v)),
    decreases v, 1int,
{
    match v {
        JsonValue::Arr(a) => {
            lemma_models_of_wf(a@);
        },
        JsonValue::Obj(ms) => {
            lemma_member_models_of_wf(ms@);
        },
        _ => {},
    }
}

pub proof fn lemma_models_of_wf(s: Seq<JsonValue>)
    ensures
        wf_models(models_of(s)),
    decreases s, 2int,
{
    lemma_wf_models_char(models_of(s));
    lemma_models_of_len(s);
    assert forall|i: int| 0 <= i < models_of(s).len() implies wf_model(models_of(s)[i]) by {
        lemma_models_of_index(s, i);
        assert(decreases_to!(s => s[i]));
        lemma_model_of_wf(s[i]);
    }
}

pub proof fn lemma_member_models_of_wf(s: Seq<(String, JsonValue)>)
    ensures
        wf_members(member_models_of(s)),
    decreases s, 2int,
{
    lemma_wf_members_char(member_models_of(s));
    lemma_member_models_of_len(s);
    assert forall|i: int| 0 <= i < member_models_of(s).len() implies wf_model(
        member_models_of(s)[i].1,
    ) by {
        lemma_member_models_of_index(s, i);
        assert(decreases_to!(s => s[i]));
        assert(decreases_to!(s[i] => s[i].1));
        lemma_model_of_wf(s[i].1);
    }
}

/// One character of a matching segment.
proof fn lemma_char_at(s: Seq<char>, i: int, t: Seq<char>, x: int)
    requires
        0 <= i,
        i + t.len() <= s.len(),
        s.subrange(i, i + t.len() as int) == t,
        0 <= x < t.len(),
    ensures
        s[i + x] == t[x],
{
    assert(s.subrange(i, i + t.len() as int)[x] == s[i + x]);
}

/// A sub-segment of a matching segment matches.
proof fn lemma_sub_match(s: Seq<char>, i: int, t: Seq<char>, a: int, b: int)
    requires
        0 <= i,
        i + t.len() <= s.len(),
        s.subrange(i, i + t.len() as int) == t,
        0 <= a <= b <= t.len(),
    ensures
        s.subrange(i + a, i + b) == t.subrange(a, b),
{
    assert forall|x: int| 0 <= x < b - a implies s.subrange(i + a, i + b)[x] == t.subrange(a, b)[x]
        by {
        assert(s.subrange(i, i + t.len() as int)[a + x] == s[i + a + x]);
    }
    assert(s.subrange(i + a, i + b) =~= t.subrange(a, b));
}

proof fn lemma_digit_char_val(d: int)
    requires
        0 <= d < 10,
    ensures
        is_digit(digit_char(d)),
        digit_val(digit_char(d)) == d,
{
}

proof fn lemma_hex_digit_char_val(d: int)
    requires
        0 <= d < 16,
    ensures
        hex_val(digit_char(d)) == d,
{
}

proof fn lemma_dec_nat_digits(n: nat)
    ensures
        dec_nat(n).len() >= 1,
        forall|t: int| 0 <= t < dec_nat(n).len() ==> is_digit(dec_nat(n)[t]),
    decreases n,
{
    if n < 10 {
        lemma_digit_char_val(n as int);
    } else {
        lemma_dec_nat_digits(n / 10);
        lemma_digit_char_val((n % 10) as int);
        assert forall|t: int| 0 <= t < dec_nat(n).len() implies is_digit(dec_nat(n)[t]) by {
            if t < dec_nat(n / 10).len() {
                assert(dec_nat(n)[t] == dec_nat(n / 10)[t]);
            }
        }
    }
}

proof fn lemma_digits_end_of(s: Seq<char>, k: int, e: int)
    requires
        0 <= k <= e <= s.len(),
        forall|t: int| k <= t < e ==> is_digit(s[t]),
        e == s.len() || !is_digit(s[e]),
    ensures
        digits_end(s, k) == e,
    decreases e - k,
{
    if k < e {
        lemma_digits_end_of(s, k + 1, e);
    }
}

/// Parsing the decimal text of a number gives the number back.
proof fn lemma_dec_nat_val(n: nat, s: Seq<char>, k: int)
    requires
        0 <= k,
        k + dec_nat(n).len() <= s.len(),
        s.subrange(k, k + dec_nat(n).len() as int) == dec_nat(n),
    ensures
        digits_val(s, k, k + dec_nat(n).len() as int) == n,
    decreases n,
{
    let t = dec_nat(n);
    if n < 10 {
        lemma_char_at(s, k, t, 0);
        lemma_digit_char_val(n as int);
        assert(s[k] == digit_char(n as int));
        assert(digits_val(s, k, k) == 0);
        assert(digits_val(s, k, k + 1) == digits_val(s, k, k) * 10 + digit_val(s[k]));
    } else {
        let tp = dec_nat(n / 10);
        lemma_sub_match(s, k, t, 0, tp.len() as int);
        assert(t.subrange(0, tp.len() as int) =~= tp);
        lemma_dec_nat_val(n / 10, s, k);
        lemma_char_at(s, k, t, t.len() - 1);
        assert(t[t.len() - 1] == digit_char((n % 10) as int));
        lemma_digit_char_val((n % 10) as int);
        assert(digits_val(s, k, k + t.len() as int) == digits_val(s, k, k + tp.len() as int) * 10
            + digit_val(s[k + t.len() - 1]));
        assert(n / 10 * 10 + n % 10 == n);
    }
}

proof fn lemma_escape_str_concat(a: Seq<char>, b: Seq<char>)
    ensures
        escape_str(a + b) == escape_str(a) + escape_str(b),
    decreases b.len(),
{
    if b.len() == 0 {
        assert(a + b =~= a);
        assert(escape_str(a) + escape_str(b) =~= escape_str(a));
    } else {
        lemma_escape_str_concat(a, b.drop_last());
        assert((a + b).drop_last() =~= a + b.drop_last());
        assert((a + b).last() == b.last());
        assert(escape_str(a) + (escape_str(b.drop_last()) + escape_char(b.last())) =~= (escape_str(
            a,
        ) + escape_str(b.drop_last())) + escape_char(b.last()));
    }
}

/// The front decomposition of an escaped string.
proof fn lemma_escape_str_first(c: Seq<char>)
    requires
        c.len() > 0,
    ensures
        escape_str(c) == escape_char(c[0]) + escape_str(c.drop_first()),
    decreases c.len(),
{
    assert(c =~= seq![c[0]] + c.drop_first());
    lemma_escape_str_concat(seq![c[0]], c.drop_first());
    assert(seq![c[0]].drop_last() =~= Seq::<char>::empty());
    assert(escape_str(seq![c[0]]) == escape_str(Seq::<char>::empty()) + escape_char(c[0]));
    assert(Seq::<char>::empty() + escape_char(c[0]) =~= escape_char(c[0]));
}

/// The first character of a document's text: one of the value-starting
/// characters, so never whitespace nor a delimiter.
proof fn lemma_json_text_first(m: JsonModel)
    ensures
        json_text(m).len() >= 1,
        ({
            let c = json_text(m)[0];
            c == 'n' || c == 't' || c == 'f' || c == '"' || c == '[' || c == '{' || c == '-'
                || is_digit(c)
        }),
{
    match m {
        JsonModel::Null => {},
        JsonModel::Bool(_) => {},
        JsonModel::Int(v) => {
            if v < 0 {
                assert(json_text(m)[0] == '-');
            } else {
                lemma_dec_nat_digits(v as nat);
            }
        },
        JsonModel::Str(str0) => {
            assert(json_text(m)[0] == '"');
        },
        JsonModel::Arr(a) => {
            assert(json_text(m)[0] == '[');
        },
        JsonModel::Obj(ms) => {
            assert(json_text(m)[0] == '{');
        },
    }
}

/// Parsing an escaped-and-closed string literal gives the contents back.
#[verifier::rlimit(60)]
proof fn lemma_rt_string(content: Seq<char>, s: Seq<char>, i: int)
    requires
        0 <= i,
        i + escape_str(content).len() + 1 <= s.len(),
        s.subrange(i, i + escape_str(content).len() as int) == escape_str(content),
        s[i + escape_str(content).len()] == '"',
    ensures
        sp_string(s, i) == Some((content, i + escape_str(content).len() + 1)),
    decreases content.len(),
{
    let esc = escape_str(content);
    if content.len() == 0 {
        assert(esc.len() == 0);
    } else {
        let c0 = content[0];
        let rest = content.drop_first();
        lemma_escape_str_first(content);
        let e0 = escape_char(c0);
        let er = escape_str(rest);
        lemma_sub_match(s, i, esc, e0.len() as int, esc.len() as int);
        assert(esc.subrange(e0.len() as int, esc.len() as int) =~= er);
        assert forall|x: int| 0 <= x < e0.len() implies s[i + x] == e0[x] by {
            lemma_char_at(s, i, esc, x);
        }
        lemma_rt_string(rest, s, i + e0.len() as int);
        assert(seq![c0] + rest =~= content);
        if c0 == '"' {
            assert(s[i] == '\\');
            assert(s[i + 1] == '"');
            assert(unescape_simple(s[i + 1]) == Some('"'));
        } else if c0 == '\\' {
            assert(s[i] == '\\');
            assert(s[i + 1] == '\\');
            assert(unescape_simple(s[i + 1]) == Some('\\'));
        } else if is_control(c0) {
            let u = c0 as u32;
            assert(s[i] == '\\');
            assert(s[i + 1] == 'u');
            assert(s[i + 2] == '0');
            assert(s[i + 3] == '0');
            assert(s[i + 4] == digit_char(u as int / 16));
            assert(s[i + 5] == digit_char(u as int % 16));
            assert(hex_val('0') == 0);
            lemma_hex_digit_char_val(u as int / 16);
            lemma_hex_digit_char_val(u as int % 16);
            let n = ((hex_val(s[i + 2]) * 16 + hex_val(s[i + 3])) * 16 + hex_val(s[i + 4])) * 16
                + hex_val(s[i + 5]);
            assert(n == u as int / 16 * 16 + u as int % 16);
            assert(n == u);
            vstd::utf8::char_u32_cast(c0, u);
            assert(((n as u32) as char) == c0);
        } else {
            assert(s[i] == c0);
        }
    }
}

/// The front decomposition of an array's items text.
proof fn lemma_items_text_first(a: Seq<JsonModel>)
    requires
        a.len() >= 1,
    ensures
        items_text(a) == json_text(a[0]) + (if a.len() == 1 {
            Seq::<char>::empty()
        } else {
            seq![','] + items_text(a.drop_first())
        }),
    decreases a.len(),
{
    if a.len() == 1 {
        assert(json_text(a[0]) + Seq::<char>::empty() =~= json_text(a[0]));
    } else if a.len() == 2 {
        assert(a.drop_last().len() == 1);
        assert(a.drop_last()[0] == a[0]);
        assert(items_text(a.drop_last()) == json_text(a[0]));
        assert(a.drop_first().len() == 1);
        assert(a.drop_first()[0] == a[1]);
        assert(a.last() == a[1]);
        assert(items_text(a.drop_first()) == json_text(a[1]));
        assert(items_text(a.drop_last()) + seq![','] + json_text(a.last()) =~= json_text(a[0]) + (
        seq![','] + items_text(a.drop_first())));
    } else {
        lemma_items_text_first(a.drop_last());
        assert(a.drop_last()[0] == a[0]);
        assert(a.drop_last().drop_first() =~= a.drop_first().drop_last());
        assert(a.drop_first().last() == a.last());
        assert(a.drop_first().len() >= 2);
        assert(items_text(a) == items_text(a.drop_last()) + seq![','] + json_text(a.last()));
        assert(items_text(a.drop_last()) == json_text(a[0]) + (seq![','] + items_text(
            a.drop_last().drop_first(),
        )));
        assert(items_text(a.drop_first()) == items_text(a.drop_first().drop_last()) + seq![',']
            + json_text(a.drop_first().last()));
        assert((json_text(a[0]) + (seq![','] + items_text(a.drop_first().drop_last()))) + seq![',']
            + json_text(a.last()) =~= json_text(a[0]) + (seq![','] + (items_text(
            a.drop_first().drop_last(),
        ) + seq![','] + json_text(a.drop_first().last()))));
    }
}

/// The front decomposition of an object's members text.
proof fn lemma_members_text_first(ms: Seq<(Seq<char>, JsonModel)>)
    requires
        ms.len() >= 1,
    ensures
        members_text(ms) == member_text(ms[0]) + (if ms.len() == 1 {
            Seq::<char>::empty()
        } else {
            seq![','] + members_text(ms.drop_first())
        }),
    decreases ms.len(),
{
    if ms.len() == 1 {
        assert(member_text(ms[0]) + Seq::<char>::empty() =~= member_text(ms[0]));
    } else if ms.len() == 2 {
        assert(ms.drop_last().len() == 1);
        assert(ms.drop_last()[0] == ms[0]);
        assert(members_text(ms.drop_last()) == member_text(ms[0]));
        assert(ms.drop_first().len() == 1);
        assert(ms.drop_first()[0] == ms[1]);
        assert(ms.last() == ms[1]);
        assert(members_text(ms.drop_first()) == member_text(ms[1]));
        assert(members_text(ms.drop_last()) + seq![','] + member_text(ms.last()) =~= member_text(
            ms[0],
        ) + (seq![','] + members_text(ms.drop_first())));
    } else {
        lemma_members_text_first(ms.drop_last());
        assert(ms.drop_last()[0] == ms[0]);
        assert(ms.drop_last().drop_first() =~= ms.drop_first().drop_last());
        assert(ms.drop_first().last() == ms.last());
        assert(ms.drop_first().len() >= 2);
        assert(members_text(ms) == members_text(ms.drop_last()) + seq![','] + member_text(
            ms.last(),
        ));
        assert(members_text(ms.drop_last()) == member_text(ms[0]) + (seq![','] + members_text(
            ms.drop_last().drop_first(),
        )));
        assert(members_text(ms.drop_first()) == members_text(ms.drop_first().drop_last())
            + seq![','] + member_text(ms.drop_first().last()));
        assert((member_text(ms[0]) + (seq![','] + members_text(ms.drop_first().drop_last())))
            + seq![','] + member_text(ms.last()) =~= member_text(ms[0]) + (seq![','] + (
        members_text(ms.drop_first().drop_last()) + seq![','] + member_text(
            ms.drop_first().last(),
        ))));
    }
}

/// Parsing the canonical text of a value, in any surrounding text whose
/// next character cannot extend a number, gives the value back.
#[verifier::rlimit(60)]
proof fn lemma_rt_value(m: JsonModel, s: Seq<char>, i: int)
    requires
        wf_model(m),
        0 <= i,
        i + json_text(m).len() <= s.len(),
        s.subrange(i, i + json_text(m).len() as int) == json_text(m),
        i + json_text(m).len() == s.len() || !is_digit(s[i + json_text(m).len()]),
    ensures
        sp_value(s, i) == Some((m, i + json_text(m).len())),
    decreases m, 0int,
{
    let t = json_text(m);
    lemma_json_text_first(m);
    lemma_char_at(s, i, t, 0);
    assert(!is_ws(s[i]));
    assert(skip_ws(s, i) == i);
    match m {
        JsonModel::Null => {
            lemma_char_at(s, i, t, 1);
            lemma_char_at(s, i, t, 2);
            lemma_char_at(s, i, t, 3);
        },
        JsonModel::Bool(b) => {
            if b {
                lemma_char_at(s, i, t, 1);
                lemma_char_at(s, i, t, 2);
                lemma_char_at(s, i, t, 3);
            } else {
                lemma_char_at(s, i, t, 1);
                lemma_char_at(s, i, t, 2);
                lemma_char_at(s, i, t, 3);
                lemma_char_at(s, i, t, 4);
            }
        },
        JsonModel::Int(v) => {
            if v < 0 {
                let mag = (-v) as nat;
                let d = dec_nat(mag);
                assert(s[i] == '-');
                lemma_dec_nat_digits(mag);
                lemma_sub_match(s, i, t, 1, t.len() as int);
                assert(t.subrange(1, t.len() as int) =~= d);
                lemma_dec_nat_val(mag, s, i + 1);
                assert forall|x: int| i + 1 <= x < i + t.len() implies is_digit(s[x]) by {
                    lemma_char_at(s, i + 1, d, x - i - 1);
                }
                lemma_digits_end_of(s, i + 1, i + t.len() as int);
                assert(mag <= 0x8000000000000000);
                assert(sp_number(s, i) == Some((JsonModel::Int(v), i + t.len())));
            } else {
                let mag = v as nat;
                let d = dec_nat(mag);
                assert(t == d);
                lemma_dec_nat_digits(mag);
                assert(is_digit(s[i]));
                assert(s[i] != '-');
                lemma_dec_nat_val(mag, s, i);
                assert forall|x: int| i <= x < i + t.len() implies is_digit(s[x]) by {
                    lemma_char_at(s, i, d, x - i);
                }
                lemma_digits_end_of(s, i, i + t.len() as int);
                assert(mag <= 0x7fffffffffffffff);
                assert(sp_number(s, i) == Some((JsonModel::Int(v), i + t.len())));
            }
        },
        JsonModel::Str(str0) => {
            let esc = escape_str(str0);
            assert(s[i] == '"');
            lemma_sub_match(s, i, t, 1, 1 + esc.len() as int);
            assert(t.subrange(1, 1 + esc.len() as int) =~= esc);
            lemma_char_at(s, i, t, t.len() - 1);
            assert(t[t.len() - 1] == '"');
            lemma_rt_string(str0, s, i + 1);
            assert(1 + esc.len() + 1 == t.len());
        },
        JsonModel::Arr(a) => {
            let items = items_text(a);
            assert(s[i] == '[');
            lemma_sub_match(s, i, t, 1, 1 + items.len() as int);
            assert(t.subrange(1, 1 + items.len() as int) =~= items);
            lemma_char_at(s, i, t, t.len() - 1);
            assert(t[t.len() - 1] == ']');
            assert(m == JsonModel::Arr(a));
            assert(decreases_to!(JsonModel::Arr(a) => a));
            lemma_rt_items(a, s, i + 1, true);
            assert(1 + items.len() + 1 == t.len());
        },
        JsonModel::Obj(ms) => {
            let mems = members_text(ms);
            assert(s[i] == '{');
            lemma_sub_match(s, i, t, 1, 1 + mems.len() as int);
            assert(t.subrange(1, 1 + mems.len() as int) =~= mems);
            lemma_char_at(s, i, t, t.len() - 1);
            assert(t[t.len() - 1] == '}');
            assert(m == JsonModel::Obj(ms));
            assert(decreases_to!(JsonModel::Obj(ms) => ms));
            lemma_rt_members(ms, s, i + 1, true);
            assert(1 + mems.len() + 1 == t.len());
        },
    }
}

/// Parsing the items text of an array, up to its closing bracket, gives
/// the elements back.
#[verifier::rlimit(60)]
proof fn lemma_rt_items(a: Seq<JsonModel>, s: Seq<char>, i: int, first: bool)
    requires
        wf_models(a),
        first || a.len() >= 1,
        0 <= i,
        i + items_text(a).len() + 1 <= s.len(),
        s.subrange(i, i + items_text(a).len() as int) == items_text(a),
        s[i + items_text(a).len()] == ']',
    ensures
        sp_items(s, i, first) == Some((a, i + items_text(a).len() + 1)),
    decreases a, 1int,
{
    let t = items_text(a);
    if a.len() == 0 {
        assert(t.len() == 0);
        assert(!is_ws(s[i]));
        assert(skip_ws(s, i) == i);
        assert(a =~= Seq::<JsonModel>::empty());
    } else {
        let e0 = a[0];
        let vt = json_text(e0);
        lemma_items_text_first(a);
        lemma_json_text_first(e0);
        lemma_wf_models_char(a);
        lemma_sub_match(s, i, t, 0, vt.len() as int);
        assert(t.subrange(0, vt.len() as int) =~= vt);
        lemma_char_at(s, i, vt, 0);
        assert(!is_ws(s[i]));
        assert(skip_ws(s, i) == i);
        assert(s[i] != ']');
        if a.len() == 1 {
            assert(t =~= vt);
            lemma_rt_value(e0, s, i);
            let e = i + vt.len() as int;
            assert(s[e] == ']');
            assert(!is_ws(s[e]));
            assert(skip_ws(s, e) == e);
            assert(seq![e0] =~= a);
        } else {
            lemma_char_at(s, i, t, vt.len() as int);
            assert(t[vt.len() as int] == ',');
            lemma_rt_value(e0, s, i);
            let e = i + vt.len() as int;
            assert(s[e] == ',');
            assert(!is_ws(s[e]));
            assert(skip_ws(s, e) == e);
            let rt = items_text(a.drop_first());
            lemma_sub_match(s, i, t, vt.len() as int + 1, t.len() as int);
            assert(t.subrange(vt.len() as int + 1, t.len() as int) =~= rt);
            assert forall|x: int| 0 <= x < a.drop_first().len() implies wf_model(
                a.drop_first()[x],
            ) by {
                assert(a.drop_first()[x] == a[x + 1]);
            }
            lemma_wf_models_char(a.drop_first());
            assert(decreases_to!(a => a.drop_first()));
            lemma_rt_items(a.drop_first(), s, e + 1, false);
            assert(seq![e0] + a.drop_first() =~= a);
        }
    }
}

/// Parsing the members text of an object, up to its closing brace, gives
/// the members back.
#[verifier::rlimit(60)]
proof fn lemma_rt_members(ms: Seq<(Seq<char>, JsonModel)>, s: Seq<char>, i: int, first: bool)
    requires
        wf_members(ms),
        first || ms.len() >= 1,
        0 <= i,
        i + members_text(ms).len() + 1 <= s.len(),
        s.subrange(i, i + members_text(ms).len() as int) == members_text(ms),
        s[i + members_text(ms).len()] == '}',
    ensures
        sp_members(s, i, first) == Some((ms, i + members_text(ms).len() + 1)),
    decreases ms, 1int,
{
    let t = members_text(ms);
    if ms.len() == 0 {
        assert(t.len() == 0);
        assert(!is_ws(s[i]));
        assert(skip_ws(s, i) == i);
        assert(ms =~= Seq::<(Seq<char>, JsonModel)>::empty());
    } else {
        let kv = ms[0];
        let key = kv.0;
        let esc = escape_str(key);
        let mt = member_text(kv);
        let vt = json_text(kv.1);
        lemma_members_text_first(ms);
        lemma_wf_members_char(ms);
        lemma_sub_match(s, i, t, 0, mt.len() as int);
        assert(t.subrange(0, mt.len() as int) =~= mt);
        // mt = ['"'] + esc + ['"'] + [':'] + vt
        lemma_char_at(s, i, mt, 0);
        assert(mt[0] == '"');
        assert(s[i] == '"');
        assert(!is_ws(s[i]));
        assert(skip_ws(s, i) == i);
        // the key literal
        lemma_sub_match(s, i, mt, 1, 1 + esc.len() as int);
        assert(mt.subrange(1, 1 + esc.len() as int) =~= esc);
        lemma_char_at(s, i, mt, 1 + esc.len() as int);
        assert(mt[1 + esc.len() as int] == '"');
        lemma_rt_string(key, s, i + 1);
        let e = i + 1 + esc.len() as int + 1;
        // the colon
        lemma_char_at(s, i, mt, 2 + esc.len() as int);
        assert(mt[2 + esc.len() as int] == ':');
        assert(s[e] == ':');
        assert(!is_ws(s[e]));
        assert(skip_ws(s, e) == e);
        // the value
        let vstart = e + 1;
        lemma_sub_match(s, i, mt, 3 + esc.len() as int, mt.len() as int);
        assert(mt.subrange(3 + esc.len() as int, mt.len() as int) =~= vt);
        assert(decreases_to!(ms => ms[0]));
        assert(decreases_to!(ms[0] => ms[0].1));
        if ms.len() == 1 {
            assert(t =~= mt);
            lemma_rt_value(kv.1, s, vstart);
            let e2 = vstart + vt.len() as int;
            assert(e2 == i + t.len());
            assert(s[e2] == '}');
            assert(!is_ws(s[e2]));
            assert(skip_ws(s, e2) == e2);
            assert((key, kv.1) == kv);
            assert(seq![(key, kv.1)] =~= ms);
        } else {
            lemma_char_at(s, i, t, mt.len() as int);
            assert(t[mt.len() as int] == ',');
            lemma_rt_value(kv.1, s, vstart);
            let e2 = vstart + vt.len() as int;
            assert(e2 == i + mt.len());
            assert(s[e2] == ',');
            assert(!is_ws(s[e2]));
            assert(skip_ws(s, e2) == e2);
            let rt = members_text(ms.drop_first());
            lemma_sub_match(s, i, t, mt.len() as int + 1, t.len() as int);
            assert(t.subrange(mt.len() as int + 1, t.len() as int) =~= rt);
            assert forall|x: int| 0 <= x < ms.drop_first().len() implies wf_model(
                ms.drop_first()[x].1,
            ) by {
                assert(ms.drop_first()[x] == ms[x + 1]);
            }
            lemma_wf_members_char(ms.drop_first());
            assert(decreases_to!(ms => ms.drop_first()));
            lemma_rt_members(ms.drop_first(), s, e2 + 1, false);
            assert((key, kv.1) == kv);
            assert(seq![(key, kv.1)] + ms.drop_first() =~= ms);
        }
    }
}

/// Law: decoding inverts serialization.  Parsing the canonical text of a
/// representable document yields exactly the document back.
pub proof fn lemma_json_round_trip(m: JsonModel)
    requires
        wf_model(m),
    ensures
        sp_json(json_text(m)) == Some(m),
{
    let s = json_text(m);
    assert(s.subrange(0, s.len() as int) =~= s);
    lemma_rt_value(m, s, 0);
    assert(skip_ws(s, s.len() as int) == s.len());
}

/// Law: decode(serialize(v)) == v.  For every value, parsing the
/// serializer's output gives the value's model back — so
/// [`parse_json`] applied to [`to_json_text`] returns the value itself.
pub proof fn lemma_value_round_trip(v: JsonValue)
    ensures
        sp_json(json_text(v@)) == Some(v@),
{
    lemma_model_of_wf(v);
    lemma_json_round_trip(v@);
}

/// Parses a JSON document: exactly the values that [`sp_json`] accepts,
/// and exactly the model that it gives.
pub fn parse_json(s: &str) -> (r: Option<JsonValue>)
    ensures
        match r {
            Option::Some(v) => sp_json(s@) == Some(v@),
            Option::None => sp_json(s@) is None,
        },
{
    let chars = crate::text::str_to_chars(s);
    match p_value(&chars, 0) {
        Option::None => None,
        Option::Some((v, e)) => {
            let k = p_skip_ws(&chars, e);
            if k == chars.len() {
                Some(v)
            } else {
                None
            }
        },
    }
}

} // verus!
