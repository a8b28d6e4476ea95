//! Typed values validated against a datatype tag.

use vstd::prelude::*;
use crate::errors::{AtomicError, AtomicResult, ErrorKind};
use crate::text::{
    all_digits, arr_enc, encode_net, i64_to_string, int_digits, int_lit_value, is_digit_char,
    is_int_literal, lemma_arr_enc_injective, lemma_arr_enc_snoc, lemma_int_digits_injective,
    lemma_int_digits_literal,
    parse_i64_lenient, parse_str_list, str_eq,
};

verus! {

/// The tag that decides how a value string is decoded and validated.
#[derive(Clone, Copy, Debug, PartialEq, Eq, Structural)]
pub enum DataType {
    /// Free UTF-8 text.
    Str,
    /// Markdown text.
    Markdown,
    /// A lowercase identifier of letters, digits and dashes.
    Slug,
    /// A signed 64-bit integer.
    Integer,
    /// A finite decimal number, kept as its literal.
    Float,
    /// `true` or `false`.
    Boolean,
    /// An ISO date, `YYYY-MM-DD`.
    Date,
    /// Milliseconds since the epoch, non-negative.
    Timestamp,
    /// A non-empty subject URL.
    AtomicUrl,
    /// An ordered list of subject URLs.
    ResourceArray,
    /// An inline resource, referred to by its subject.
    NestedResource,
}

/// The mathematical shape of a value: character sequences in place of
/// strings.
pub enum ValueV {
    Str(Seq<char>),
    Markdown(Seq<char>),
    Slug(Seq<char>),
    Integer(int),
    Float(Seq<char>),
    Boolean(bool),
    Date(Seq<char>),
    Timestamp(int),
    AtomicUrl(Seq<char>),
    ResourceArray(Seq<Seq<char>>),
    NestedResource(Seq<char>),
}

/// A typed value. The variant fixes the datatype; the payload was validated
/// when the value was made.
#[derive(Clone, Debug)]
pub enum Value {
    Str(String),
    Markdown(String),
    Slug(String),
    Integer(i64),
    Float(String),
    Boolean(bool),
    Date(String),
    Timestamp(i64),
    AtomicUrl(String),
    ResourceArray(Vec<String>),
    NestedResource(String),
}

impl View for Value {
    type V = ValueV;

    open spec fn view(&self) -> ValueV {
        match self {
            Value::Str(s) => ValueV::Str(s@),
            Value::Markdown(s) => ValueV::Markdown(s@),
            Value::Slug(s) => ValueV::Slug(s@),
            Value::Integer(i) => ValueV::Integer(*i as int),
            Value::Float(s) => ValueV::Float(s@),
            Value::Boolean(b) => ValueV::Boolean(*b),
            Value::Date(s) => ValueV::Date(s@),
            Value::Timestamp(t) => ValueV::Timestamp(*t as int),
            Value::AtomicUrl(s) => ValueV::AtomicUrl(s@),
            Value::ResourceArray(a) => ValueV::ResourceArray(a.deep_view()),
            Value::NestedResource(s) => ValueV::NestedResource(s@),
        }
    }
}

/// The datatype of a value shape.
pub open spec fn value_dt(v: ValueV) -> DataType {
    match v {
        ValueV::Str(_) => DataType::Str,
        ValueV::Markdown(_) => DataType::Markdown,
        ValueV::Slug(_) => DataType::Slug,
        ValueV::Integer(_) => DataType::Integer,
        ValueV::Float(_) => DataType::Float,
        ValueV::Boolean(_) => DataType::Boolean,
        ValueV::Date(_) => DataType::Date,
        ValueV::Timestamp(_) => DataType::Timestamp,
        ValueV::AtomicUrl(_) => DataType::AtomicUrl,
        ValueV::ResourceArray(_) => DataType::ResourceArray,
        ValueV::NestedResource(_) => DataType::NestedResource,
    }
}

/// Whether `c` may stand in a slug.
pub open spec fn is_slug_char(c: char) -> bool {
    (97 <= c as int <= 122) || is_digit_char(c) || c as int == 45
}

/// A slug: non-empty, lowercase letters, digits and dashes.
pub open spec fn is_slug(s: Seq<char>) -> bool {
    s.len() >= 1 && forall|i: int| 0 <= i < s.len() ==> is_slug_char(s[i])
}

/// An ISO date: four digits, a dash, two digits, a dash, two digits.
pub open spec fn is_date(s: Seq<char>) -> bool {
    &&& s.len() == 10
    &&& s[4] == '-'
    &&& s[7] == '-'
    &&& forall|i: int|
        0 <= i < 10 && i != 4 && i != 7 ==> is_digit_char(s[i])
}

/// An unsigned decimal literal: digits, optionally a point with digits on
/// both sides.
pub open spec fn is_ufloat(t: Seq<char>) -> bool {
    ||| (t.len() >= 1 && all_digits(t))
    ||| (exists|k: int|
        1 <= k && k + 2 <= t.len() && t[k] == '.' && all_digits(t.take(k)) && all_digits(
            t.skip(k + 1),
        ))
}

/// A finite decimal literal, optionally signed.
pub open spec fn is_float_lit(s: Seq<char>) -> bool {
    if s.len() >= 1 && s[0] == '-' {
        is_ufloat(s.skip(1))
    } else {
        is_ufloat(s)
    }
}

/// Whether a signed 64-bit number renders to `s`.
pub open spec fn is_i64_lit(s: Seq<char>) -> bool {
    exists|v: i64| s == int_digits(v as int)
}

/// Every member of the list is non-empty.
pub open spec fn arr_elems_nonempty(a: Seq<Seq<char>>) -> bool {
    forall|i: int| 0 <= i < a.len() ==> (#[trigger] a[i]).len() >= 1
}

/// Well-formedness of a value shape: the payload satisfies its datatype.
pub open spec fn value_valid(v: ValueV) -> bool {
    match v {
        ValueV::Str(_) => true,
        ValueV::Markdown(_) => true,
        ValueV::Slug(s) => is_slug(s),
        ValueV::Integer(i) => i64::MIN <= i <= i64::MAX,
        ValueV::Float(s) => is_float_lit(s),
        ValueV::Boolean(_) => true,
        ValueV::Date(s) => is_date(s),
        ValueV::Timestamp(t) => 0 <= t <= i64::MAX,
        ValueV::AtomicUrl(s) => s.len() >= 1,
        ValueV::ResourceArray(a) => arr_elems_nonempty(a),
        ValueV::NestedResource(s) => s.len() >= 1,
    }
}

/// The canonical string form of a value: what `to_string` returns and what
/// `Value::new` accepts back.
pub open spec fn value_string(v: ValueV) -> Seq<char> {
    match v {
        ValueV::Str(s) => s,
        ValueV::Markdown(s) => s,
        ValueV::Slug(s) => s,
        ValueV::Integer(i) => int_digits(i),
        ValueV::Float(s) => s,
        ValueV::Boolean(b) => if b {
            "true"@
        } else {
            "false"@
        },
        ValueV::Date(s) => s,
        ValueV::Timestamp(t) => int_digits(t),
        ValueV::AtomicUrl(s) => s,
        ValueV::ResourceArray(a) => arr_enc(a),
        ValueV::NestedResource(s) => s,
    }
}

/// The single-character tag of a datatype, used in serialized resources.
pub open spec fn dt_code(dt: DataType) -> char {
    match dt {
        DataType::Str => 's',
        DataType::Markdown => 'm',
        DataType::Slug => 'g',
        DataType::Integer => 'i',
        DataType::Float => 'f',
        DataType::Boolean => 'b',
        DataType::Date => 'd',
        DataType::Timestamp => 't',
        DataType::AtomicUrl => 'u',
        DataType::ResourceArray => 'a',
        DataType::NestedResource => 'n',
    }
}

/// The tag character of a datatype.
pub fn datatype_code(dt: &DataType) -> (c: char)
    ensures
        c == dt_code(*dt),
{
    match dt {
        DataType::Str => 's',
        DataType::Markdown => 'm',
        DataType::Slug => 'g',
        DataType::Integer => 'i',
        DataType::Float => 'f',
        DataType::Boolean => 'b',
        DataType::Date => 'd',
        DataType::Timestamp => 't',
        DataType::AtomicUrl => 'u',
        DataType::ResourceArray => 'a',
        DataType::NestedResource => 'n',
    }
}

/// The datatype a tag character names, if any.
pub fn datatype_from_code(c: char) -> (r: Option<DataType>)
    ensures
        match r {
            Some(dt) => dt_code(dt) == c,
            None => forall|dt: DataType| dt_code(dt) != c,
        },
{
    if c == 's' {
        Some(DataType::Str)
    } else if c == 'm' {
        Some(DataType::Markdown)
    } else if c == 'g' {
        Some(DataType::Slug)
    } else if c == 'i' {
        Some(DataType::Integer)
    } else if c == 'f' {
        Some(DataType::Float)
    } else if c == 'b' {
        Some(DataType::Boolean)
    } else if c == 'd' {
        Some(DataType::Date)
    } else if c == 't' {
        Some(DataType::Timestamp)
    } else if c == 'u' {
        Some(DataType::AtomicUrl)
    } else if c == 'a' {
        Some(DataType::ResourceArray)
    } else if c == 'n' {
        Some(DataType::NestedResource)
    } else {
        None
    }
}

/// The canonical string form determines the value, datatype by datatype.
pub proof fn lemma_value_string_injective(a: ValueV, b: ValueV)
    requires
        value_valid(a),
        value_valid(b),
        value_dt(a) == value_dt(b),
        value_string(a) == value_string(b),
    ensures
        a == b,
{
    match a {
        ValueV::Integer(x) => {
            lemma_int_digits_injective(x, b->Integer_0);
        },
        ValueV::Timestamp(x) => {
            lemma_int_digits_injective(x, b->Timestamp_0);
        },
        ValueV::Boolean(x) => {
            if x != b->Boolean_0 {
                proof_strlit_true_false();
            }
        },
        ValueV::ResourceArray(x) => {
            lemma_arr_enc_injective(x, b->ResourceArray_0);
        },
        _ => {},
    }
}

/// The two boolean literals differ.
proof fn proof_strlit_true_false()
    ensures
        "true"@ != "false"@,
{
    reveal_strlit("true");
    reveal_strlit("false");
    assert("true"@.len() == 4);
    assert("false"@.len() == 5);
}

/// Which strings `Value::new` accepts for a datatype: integers and
/// timestamps take any signed decimal literal in range (the held value is
/// canonical); every other datatype takes exactly the canonical string form
/// of a valid value.
pub open spec fn value_admissible(s: Seq<char>, dt: DataType) -> bool {
    match dt {
        DataType::Integer => is_int_literal(s) && i64::MIN <= int_lit_value(s) <= i64::MAX,
        DataType::Timestamp => is_int_literal(s) && 0 <= int_lit_value(s) <= i64::MAX,
        _ => parseable(s, dt),
    }
}

/// Whether some valid value of datatype `dt` has the string form `s`.
pub open spec fn parseable(s: Seq<char>, dt: DataType) -> bool {
    exists|v: ValueV| value_valid(v) && value_dt(v) == dt && value_string(v) == s
}

/// Checks the slug grammar.
fn is_slug_str(s: &String) -> (r: bool)
    ensures
        r == is_slug(s@),
{
    let slen = s.as_str().unicode_len();
    if slen == 0 {
        return false;
    }
    let mut i: usize = 0;
    while i < slen
        invariant
            i <= slen,
            slen == s@.len(),
            forall|j: int| 0 <= j < i ==> is_slug_char(s@[j]),
        decreases slen - i,
    {
        let c = s.as_str().get_char(i);
        let u = c as u32;
        if !((97 <= u && u <= 122) || (48 <= u && u <= 57) || u == 45) {
            assert(!is_slug_char(s@[i as int]));
            return false;
        }
        i = i + 1;
    }
    true
}

/// Checks the ISO date shape.
fn is_date_str(s: &String) -> (r: bool)
    ensures
        r == is_date(s@),
{
    let slen = s.as_str().unicode_len();
    if slen != 10 {
        return false;
    }
    let mut i: usize = 0;
    while i < 10
        invariant
            i <= 10,
            slen == s@.len() == 10,
            forall|j: int| 0 <= j < i && j != 4 && j != 7 ==> is_digit_char(s@[j]),
            forall|j: int| 0 <= j < i && (j == 4 || j == 7) ==> s@[j] == '-',
        decreases 10 - i,
    {
        let c = s.as_str().get_char(i);
        if i == 4 || i == 7 {
            if c != '-' {
                return false;
            }
        } else {
            let u = c as u32;
            if !(48 <= u && u <= 57) {
                assert(!is_digit_char(s@[i as int]));
                return false;
            }
        }
        i = i + 1;
    }
    true
}

/// The end of the run of digit characters beginning at `from`.
fn scan_digits(s: &String, from: usize) -> (end: usize)
    requires
        from <= s@.len(),
    ensures
        from <= end <= s@.len(),
        forall|j: int| from <= j < end ==> is_digit_char(s@[j]),
        end == s@.len() || !is_digit_char(s@[end as int]),
{
    let slen = s.as_str().unicode_len();
    let mut i: usize = from;
    loop
        invariant
            from <= i <= slen,
            slen == s@.len(),
            forall|j: int| from <= j < i ==> is_digit_char(s@[j]),
        decreases slen - i,
    {
        if i == slen {
            return i;
        }
        let c = s.as_str().get_char(i);
        let u = c as u32;
        if !(48 <= u && u <= 57) {
            assert(!is_digit_char(s@[i as int]));
            return i;
        }
        i = i + 1;
    }
}

/// Checks the decimal-literal grammar.
fn is_float_str(s: &String) -> (r: bool)
    ensures
        r == is_float_lit(s@),
{
    let slen = s.as_str().unicode_len();
    let b: usize = if slen > 0 {
        let c0 = s.as_str().get_char(0);
        if c0 == '-' {
            1
        } else {
            0
        }
    } else {
        0
    };
    let ghost t: Seq<char> = if b == 1 {
        s@.skip(1)
    } else {
        s@
    };
    proof {
        if b == 0 {
            assert(s@.skip(0) =~= s@);
        }
        assert(t.len() == slen - b);
        assert(forall|j: int| 0 <= j < t.len() ==> t[j] == s@[b + j]);
    }
    if b == slen {
        assert(t.len() == 0);
        return false;
    }
    let i = scan_digits(s, b);
    if i == b {
        // no leading digit: neither form fits
        proof {
            assert(!is_digit_char(s@[b as int]));
            assert(t[0] == s@[b as int]);
            if is_ufloat(t) {
                if t.len() >= 1 && all_digits(t) {
                    assert(is_digit_char(t[0]));
                } else {
                    let k = choose|k: int|
                        1 <= k && k + 2 <= t.len() && t[k] == '.' && all_digits(t.take(k))
                            && all_digits(t.skip(k + 1));
                    assert(t.take(k)[0] == t[0]);
                    assert(is_digit_char(t[0]));
                }
            }
        }
        return false;
    }
    if i == slen {
        proof {
            assert forall|j: int| 0 <= j < t.len() implies is_digit_char(t[j]) by {
                assert(t[j] == s@[b + j]);
            }
        }
        return true;
    }
    let ghost kf: int = i - b;
    proof {
        assert(!is_digit_char(s@[i as int]));
        assert(t[kf] == s@[i as int]);
    }
    let ci = s.as_str().get_char(i);
    if ci != '.' {
        proof {
            if is_ufloat(t) {
                if t.len() >= 1 && all_digits(t) {
                    assert(is_digit_char(t[kf]));
                } else {
                    let k = choose|k: int|
                        1 <= k && k + 2 <= t.len() && t[k] == '.' && all_digits(t.take(k))
                            && all_digits(t.skip(k + 1));
                    if k < kf {
                        assert(is_digit_char(s@[b + k])) by {
                            assert(b <= b + k < i);
                        }
                        assert(t[k] == s@[b + k]);
                        assert(!is_digit_char('.'));
                    } else if k == kf {
                        assert(t[k] != '.');
                    } else {
                        assert(t.take(k)[kf] == t[kf]);
                        assert(is_digit_char(t[kf]));
                    }
                }
            }
        }
        return false;
    }
    if i + 1 == slen {
        proof {
            if is_ufloat(t) {
                if t.len() >= 1 && all_digits(t) {
                    assert(is_digit_char(t[kf]));
                } else {
                    let k = choose|k: int|
                        1 <= k && k + 2 <= t.len() && t[k] == '.' && all_digits(t.take(k))
                            && all_digits(t.skip(k + 1));
                    if k < kf {
                        assert(t[k] == s@[b + k]);
                        assert(is_digit_char(s@[b + k]));
                    } else if k > kf {
                        assert(t.take(k)[kf] == t[kf]);
                        assert(is_digit_char(t[kf]));
                    } else {
                        assert(k + 2 <= t.len());
                    }
                }
            }
        }
        return false;
    }
    let j = scan_digits(s, i + 1);
    if j == slen {
        proof {
            assert(t[kf] == '.');
            assert(1 <= kf && kf + 2 <= t.len());
            assert forall|l: int| 0 <= l < kf implies is_digit_char(t.take(kf)[l]) by {
                assert(t.take(kf)[l] == t[l]);
                assert(t[l] == s@[b + l]);
            }
            assert forall|l: int| 0 <= l < t.len() - kf - 1 implies is_digit_char(
                #[trigger] t.skip(kf + 1)[l],
            ) by {
                assert(t.skip(kf + 1)[l] == t[kf + 1 + l]);
                assert(t[kf + 1 + l] == s@[b + kf + 1 + l]);
            }
        }
        return true;
    }
    proof {
        assert(!is_digit_char(s@[j as int]));
        if is_ufloat(t) {
            if t.len() >= 1 && all_digits(t) {
                assert(is_digit_char(t[kf]));
            } else {
                let k = choose|k: int|
                    1 <= k && k + 2 <= t.len() && t[k] == '.' && all_digits(t.take(k))
                        && all_digits(t.skip(k + 1));
                if k < kf {
                    assert(t[k] == s@[b + k]);
                    assert(is_digit_char(s@[b + k]));
                } else if k > kf {
                    assert(t.take(k)[kf] == t[kf]);
                    assert(is_digit_char(t[kf]));
                } else {
                    assert(t.skip(kf + 1)[j - b - kf - 1] == t[j - b]);
                    assert(t[j - b] == s@[j as int]);
                    assert(is_digit_char(s@[j as int]));
                }
            }
        }
    }
    false
}

impl Value {
    /// Decodes and validates a value string against a datatype: succeeds
    /// exactly when the string is the canonical form of a valid value of
    /// that datatype, and returns that value.
    pub fn new(value: &str, datatype: &DataType) -> (r: AtomicResult<Value>)
        ensures
            match r {
                Ok(v) => value_valid(v@) && value_dt(v@) == *datatype,
                Err(e) => e.kind == ErrorKind::SchemaViolation,
            },
            r matches Ok(v) ==> (*datatype == DataType::Integer ==> v@ == ValueV::Integer(
                int_lit_value(value@),
            )),
            r matches Ok(v) ==> (*datatype == DataType::Timestamp ==> v@ == ValueV::Timestamp(
                int_lit_value(value@),
            )),
            r matches Ok(v) ==> (*datatype != DataType::Integer && *datatype != DataType::Timestamp
                ==> value_string(v@) == value@),
            r is Ok <==> value_admissible(value@, *datatype),
    {
        let sv = String::from_str(value);
        match datatype {
            DataType::Str => {
                let v = Value::Str(sv);
                assert(value_valid(v@) && value_dt(v@) == DataType::Str && value_string(v@)
                    == value@);
                Ok(v)
            },
            DataType::Markdown => {
                let v = Value::Markdown(sv);
                assert(value_valid(v@) && value_dt(v@) == DataType::Markdown && value_string(v@)
                    == value@);
                Ok(v)
            },
            DataType::Slug => {
                if is_slug_str(&sv) {
                    let v = Value::Slug(sv);
                    assert(value_valid(v@) && value_dt(v@) == DataType::Slug && value_string(v@)
                        == value@);
                    Ok(v)
                } else {
                    proof {
                        assert forall|w: ValueV|
                            !(value_valid(w) && value_dt(w) == DataType::Slug && value_string(w)
                                == value@) by {
                            if value_dt(w) == DataType::Slug {
                                assert(w matches ValueV::Slug(_));
                            }
                        }
                    }
                    Err(AtomicError::new(ErrorKind::SchemaViolation, "not a slug"))
                }
            },
            DataType::Integer => {
                match parse_i64_lenient(&sv) {
                    Some(n) => Ok(Value::Integer(n)),
                    None => Err(AtomicError::new(ErrorKind::SchemaViolation, "not an integer")),
                }
            },
            DataType::Float => {
                if is_float_str(&sv) {
                    let v = Value::Float(sv);
                    assert(value_valid(v@) && value_dt(v@) == DataType::Float && value_string(v@)
                        == value@);
                    Ok(v)
                } else {
                    proof {
                        assert forall|w: ValueV|
                            !(value_valid(w) && value_dt(w) == DataType::Float && value_string(w)
                                == value@) by {
                            if value_dt(w) == DataType::Float {
                                assert(w matches ValueV::Float(_));
                            }
                        }
                    }
                    Err(AtomicError::new(ErrorKind::SchemaViolation, "not a decimal literal"))
                }
            },
            DataType::Boolean => {
                let t = String::from_str("true");
                let f = String::from_str("false");
                if str_eq(&sv, &t) {
                    let v = Value::Boolean(true);
                    assert(value_valid(v@) && value_dt(v@) == DataType::Boolean && value_string(
                        v@,
                    ) == value@);
                    Ok(v)
                } else if str_eq(&sv, &f) {
                    let v = Value::Boolean(false);
                    assert(value_valid(v@) && value_dt(v@) == DataType::Boolean && value_string(
                        v@,
                    ) == value@);
                    Ok(v)
                } else {
                    proof {
                        assert forall|w: ValueV|
                            !(value_valid(w) && value_dt(w) == DataType::Boolean && value_string(
                                w,
                            ) == value@) by {
                            if value_dt(w) == DataType::Boolean {
                                assert(w matches ValueV::Boolean(_));
                            }
                        }
                    }
                    Err(AtomicError::new(ErrorKind::SchemaViolation, "not a boolean"))
                }
            },
            DataType::Date => {
                if is_date_str(&sv) {
                    let v = Value::Date(sv);
                    assert(value_valid(v@) && value_dt(v@) == DataType::Date && value_string(v@)
                        == value@);
                    Ok(v)
                } else {
                    proof {
                        assert forall|w: ValueV|
                            !(value_valid(w) && value_dt(w) == DataType::Date && value_string(w)
                                == value@) by {
                            if value_dt(w) == DataType::Date {
                                assert(w matches ValueV::Date(_));
                            }
                        }
                    }
                    Err(AtomicError::new(ErrorKind::SchemaViolation, "not a date"))
                }
            },
            DataType::Timestamp => {
                match parse_i64_lenient(&sv) {
                    Some(n) => {
                        if n >= 0 {
                            Ok(Value::Timestamp(n))
                        } else {
                            Err(
                                AtomicError::new(
                                    ErrorKind::SchemaViolation,
                                    "negative timestamp",
                                ),
                            )
                        }
                    },
                    None => Err(AtomicError::new(ErrorKind::SchemaViolation, "not a timestamp")),
                }
            },
            DataType::AtomicUrl => {
                if sv.as_str().unicode_len() > 0 {
                    let v = Value::AtomicUrl(sv);
                    assert(value_valid(v@) && value_dt(v@) == DataType::AtomicUrl && value_string(
                        v@,
                    ) == value@);
                    Ok(v)
                } else {
                    proof {
                        assert forall|w: ValueV|
                            !(value_valid(w) && value_dt(w) == DataType::AtomicUrl
                                && value_string(w) == value@) by {
                            if value_dt(w) == DataType::AtomicUrl {
                                assert(w matches ValueV::AtomicUrl(_));
                            }
                        }
                    }
                    Err(AtomicError::new(ErrorKind::SchemaViolation, "empty URL"))
                }
            },
            DataType::NestedResource => {
                if sv.as_str().unicode_len() > 0 {
                    let v = Value::NestedResource(sv);
                    assert(value_valid(v@) && value_dt(v@) == DataType::NestedResource
                        && value_string(v@) == value@);
                    Ok(v)
                } else {
                    proof {
                        assert forall|w: ValueV|
                            !(value_valid(w) && value_dt(w) == DataType::NestedResource
                                && value_string(w) == value@) by {
                            if value_dt(w) == DataType::NestedResource {
                                assert(w matches ValueV::NestedResource(_));
                            }
                        }
                    }
                    Err(AtomicError::new(ErrorKind::SchemaViolation, "empty subject"))
                }
            },
            DataType::ResourceArray => {
                match parse_str_list(&sv) {
                    Some(xs) => {
                        let mut idx: usize = 0;
                        while idx < xs.len()
                            invariant
                                idx <= xs.len(),
                                sv@ == value@,
                                *datatype == DataType::ResourceArray,
                                sv@ == arr_enc(xs.deep_view()),
                                forall|j: int|
                                    0 <= j < idx ==> #[trigger] xs.deep_view()[j].len() >= 1,
                            decreases xs.len() - idx,
                        {
                            if xs[idx].as_str().unicode_len() == 0 {
                                proof {
                                    assert(xs.deep_view()[idx as int] == xs@[idx as int]@);
                                    assert(xs.deep_view()[idx as int].len() == 0);
                                    assert forall|w: ValueV|
                                        !(value_valid(w) && value_dt(w) == DataType::ResourceArray
                                            && value_string(w) == value@) by {
                                        if value_valid(w) && value_dt(w)
                                            == DataType::ResourceArray {
                                            let arr = w->ResourceArray_0;
                                            if value_string(w) == value@ {
                                                lemma_arr_enc_injective(arr, xs.deep_view());
                                                assert(arr[idx as int].len() >= 1);
                                            }
                                        }
                                    }
                                }
                                return Err(
                                    AtomicError::new(ErrorKind::SchemaViolation, "empty member"),
                                );
                            }
                            idx = idx + 1;
                        }
                        let v = Value::ResourceArray(xs);
                        assert(value_valid(v@) && value_dt(v@) == DataType::ResourceArray
                            && value_string(v@) == value@);
                        Ok(v)
                    },
                    None => {
                        proof {
                            assert forall|w: ValueV|
                                !(value_valid(w) && value_dt(w) == DataType::ResourceArray
                                    && value_string(w) == value@) by {
                                if value_dt(w) == DataType::ResourceArray {
                                    assert(w matches ValueV::ResourceArray(_));
                                }
                            }
                        }
                        Err(AtomicError::new(ErrorKind::SchemaViolation, "not a member list"))
                    },
                }
            },
        }
    }

    /// The canonical string form of the value.
    pub fn to_string(&self) -> (r: String)
        ensures
            r@ == value_string(self@),
    {
        match self {
            Value::Str(s) => s.clone(),
            Value::Markdown(s) => s.clone(),
            Value::Slug(s) => s.clone(),
            Value::Integer(i) => i64_to_string(*i),
            Value::Float(s) => s.clone(),
            Value::Boolean(b) => if *b {
                String::from_str("true")
            } else {
                String::from_str("false")
            },
            Value::Date(s) => s.clone(),
            Value::Timestamp(t) => i64_to_string(*t),
            Value::AtomicUrl(s) => s.clone(),
            Value::ResourceArray(a) => {
                let mut out = String::new();
                let mut i: usize = 0;
                proof {
                    assert(a.deep_view().take(0) =~= Seq::<Seq<char>>::empty());
                    assert(out@ =~= arr_enc(a.deep_view().take(0)));
                }
                while i < a.len()
                    invariant
                        i <= a.len(),
                        out@ == arr_enc(a.deep_view().take(i as int)),
                    decreases a.len() - i,
                {
                    encode_net(&mut out, &a[i]);
                    proof {
                        lemma_arr_enc_snoc(a.deep_view().take(i as int), a.deep_view()[i as int]);
                        assert(a.deep_view().take(i + 1) =~= a.deep_view().take(i as int).push(
                            a.deep_view()[i as int],
                        ));
                    }
                    i = i + 1;
                }
                proof {
                    assert(a.deep_view().take(a.len() as int) =~= a.deep_view());
                }
                out
            },
            Value::NestedResource(s) => s.clone(),
        }
    }

    /// The datatype tag of the value.
    pub fn datatype(&self) -> (r: DataType)
        ensures
            r == value_dt(self@),
    {
        match self {
            Value::Str(_) => DataType::Str,
            Value::Markdown(_) => DataType::Markdown,
            Value::Slug(_) => DataType::Slug,
            Value::Integer(_) => DataType::Integer,
            Value::Float(_) => DataType::Float,
            Value::Boolean(_) => DataType::Boolean,
            Value::Date(_) => DataType::Date,
            Value::Timestamp(_) => DataType::Timestamp,
            Value::AtomicUrl(_) => DataType::AtomicUrl,
            Value::ResourceArray(_) => DataType::ResourceArray,
            Value::NestedResource(_) => DataType::NestedResource,
        }
    }

    /// The numeric reading of the value, for integers and timestamps.
    pub fn to_int(&self) -> (r: AtomicResult<i64>)
        ensures
            match r {
                Ok(i) => self@ == ValueV::Integer(i as int) || self@ == ValueV::Timestamp(
                    i as int,
                ),
                Err(e) => e.kind == ErrorKind::ParseError && !(self@ matches ValueV::Integer(_))
                    && !(self@ matches ValueV::Timestamp(_)),
            },
    {
        match self {
            Value::Integer(i) => Ok(*i),
            Value::Timestamp(t) => Ok(*t),
            _ => Err(AtomicError::new(ErrorKind::ParseError, "not an integer value")),
        }
    }

    /// The boolean reading of the value.
    pub fn to_bool(&self) -> (r: AtomicResult<bool>)
        ensures
            match r {
                Ok(b) => self@ == ValueV::Boolean(b),
                Err(e) => e.kind == ErrorKind::ParseError && !(self@ matches ValueV::Boolean(_)),
            },
    {
        match self {
            Value::Boolean(b) => Ok(*b),
            _ => Err(AtomicError::new(ErrorKind::ParseError, "not a boolean value")),
        }
    }

    /// A copy with the same shape.
    pub fn duplicate(&self) -> (r: Value)
        ensures
            r@ == self@,
    {
        match self {
            Value::Str(s) => Value::Str(s.clone()),
            Value::Markdown(s) => Value::Markdown(s.clone()),
            Value::Slug(s) => Value::Slug(s.clone()),
            Value::Integer(i) => Value::Integer(*i),
            Value::Float(s) => Value::Float(s.clone()),
            Value::Boolean(b) => Value::Boolean(*b),
            Value::Date(s) => Value::Date(s.clone()),
            Value::Timestamp(t) => Value::Timestamp(*t),
            Value::AtomicUrl(s) => Value::AtomicUrl(s.clone()),
            Value::ResourceArray(a) => {
                let mut out: Vec<String> = Vec::new();
                let mut i: usize = 0;
                proof {
                    assert(out.deep_view() =~= a.deep_view().take(0));
                }
                while i < a.len()
                    invariant
                        i <= a.len(),
                        out.deep_view() == a.deep_view().take(i as int),
                        out.len() == i,
                    decreases a.len() - i,
                {
                    out.push(a[i].clone());
                    proof {
                        assert(out.deep_view() =~= a.deep_view().take(i + 1));
                    }
                    i = i + 1;
                }
                proof {
                    assert(a.deep_view().take(a.len() as int) =~= a.deep_view());
                }
                Value::ResourceArray(out)
            },
            Value::NestedResource(s) => Value::NestedResource(s.clone()),
        }
    }

    /// Whether the payload satisfies its datatype.
    pub fn is_well_formed(&self) -> (r: bool)
        ensures
            r == value_valid(self@),
    {
        match self {
            Value::Str(_) => true,
            Value::Markdown(_) => true,
            Value::Slug(s) => is_slug_str(s),
            Value::Integer(_) => true,
            Value::Float(s) => is_float_str(s),
            Value::Boolean(_) => true,
            Value::Date(s) => is_date_str(s),
            Value::Timestamp(t) => *t >= 0,
            Value::AtomicUrl(s) => s.as_str().unicode_len() > 0,
            Value::ResourceArray(a) => {
                let mut i: usize = 0;
                while i < a.len()
                    invariant
                        i <= a.len(),
                        self@ == ValueV::ResourceArray(a.deep_view()),
                        forall|j: int| 0 <= j < i ==> #[trigger] a.deep_view()[j].len() >= 1,
                    decreases a.len() - i,
                {
                    if a[i].as_str().unicode_len() == 0 {
                        proof {
                            let deep = a.deep_view();
                            assert(deep[i as int] == a@[i as int]@);
                            assert(deep[i as int].len() == 0);
                            assert(i < deep.len());
                            assert(!(deep[i as int].len() >= 1));
                            assert(!value_valid(ValueV::ResourceArray(deep))) by {
                                if value_valid(ValueV::ResourceArray(deep)) {
                                    assert(deep[i as int].len() >= 1);
                                }
                            }
                        }
                        return false;
                    }
                    i = i + 1;
                }
                true
            },
            Value::NestedResource(s) => s.as_str().unicode_len() > 0,
        }
    }
}

} // verus!
