//! Text utilities: lexicographic order on character sequences, decimal
//! rendering and parsing, and length-prefixed record encoding. These are the
//! ground layer for canonical commit serialization and for sorted queries.

use vstd::prelude::*;

verus! {

/// Strict lexicographic order on character sequences, by code point.
pub open spec fn lex_lt(a: Seq<char>, b: Seq<char>) -> bool
    decreases a.len(),
{
    if b.len() == 0 {
        false
    } else if a.len() == 0 {
        true
    } else if a[0] != b[0] {
        (a[0] as int) < (b[0] as int)
    } else {
        lex_lt(a.skip(1), b.skip(1))
    }
}

/// Non-strict lexicographic order.
pub open spec fn lex_le(a: Seq<char>, b: Seq<char>) -> bool {
    lex_lt(a, b) || a == b
}

/// If two sequences agree on their first `i` characters, the order is decided
/// by what follows.
pub proof fn lemma_lex_lt_skip(a: Seq<char>, b: Seq<char>, i: int)
    requires
        0 <= i <= a.len(),
        0 <= i <= b.len(),
        forall|j: int| 0 <= j < i ==> a[j] == b[j],
    ensures
        lex_lt(a, b) == lex_lt(a.skip(i), b.skip(i)),
    decreases i,
{
    if i > 0 {
        assert(a.len() > 0 && b.len() > 0);
        assert(a[0] == b[0]);
        assert forall|j: int| 0 <= j < i - 1 implies a.skip(1)[j] == b.skip(1)[j] by {
            assert(a.skip(1)[j] == a[j + 1]);
            assert(b.skip(1)[j] == b[j + 1]);
        }
        lemma_lex_lt_skip(a.skip(1), b.skip(1), i - 1);
        assert(a.skip(1).skip(i - 1) =~= a.skip(i));
        assert(b.skip(1).skip(i - 1) =~= b.skip(i));
        assert(lex_lt(a, b) == lex_lt(a.skip(1), b.skip(1)));
    } else {
        assert(a.skip(0) =~= a);
        assert(b.skip(0) =~= b);
    }
}

/// Lexicographic order is total: two unordered sequences are equal.
pub proof fn lemma_lex_total(a: Seq<char>, b: Seq<char>)
    requires
        !lex_lt(a, b),
        !lex_lt(b, a),
    ensures
        a == b,
    decreases a.len(),
{
    if a.len() == 0 {
        assert(b.len() == 0);
        assert(a =~= b);
    } else {
        assert(b.len() > 0);
        assert(a[0] == b[0]);
        lemma_lex_total(a.skip(1), b.skip(1));
        assert(a =~= seq![a[0]] + a.skip(1));
        assert(b =~= seq![b[0]] + b.skip(1));
    }
}

/// Lexicographic order is transitive.
pub proof fn lemma_lex_trans(a: Seq<char>, b: Seq<char>, c: Seq<char>)
    requires
        lex_lt(a, b),
        lex_lt(b, c),
    ensures
        lex_lt(a, c),
    decreases a.len(),
{
    if a.len() == 0 {
        assert(b.len() > 0);
        assert(c.len() > 0);
    } else {
        assert(b.len() > 0 && c.len() > 0);
        if a[0] == b[0] && b[0] == c[0] {
            lemma_lex_trans(a.skip(1), b.skip(1), c.skip(1));
        }
    }
}

/// Lexicographic order is irreflexive.
pub proof fn lemma_lex_irrefl(a: Seq<char>)
    ensures
        !lex_lt(a, a),
    decreases a.len(),
{
    if a.len() > 0 {
        lemma_lex_irrefl(a.skip(1));
    }
}

/// Relies on `String::push`: appends one character at the end.
#[verifier::external_body]
pub(crate) fn push_char(s: &mut String, c: char)
    ensures
        final(s)@ == old(s)@.push(c),
{
    s.push(c);
}

/// Three-way comparison of two strings in lexicographic code-point order:
/// `-1` for below, `0` for equal, `1` for above.
pub fn str_compare(a: &String, b: &String) -> (r: i8)
    ensures
        r == -1i8 ==> lex_lt(a@, b@),
        r == 0i8 ==> a@ == b@,
        r == 1i8 ==> lex_lt(b@, a@),
        r == -1i8 || r == 0i8 || r == 1i8,
{
    let la = a.as_str().unicode_len();
    let lb = b.as_str().unicode_len();
    let mut i: usize = 0;
    loop
        invariant
            i <= la,
            i <= lb,
            la == a@.len(),
            lb == b@.len(),
            forall|j: int| 0 <= j < i ==> a@[j] == b@[j],
        decreases la - i,
    {
        if i == la || i == lb {
            proof {
                lemma_lex_lt_skip(a@, b@, i as int);
                lemma_lex_lt_skip(b@, a@, i as int);
            }
            if la == lb {
                proof {
                    assert(a@ =~= b@);
                }
                return 0;
            } else if la < lb {
                assert(i == la);
                assert(a@.skip(i as int).len() == 0);
                assert(b@.skip(i as int).len() > 0);
                return -1;
            } else {
                return 1;
            }
        }
        let ca = a.as_str().get_char(i);
        let cb = b.as_str().get_char(i);
        if ca != cb {
            proof {
                lemma_lex_lt_skip(a@, b@, i as int);
                lemma_lex_lt_skip(b@, a@, i as int);
                assert(a@.skip(i as int)[0] == a@[i as int]);
                assert(b@.skip(i as int)[0] == b@[i as int]);
            }
            if (ca as u32) < (cb as u32) {
                return -1;
            } else {
                return 1;
            }
        }
        i = i + 1;
    }
}

/// Order is asymmetric: at most one of `a < b`, `b < a` holds.
pub proof fn lemma_lex_asym(a: Seq<char>, b: Seq<char>)
    requires
        lex_lt(a, b),
    ensures
        !lex_lt(b, a),
{
    if lex_lt(b, a) {
        lemma_lex_trans(a, b, a);
        lemma_lex_irrefl(a);
    }
}

/// Whether `a` is strictly below `b` in lexicographic order.
pub fn str_lt(a: &String, b: &String) -> (r: bool)
    ensures
        r == lex_lt(a@, b@),
{
    let c = str_compare(a, b);
    proof {
        if c == 0i8 {
            lemma_lex_irrefl(a@);
        }
        if c == 1i8 {
            lemma_lex_asym(b@, a@);
        }
    }
    c == -1
}

/// Whether the two strings hold the same characters.
pub fn str_eq(a: &String, b: &String) -> (r: bool)
    ensures
        r == (a@ == b@),
{
    let c = str_compare(a, b);
    proof {
        if c == -1i8 || c == 1i8 {
            if a@ == b@ {
                lemma_lex_irrefl(a@);
            }
        }
    }
    c == 0
}

/// The character for one decimal digit.
pub open spec fn digit_char(d: int) -> char {
    (48 + d) as char
}

/// Whether `c` is a decimal digit.
pub open spec fn is_digit_char(c: char) -> bool {
    48 <= c as int <= 57
}

/// The numeric value of a digit character.
pub open spec fn digit_val(c: char) -> int {
    c as int - 48
}

/// The canonical decimal rendering of a natural number.
pub open spec fn dec_digits(n: nat) -> Seq<char>
    decreases n,
{
    if n < 10 {
        seq![digit_char(n as int)]
    } else {
        dec_digits(n / 10).push(digit_char((n % 10) as int))
    }
}

/// The number denoted by a sequence of digit characters.
pub open spec fn dec_value(s: Seq<char>) -> int
    decreases s.len(),
{
    if s.len() == 0 {
        0
    } else {
        dec_value(s.drop_last()) * 10 + digit_val(s.last())
    }
}

/// Whether every character of `s` is a decimal digit.
pub open spec fn all_digits(s: Seq<char>) -> bool {
    forall|i: int| 0 <= i < s.len() ==> is_digit_char(s[i])
}

/// The canonical rendering consists of digits, is non-empty, denotes the
/// number it was made from, and has no leading zero.
pub proof fn lemma_dec_digits(n: nat)
    ensures
        all_digits(dec_digits(n)),
        dec_digits(n).len() >= 1,
        dec_value(dec_digits(n)) == n,
        n > 0 ==> digit_val(dec_digits(n)[0]) >= 1,
        n < 10 ==> dec_digits(n).len() == 1,
    decreases n,
{
    if n < 10 {
        let c = digit_char(n as int);
        assert(c as int == 48 + n);
        assert(seq![c].last() == c);
        assert(seq![c].drop_last() =~= Seq::<char>::empty());
        assert(dec_value(Seq::<char>::empty()) == 0);
        assert(dec_value(seq![c]) == digit_val(c));
    } else {
        lemma_dec_digits(n / 10);
        let d = dec_digits(n / 10);
        let c = digit_char((n % 10) as int);
        assert(c as int == 48 + (n % 10));
        assert(d.push(c).drop_last() =~= d);
        assert(d.push(c).last() == c);
        assert(dec_value(d.push(c)) == dec_value(d) * 10 + (n % 10));
        assert(dec_value(d) == n / 10);
        assert((n / 10) * 10 + (n % 10) == n) by (nonlinear_arith);
        assert forall|i: int| 0 <= i < d.push(c).len() implies is_digit_char(d.push(c)[i]) by {
            if i < d.len() {
                assert(d.push(c)[i] == d[i]);
            }
        }
        assert(d.push(c)[0] == d[0]);
    }
}

/// A non-empty digit sequence with a leading digit of at least one denotes at
/// least one.
pub proof fn lemma_dec_value_pos(s: Seq<char>)
    requires
        all_digits(s),
        s.len() >= 1,
        digit_val(s[0]) >= 1,
    ensures
        dec_value(s) >= 1,
    decreases s.len(),
{
    lemma_dec_value_nonneg(s.drop_last());
    if s.len() > 1 {
        assert(s.drop_last()[0] == s[0]);
        lemma_dec_value_pos(s.drop_last());
    }
}

/// A digit sequence denotes a non-negative number.
pub proof fn lemma_dec_value_nonneg(s: Seq<char>)
    requires
        all_digits(s),
    ensures
        dec_value(s) >= 0,
    decreases s.len(),
{
    if s.len() > 0 {
        lemma_dec_value_nonneg(s.drop_last());
    }
}

/// A digit sequence without a leading zero is the canonical rendering of the
/// number it denotes.
pub proof fn lemma_dec_canonical(s: Seq<char>)
    requires
        all_digits(s),
        s.len() >= 1,
        digit_val(s[0]) == 0 ==> s.len() == 1,
    ensures
        s == dec_digits(dec_value(s) as nat),
    decreases s.len(),
{
    lemma_dec_value_nonneg(s);
    let n = dec_value(s) as nat;
    if s.len() == 1 {
        assert(s.drop_last() =~= Seq::<char>::empty());
        assert(dec_value(Seq::<char>::empty()) == 0);
        assert(s.last() == s[0]);
        assert(n == digit_val(s[0]));
        assert(s =~= dec_digits(n));
    } else {
        let t = s.drop_last();
        assert(t[0] == s[0]);
        assert(digit_val(s[0]) >= 1);
        lemma_dec_value_pos(t);
        let d = digit_val(s.last());
        assert(n == dec_value(t) * 10 + d);
        assert(dec_value(t) >= 1);
        assert(n / 10 == dec_value(t) && n % 10 == d) by (nonlinear_arith)
            requires
                n == dec_value(t) * 10 + d,
                0 <= d < 10,
                dec_value(t) >= 1,
        ;
        assert(n >= 10) by (nonlinear_arith)
            requires
                n == dec_value(t) * 10 + d,
                dec_value(t) >= 1,
                d >= 0,
        ;
        lemma_dec_canonical(t);
        assert(s =~= dec_digits((n / 10) as nat).push(digit_char((n % 10) as int)));
    }
}

/// Among digit characters, a prefix denotes no more than the whole.
pub proof fn lemma_dec_value_grows(s: Seq<char>, i: int, j: int)
    requires
        0 <= i <= j <= s.len(),
        forall|k: int| 0 <= k < s.len() ==> is_digit_char(s[k]),
    ensures
        dec_value(s.subrange(0, i)) <= dec_value(s.subrange(0, j)),
    decreases j - i,
{
    if i < j {
        let t = s.subrange(0, j);
        assert(t.drop_last() =~= s.subrange(0, j - 1));
        assert(all_digits(s.subrange(0, j - 1)));
        lemma_dec_value_nonneg(s.subrange(0, j - 1));
        assert(dec_value(t) == dec_value(s.subrange(0, j - 1)) * 10 + digit_val(t.last()));
        assert(dec_value(s.subrange(0, j - 1)) * 10 >= dec_value(s.subrange(0, j - 1)))
            by (nonlinear_arith)
            requires
                dec_value(s.subrange(0, j - 1)) >= 0,
        ;
        assert(is_digit_char(s[j - 1]));
        lemma_dec_value_grows(s, i, j - 1);
    }
}

/// Renders a number in canonical decimal form, appending to `out`.
pub fn append_u64(out: &mut String, n: u64)
    ensures
        final(out)@ == old(out)@ + dec_digits(n as nat),
    decreases n,
{
    proof {
        lemma_dec_digits(n as nat);
    }
    if n < 10 {
        let c = (48u8 + (n as u8)) as char;
        assert(c == digit_char(n as int));
        push_char(out, c);
        assert(final(out)@ =~= old(out)@ + dec_digits(n as nat));
    } else {
        append_u64(out, n / 10);
        let c = (48u8 + ((n % 10) as u8)) as char;
        assert(c == digit_char((n % 10) as int));
        push_char(out, c);
        assert(final(out)@ =~= old(out)@ + dec_digits(n as nat));
    }
}

/// The canonical decimal string of a number.
pub fn u64_to_string(n: u64) -> (s: String)
    ensures
        s@ == dec_digits(n as nat),
{
    let mut s = String::new();
    append_u64(&mut s, n);
    proof {
        assert(s@ =~= dec_digits(n as nat));
    }
    s
}

/// The canonical decimal rendering of a signed number: a minus sign for
/// negatives, then the digits of the magnitude.
pub open spec fn int_digits(n: int) -> Seq<char> {
    if n < 0 {
        seq!['-'] + dec_digits((-n) as nat)
    } else {
        dec_digits(n as nat)
    }
}

/// The canonical decimal string of a signed number.
pub fn i64_to_string(n: i64) -> (s: String)
    ensures
        s@ == int_digits(n as int),
{
    if n >= 0 {
        u64_to_string(n as u64)
    } else {
        let mag: u64 = ((-(n + 1)) as u64) + 1;
        assert(mag == -(n as int));
        let mut s = String::new();
        let ghost empty: Seq<char> = s@;
        push_char(&mut s, '-');
        proof {
            assert(empty.push('-') =~= seq!['-']);
        }
        append_u64(&mut s, mag);
        proof {
            assert(s@ =~= int_digits(n as int));
        }
        s
    }
}

/// The position just past the run of digit characters beginning at `pos`.
pub open spec fn run_end(s: Seq<char>, pos: int) -> int
    decreases s.len() - pos,
    when 0 <= pos <= s.len()
{
    if pos < s.len() && is_digit_char(s[pos]) {
        run_end(s, pos + 1)
    } else {
        pos
    }
}

/// Bounds and content of the digit run.
pub proof fn lemma_run_end(s: Seq<char>, pos: int)
    requires
        0 <= pos <= s.len(),
    ensures
        pos <= run_end(s, pos) <= s.len(),
        forall|k: int| pos <= k < run_end(s, pos) ==> is_digit_char(s[k]),
        run_end(s, pos) == s.len() || !is_digit_char(s[run_end(s, pos)]),
    decreases s.len() - pos,
{
    if pos < s.len() && is_digit_char(s[pos]) {
        lemma_run_end(s, pos + 1);
    }
}

/// A region of digits bounded by a non-digit (or the end) is the digit run.
pub proof fn lemma_run_end_exact(s: Seq<char>, pos: int, end: int)
    requires
        0 <= pos <= end <= s.len(),
        forall|k: int| pos <= k < end ==> is_digit_char(s[k]),
        end == s.len() || !is_digit_char(s[end]),
    ensures
        run_end(s, pos) == end,
    decreases end - pos,
{
    if pos < end {
        lemma_run_end_exact(s, pos + 1, end);
    }
}

/// Whether a canonical, machine-representable digit run begins at `pos`.
pub open spec fn scan_ok(s: Seq<char>, pos: int) -> bool {
    &&& run_end(s, pos) > pos
    &&& (digit_val(s[pos]) == 0 ==> run_end(s, pos) == pos + 1)
    &&& dec_value(s.subrange(pos, run_end(s, pos))) <= u64::MAX
}

/// Reads the digit run beginning at `pos`: its value and its end position.
/// Rejects an empty run, a leading zero before further digits, and a value
/// above `u64::MAX`.
pub fn scan_dec(s: &String, pos: usize) -> (r: Option<(u64, usize)>)
    requires
        pos <= s@.len(),
    ensures
        r is Some <==> scan_ok(s@, pos as int),
        match r {
            Some(p) => {
                &&& p.1 == run_end(s@, pos as int)
                &&& p.0 == dec_value(s@.subrange(pos as int, run_end(s@, pos as int)))
                &&& pos < p.1 <= s@.len()
                &&& s@.subrange(pos as int, p.1 as int) == dec_digits(p.0 as nat)
            },
            None => true,
        },
{
    proof {
        lemma_run_end(s@, pos as int);
    }
    let ghost re = run_end(s@, pos as int);
    let slen = s.as_str().unicode_len();
    if pos == slen {
        return None;
    }
    let c0 = s.as_str().get_char(pos);
    if !(48 <= c0 as u32 && c0 as u32 <= 57) {
        return None;
    }
    let mut i: usize = pos + 1;
    let mut acc: u64 = (c0 as u32 as u64) - 48;
    assert(acc == digit_val(c0));
    if acc == 0 {
        // a leading zero stands alone
        let single_end = if i < slen {
            let c1 = s.as_str().get_char(i);
            !(48 <= c1 as u32 && c1 as u32 <= 57)
        } else {
            true
        };
        if !single_end {
            assert(run_end(s@, pos as int) == run_end(s@, pos + 1));
            assert(run_end(s@, pos + 1) > pos + 1) by {
                lemma_run_end(s@, pos + 1);
                assert(is_digit_char(s@[pos + 1]));
            }
            return None;
        }
        proof {
            lemma_run_end_exact(s@, pos as int, pos + 1);
            let region = s@.subrange(pos as int, pos + 1);
            assert(region =~= seq![c0]);
            assert(region.drop_last() =~= Seq::<char>::empty());
            assert(dec_value(Seq::<char>::empty()) == 0);
            assert(region.last() == c0);
            assert(dec_value(region) == 0);
            lemma_dec_canonical(region);
        }
        return Some((0, i));
    }
    proof {
        let region = s@.subrange(pos as int, pos + 1);
        assert(region =~= seq![c0]);
        assert(region.drop_last() =~= Seq::<char>::empty());
        assert(dec_value(Seq::<char>::empty()) == 0);
        assert(region.last() == c0);
        assert(dec_value(region) == digit_val(c0));
    }
    loop
        invariant
            pos < i <= re,
            re <= s@.len() == slen,
            acc == dec_value(s@.subrange(pos as int, i as int)),
            acc >= 1,
            scan_ok(s@, pos as int) ==> re == run_end(s@, pos as int),
            re == run_end(s@, pos as int),
            forall|k: int| pos <= k < re ==> is_digit_char(s@[k]),
            re == s@.len() || !is_digit_char(s@[re]),
            digit_val(s@[pos as int]) >= 1,
        decreases re - i,
    {
        let at_end = if i == slen {
            true
        } else {
            let c = s.as_str().get_char(i);
            !(48 <= c as u32 && c as u32 <= 57)
        };
        if at_end {
            proof {
                lemma_run_end_exact(s@, pos as int, i as int);
                let region = s@.subrange(pos as int, i as int);
                assert(region[0] == s@[pos as int]);
                lemma_dec_canonical(region);
            }
            return Some((acc, i));
        }
        let c = s.as_str().get_char(i);
        let d: u64 = (c as u32 as u64) - 48;
        assert(d == digit_val(c) && d < 10);
        if acc > (u64::MAX - d) / 10 {
            proof {
                let t = s@.subrange(pos as int, re as int);
                assert(acc * 10 + d > u64::MAX) by (nonlinear_arith)
                    requires
                        acc > (u64::MAX - d) / 10,
                        0 <= d < 10,
                ;
                let next = s@.subrange(pos as int, i + 1);
                assert(next.drop_last() =~= s@.subrange(pos as int, i as int));
                assert(next.last() == s@[i as int]);
                assert(dec_value(next) == acc * 10 + d);
                assert(forall|k: int| 0 <= k < t.len() ==> is_digit_char(t[k]));
                lemma_dec_value_grows(t, i + 1 - pos, re - pos);
                assert(t.subrange(0, i + 1 - pos) =~= next);
                assert(t.subrange(0, re - pos) =~= t);
                assert(dec_value(t) > u64::MAX);
            }
            return None;
        }
        proof {
            assert(acc * 10 + d <= u64::MAX) by (nonlinear_arith)
                requires
                    acc <= (u64::MAX - d) / 10,
                    0 <= d < 10,
            ;
            let next = s@.subrange(pos as int, i + 1);
            assert(next.drop_last() =~= s@.subrange(pos as int, i as int));
            assert(next.last() == s@[i as int]);
        }
        acc = acc * 10 + d;
        i = i + 1;
    }
}

/// The length-prefixed encoding of one field: the decimal character count,
/// a colon, the characters, a semicolon.
pub open spec fn net_enc(x: Seq<char>) -> Seq<char> {
    dec_digits(x.len()) + seq![':'] + x + seq![';']
}

/// Appends the length-prefixed encoding of `x` to `out`.
pub fn encode_net(out: &mut String, x: &String)
    ensures
        final(out)@ == old(out)@ + net_enc(x@),
{
    let l = x.as_str().unicode_len();
    append_u64(out, l as u64);
    push_char(out, ':');
    out.append(x.as_str());
    push_char(out, ';');
    proof {
        assert(final(out)@ =~= old(out)@ + net_enc(x@));
    }
}

/// Reads one length-prefixed field beginning at `pos`. Returns the field and
/// the position just past it; succeeds exactly on a well-formed encoding.
pub fn parse_net(s: &String, pos: usize) -> (r: Option<(String, usize)>)
    requires
        pos <= s@.len(),
    ensures
        match r {
            Some(p) => {
                &&& pos < p.1 <= s@.len()
                &&& p.1 == pos + net_enc(p.0@).len()
                &&& s@.subrange(pos as int, p.1 as int) == net_enc(p.0@)
            },
            None => true,
        },
        forall|x: Seq<char>|
            pos + net_enc(x).len() <= s@.len() && s@.subrange(
                pos as int,
                pos + net_enc(x).len(),
            ) == net_enc(x) ==> (r matches Some(p) && p.0@ == x && p.1 == pos + net_enc(x).len()),
{
    let slen = s.as_str().unicode_len();
    proof {
        assert forall|x: Seq<char>|
            pos + net_enc(x).len() <= s@.len() && s@.subrange(pos as int, pos + net_enc(x).len())
                == net_enc(x) implies scan_ok(s@, pos as int) && dec_value(
            s@.subrange(pos as int, run_end(s@, pos as int)),
        ) == x.len() && run_end(s@, pos as int) == pos + dec_digits(x.len()).len() by {
            assert(x.len() <= s@.len());
            lemma_net_region(s@, pos as int, x);
        }
    }
    let scanned = scan_dec(s, pos);
    match scanned {
        None => None,
        Some((len_v, dpos)) => {
            if dpos == slen {
                proof {
                    assert forall|x: Seq<char>|
                        pos + net_enc(x).len() <= s@.len() && s@.subrange(
                            pos as int,
                            pos + net_enc(x).len(),
                        ) == net_enc(x) implies false by {
                        assert(x.len() <= s@.len());
                        lemma_net_region(s@, pos as int, x);
                    }
                }
                return None;
            }
            let c = s.as_str().get_char(dpos);
            if c != ':' {
                proof {
                    assert forall|x: Seq<char>|
                        pos + net_enc(x).len() <= s@.len() && s@.subrange(
                            pos as int,
                            pos + net_enc(x).len(),
                        ) == net_enc(x) implies false by {
                        assert(x.len() <= s@.len());
                        lemma_net_region(s@, pos as int, x);
                    }
                }
                return None;
            }
            let remaining = slen - dpos - 1;
            if len_v >= remaining as u64 {
                proof {
                    assert forall|x: Seq<char>|
                        pos + net_enc(x).len() <= s@.len() && s@.subrange(
                            pos as int,
                            pos + net_enc(x).len(),
                        ) == net_enc(x) implies false by {
                        assert(x.len() <= s@.len());
                        lemma_net_region(s@, pos as int, x);
                    }
                }
                return None;
            }
            let xlen = len_v as usize;
            let start = dpos + 1;
            let term = s.as_str().get_char(start + xlen);
            if term != ';' {
                proof {
                    assert forall|x: Seq<char>|
                        pos + net_enc(x).len() <= s@.len() && s@.subrange(
                            pos as int,
                            pos + net_enc(x).len(),
                        ) == net_enc(x) implies false by {
                        assert(x.len() <= s@.len());
                        lemma_net_region(s@, pos as int, x);
                    }
                }
                return None;
            }
            let xs = s.as_str().substring_char(start, start + xlen);
            let x = String::from_str(xs);
            let end = start + xlen + 1;
            proof {
                assert(s@.subrange(pos as int, end as int) =~= net_enc(x@));
                assert forall|y: Seq<char>|
                    pos + net_enc(y).len() <= s@.len() && s@.subrange(
                        pos as int,
                        pos + net_enc(y).len(),
                    ) == net_enc(y) implies x@ == y && end == pos + net_enc(y).len() by {
                    assert(y.len() <= s@.len());
                    lemma_net_region(s@, pos as int, y);
                    assert(y =~= s@.subrange(start as int, (start + xlen) as int));
                }
            }
            Some((x, end))
        },
    }
}

/// What holds of the text when a well-formed length-prefixed field stands at
/// `pos`: the digit run renders the field's length, and the delimiters and
/// the field itself stand at their computed places.
pub proof fn lemma_net_region(s: Seq<char>, pos: int, x: Seq<char>)
    requires
        0 <= pos,
        x.len() <= u64::MAX,
        pos + net_enc(x).len() <= s.len(),
        s.subrange(pos, pos + net_enc(x).len()) == net_enc(x),
    ensures
        scan_ok(s, pos),
        run_end(s, pos) == pos + dec_digits(x.len()).len(),
        dec_value(s.subrange(pos, run_end(s, pos))) == x.len(),
        s[pos + dec_digits(x.len()).len()] == ':',
        s[pos + net_enc(x).len() - 1] == ';',
        x =~= s.subrange(
            pos + dec_digits(x.len()).len() + 1,
            pos + dec_digits(x.len()).len() + 1 + x.len(),
        ),
{
    lemma_net_region_core(s, pos, x);
    assert(dec_value(s.subrange(pos, run_end(s, pos))) <= u64::MAX);
}

/// As `lemma_net_region`, without the machine bound: the digit run, the
/// delimiters and the field stand at their computed places.
pub proof fn lemma_net_region_core(s: Seq<char>, pos: int, x: Seq<char>)
    requires
        0 <= pos,
        pos + net_enc(x).len() <= s.len(),
        s.subrange(pos, pos + net_enc(x).len()) == net_enc(x),
    ensures
        run_end(s, pos) > pos,
        digit_val(s[pos]) == 0 ==> run_end(s, pos) == pos + 1,
        run_end(s, pos) == pos + dec_digits(x.len()).len(),
        dec_value(s.subrange(pos, run_end(s, pos))) == x.len(),
        s[pos + dec_digits(x.len()).len()] == ':',
        s[pos + net_enc(x).len() - 1] == ';',
        x =~= s.subrange(
            pos + dec_digits(x.len()).len() + 1,
            pos + dec_digits(x.len()).len() + 1 + x.len(),
        ),
{
    lemma_dec_digits(x.len());
    let d = dec_digits(x.len());
    let enc = net_enc(x);
    let k = d.len() as int;
    assert(enc.len() == k + 2 + x.len());
    assert forall|i: int| 0 <= i < enc.len() implies s[pos + i] == enc[i] by {
        assert(s.subrange(pos, pos + enc.len())[i] == s[pos + i]);
    }
    assert forall|j: int| pos <= j < pos + k implies is_digit_char(#[trigger] s[j]) by {
        let i = j - pos;
        assert(s[pos + i] == enc[i]);
        assert(enc[i] == d[i]);
    }
    assert(enc[k] == ':');
    assert(s[pos + k] == ':');
    assert(!is_digit_char(':'));
    lemma_run_end_exact(s, pos, pos + k);
    assert(s.subrange(pos, pos + k) =~= d);
    assert(dec_value(d) == x.len());
    assert(s[pos] == d[0]);
    assert(digit_val(d[0]) == 0 ==> x.len() == 0);
    assert(x.len() == 0 ==> k == 1);
    assert(enc[enc.len() - 1] == ';');
    assert forall|i: int| 0 <= i < x.len() implies s[pos + k + 1 + i] == x[i] by {
        assert(enc[k + 1 + i] == x[i]);
    }
}

/// Parses the canonical decimal string of an unsigned number: succeeds
/// exactly on strings of the form `dec_digits(v)`.
pub fn parse_u64_str(s: &String) -> (r: Option<u64>)
    ensures
        match r {
            Some(v) => s@ == dec_digits(v as nat),
            None => forall|v: u64| s@ != dec_digits(v as nat),
        },
{
    let slen = s.as_str().unicode_len();
    proof {
        assert forall|v: u64| s@ == dec_digits(v as nat) implies scan_ok(s@, 0) && run_end(s@, 0)
            == s@.len() by {
            lemma_dec_digits(v as nat);
            lemma_run_end_exact(s@, 0, s@.len() as int);
            assert(s@.subrange(0, s@.len() as int) =~= s@);
        }
    }
    match scan_dec(s, 0) {
        None => None,
        Some((v, end)) => {
            if end == slen {
                proof {
                    assert(s@.subrange(0, s@.len() as int) =~= s@);
                }
                Some(v)
            } else {
                proof {
                    assert forall|w: u64| s@ != dec_digits(w as nat) by {
                        if s@ == dec_digits(w as nat) {
                            lemma_dec_digits(w as nat);
                            lemma_run_end_exact(s@, 0, s@.len() as int);
                        }
                    }
                }
                None
            }
        },
    }
}

/// Parses the canonical decimal string of a signed number: succeeds exactly
/// on strings of the form `int_digits(v)`.
pub fn parse_i64_str(s: &String) -> (r: Option<i64>)
    ensures
        match r {
            Some(v) => s@ == int_digits(v as int),
            None => forall|v: i64| s@ != int_digits(v as int),
        },
{
    let slen = s.as_str().unicode_len();
    if slen == 0 {
        proof {
            assert forall|v: i64| s@ != int_digits(v as int) by {
                lemma_dec_digits(if v >= 0 {
                    v as nat
                } else {
                    (-(v as int)) as nat
                });
            }
        }
        return None;
    }
    let c0 = s.as_str().get_char(0);
    if c0 != '-' {
        // non-negative: the whole string is an unsigned rendering
        proof {
            assert forall|v: i64| v < 0 implies s@ != int_digits(v as int) by {
                let m = (-(v as int)) as nat;
                lemma_dec_digits(m);
                assert(int_digits(v as int)[0] == '-');
            }
        }
        match parse_u64_str(s) {
            None => None,
            Some(v) => {
                if v <= i64::MAX as u64 {
                    Some(v as i64)
                } else {
                    proof {
                        assert forall|w: i64| s@ != int_digits(w as int) by {
                            if w >= 0 && s@ == int_digits(w as int) {
                                lemma_dec_digits(w as nat);
                                lemma_dec_digits(v as nat);
                            }
                        }
                    }
                    None
                }
            },
        }
    } else {
        // negative: a minus sign, then the magnitude
        proof {
            assert forall|v: i64| v >= 0 implies s@ != int_digits(v as int) by {
                lemma_dec_digits(v as nat);
                assert(is_digit_char(int_digits(v as int)[0]));
            }
            assert forall|v: i64|
                v < 0 && s@ == int_digits(v as int) implies scan_ok(s@, 1) && run_end(s@, 1)
                == s@.len() && dec_value(s@.subrange(1, s@.len() as int)) == -(v as int) by {
                let m = (-(v as int)) as nat;
                lemma_dec_digits(m);
                assert(s@.subrange(1, s@.len() as int) =~= dec_digits(m));
                lemma_run_end_exact(s@, 1, s@.len() as int);
            }
        }
        match scan_dec(s, 1) {
            None => None,
            Some((mag, end)) => {
                if end != slen {
                    proof {
                        assert forall|v: i64| s@ != int_digits(v as int) by {}
                    }
                    return None;
                }
                if mag == 0 {
                    proof {
                        assert forall|v: i64| v < 0 implies s@ != int_digits(v as int) by {
                            if s@ == int_digits(v as int) {
                                let m = (-(v as int)) as nat;
                                lemma_dec_digits(m);
                                assert(dec_value(dec_digits(m)) == m);
                            }
                        }
                    }
                    return None;
                }
                if mag > 9223372036854775808u64 {
                    proof {
                        assert forall|v: i64| v < 0 implies s@ != int_digits(v as int) by {}
                    }
                    return None;
                }
                let v: i64 = if mag == 9223372036854775808u64 {
                    i64::MIN
                } else {
                    -(mag as i64)
                };
                proof {
                    let m = (-(v as int)) as nat;
                    lemma_dec_digits(m);
                    assert(s@ =~= seq!['-'] + dec_digits(m));
                }
                Some(v)
            },
        }
    }
}

/// The signed rendering determines the number.
pub proof fn lemma_int_digits_injective(x: int, y: int)
    requires
        int_digits(x) == int_digits(y),
    ensures
        x == y,
{
    if x >= 0 && y >= 0 {
        lemma_dec_digits(x as nat);
        lemma_dec_digits(y as nat);
    } else if x < 0 && y < 0 {
        lemma_dec_digits((-x) as nat);
        lemma_dec_digits((-y) as nat);
        assert((seq!['-'] + dec_digits((-x) as nat)).skip(1) =~= dec_digits((-x) as nat));
        assert((seq!['-'] + dec_digits((-y) as nat)).skip(1) =~= dec_digits((-y) as nat));
        assert(dec_digits((-x) as nat) == dec_digits((-y) as nat));
    } else if x >= 0 && y < 0 {
        lemma_dec_digits(x as nat);
        assert(is_digit_char(int_digits(x)[0]));
        assert(int_digits(y)[0] == '-');
    } else {
        lemma_dec_digits(y as nat);
        assert(is_digit_char(int_digits(y)[0]));
        assert(int_digits(x)[0] == '-');
    }
}

/// The digits of a signed literal: what follows an optional sign.
pub open spec fn int_body(s: Seq<char>) -> Seq<char> {
    if s.len() > 0 && (s[0] == '-' || s[0] == '+') {
        s.skip(1)
    } else {
        s
    }
}

/// Whether the literal carries a minus sign.
pub open spec fn int_negative(s: Seq<char>) -> bool {
    s.len() > 0 && s[0] == '-'
}

/// A signed decimal literal: an optional sign, then at least one digit.
/// Leading zeros are allowed; this is what "parses as an integer" means.
pub open spec fn is_int_literal(s: Seq<char>) -> bool {
    int_body(s).len() >= 1 && all_digits(int_body(s))
}

/// The number a signed decimal literal denotes.
pub open spec fn int_lit_value(s: Seq<char>) -> int {
    if int_negative(s) {
        -dec_value(int_body(s))
    } else {
        dec_value(int_body(s))
    }
}

/// The canonical rendering is itself a literal and denotes its number.
pub proof fn lemma_int_digits_literal(n: int)
    ensures
        is_int_literal(int_digits(n)),
        int_lit_value(int_digits(n)) == n,
{
    if n >= 0 {
        lemma_dec_digits(n as nat);
        let s = int_digits(n);
        assert(is_digit_char(s[0]));
        assert(s[0] != '-' && s[0] != '+');
        assert(int_body(s) == s);
    } else {
        lemma_dec_digits((-n) as nat);
        let s = int_digits(n);
        assert(s[0] == '-');
        assert(int_body(s) =~= dec_digits((-n) as nat));
    }
}

/// Parses any signed decimal literal whose value fits a 64-bit signed
/// number: an optional sign, digits, leading zeros allowed.
pub fn parse_i64_lenient(s: &String) -> (r: Option<i64>)
    ensures
        match r {
            Some(v) => is_int_literal(s@) && i64::MIN <= int_lit_value(s@) <= i64::MAX && v as int
                == int_lit_value(s@),
            None => !is_int_literal(s@) || int_lit_value(s@) < i64::MIN || int_lit_value(s@)
                > i64::MAX,
        },
{
    let slen = s.as_str().unicode_len();
    if slen == 0 {
        return None;
    }
    let c0 = s.as_str().get_char(0);
    let neg = c0 == '-';
    let start: usize = if c0 == '-' || c0 == '+' {
        1
    } else {
        0
    };
    let ghost body = int_body(s@);
    proof {
        if start == 0 {
            assert(s@.skip(0) =~= s@);
        }
        assert(body == s@.skip(start as int));
        assert(forall|j: int| 0 <= j < body.len() ==> body[j] == s@[start + j]);
    }
    if start == slen {
        assert(body.len() == 0);
        return None;
    }
    let mut i: usize = start;
    let mut acc: u64 = 0;
    proof {
        assert(s@.subrange(start as int, start as int) =~= Seq::<char>::empty());
    }
    loop
        invariant
            start <= i <= slen,
            start <= 1,
            start < slen,
            slen == s@.len(),
            body == int_body(s@),
            body == s@.skip(start as int),
            neg == int_negative(s@),
            acc == dec_value(s@.subrange(start as int, i as int)),
            forall|j: int| start <= j < i ==> is_digit_char(s@[j]),
        decreases slen - i,
    {
        if i == slen {
            proof {
                assert(s@.subrange(start as int, slen as int) =~= body);
                assert forall|j: int| 0 <= j < body.len() implies is_digit_char(body[j]) by {
                    assert(body[j] == s@[start + j]);
                }
                lemma_dec_value_nonneg(body);
            }
            if neg {
                if acc > 9223372036854775808u64 {
                    return None;
                }
                let v: i64 = if acc == 9223372036854775808u64 {
                    i64::MIN
                } else {
                    -(acc as i64)
                };
                return Some(v);
            } else {
                if acc > i64::MAX as u64 {
                    return None;
                }
                return Some(acc as i64);
            }
        }
        let c = s.as_str().get_char(i);
        let u = c as u32;
        if !(48 <= u && u <= 57) {
            proof {
                assert(!is_digit_char(s@[i as int]));
                assert(body[i - start] == s@[i as int]);
            }
            return None;
        }
        let d: u64 = (u as u64) - 48;
        if acc > (u64::MAX - d) / 10 {
            proof {
                assert(acc * 10 + d > u64::MAX) by (nonlinear_arith)
                    requires
                        acc > (u64::MAX - d) / 10,
                        0 <= d < 10,
                ;
                let next = s@.subrange(start as int, i + 1);
                assert(next.drop_last() =~= s@.subrange(start as int, i as int));
                assert(next.last() == s@[i as int]);
                assert(dec_value(next) == acc * 10 + d);
                if is_int_literal(s@) {
                    assert forall|j: int| 0 <= j < body.len() implies is_digit_char(body[j]) by {}
                    lemma_dec_value_grows(body, i + 1 - start, body.len() as int);
                    assert(body.subrange(0, i + 1 - start) =~= next);
                    assert(body.subrange(0, body.len() as int) =~= body);
                    assert(dec_value(body) > u64::MAX);
                }
            }
            return None;
        }
        proof {
            assert(acc * 10 + d <= u64::MAX) by (nonlinear_arith)
                requires
                    acc <= (u64::MAX - d) / 10,
                    0 <= d < 10,
            ;
            let next = s@.subrange(start as int, i + 1);
            assert(next.drop_last() =~= s@.subrange(start as int, i as int));
            assert(next.last() == s@[i as int]);
        }
        acc = acc * 10 + d;
        i = i + 1;
    }
}

/// One step of the rolling digest: fold one character into the state.
pub open spec fn digest_step(d: u64, c: char) -> u64 {
    vstd::wrapping::u64_specs::wrapping_mul(d ^ ((c as u32) as u64), 0x100000001b3)
}

/// The rolling digest of a character sequence, used for content-addressed
/// commit subjects and for commit signatures.
pub open spec fn digest_chars(s: Seq<char>) -> u64
    decreases s.len(),
{
    if s.len() == 0 {
        0xcbf29ce484222325
    } else {
        digest_step(digest_chars(s.drop_last()), s.last())
    }
}

/// Computes the rolling digest of a string.
pub fn digest_string(s: &String) -> (d: u64)
    ensures
        d == digest_chars(s@),
{
    let slen = s.as_str().unicode_len();
    let mut d: u64 = 0xcbf29ce484222325;
    let mut i: usize = 0;
    proof {
        assert(s@.subrange(0, 0) =~= Seq::<char>::empty());
    }
    while i < slen
        invariant
            i <= slen,
            slen == s@.len(),
            d == digest_chars(s@.subrange(0, i as int)),
        decreases slen - i,
    {
        let c = s.as_str().get_char(i);
        d = (d ^ ((c as u32) as u64)).wrapping_mul(0x100000001b3);
        proof {
            let t = s@.subrange(0, i + 1);
            assert(t.drop_last() =~= s@.subrange(0, i as int));
            assert(t.last() == s@[i as int]);
        }
        i = i + 1;
    }
    proof {
        assert(s@.subrange(0, slen as int) =~= s@);
    }
    d
}

/// The encoding of a list of fields: the length-prefixed fields, in order.
pub open spec fn arr_enc(a: Seq<Seq<char>>) -> Seq<char>
    decreases a.len(),
{
    if a.len() == 0 {
        Seq::<char>::empty()
    } else {
        net_enc(a[0]) + arr_enc(a.skip(1))
    }
}

/// Only the empty list encodes to the empty text.
pub proof fn lemma_arr_enc_empty(a: Seq<Seq<char>>)
    requires
        arr_enc(a).len() == 0,
    ensures
        a.len() == 0,
{
    if a.len() > 0 {
        lemma_dec_digits(a[0].len());
    }
}

/// The encoding of a list determines the list.
pub proof fn lemma_arr_enc_injective(a: Seq<Seq<char>>, b: Seq<Seq<char>>)
    requires
        arr_enc(a) == arr_enc(b),
    ensures
        a == b,
    decreases a.len(),
{
    if a.len() == 0 {
        lemma_arr_enc_empty(b);
        assert(a =~= b);
    } else if b.len() == 0 {
        lemma_arr_enc_empty(a);
        assert(a =~= b);
    } else {
        let s = arr_enc(a);
        lemma_dec_digits(a[0].len());
        lemma_dec_digits(b[0].len());
        let la = net_enc(a[0]).len() as int;
        let lb = net_enc(b[0]).len() as int;
        assert(s.subrange(0, la) =~= net_enc(a[0]));
        assert(s.subrange(0, lb) =~= net_enc(b[0]));
        lemma_net_region_core(s, 0, a[0]);
        lemma_net_region_core(s, 0, b[0]);
        let k = dec_digits(a[0].len()).len() as int;
        assert(k == dec_digits(b[0].len()).len() as int);
        assert(s.subrange(0, k) =~= dec_digits(a[0].len()));
        assert(s.subrange(0, k) =~= dec_digits(b[0].len()));
        assert(dec_value(s.subrange(0, k)) == a[0].len());
        assert(dec_value(s.subrange(0, k)) == b[0].len());
        assert(a[0].len() == b[0].len());
        assert(a[0] =~= b[0]);
        assert(la == lb);
        assert(arr_enc(a.skip(1)) =~= s.skip(la));
        assert(arr_enc(b.skip(1)) =~= s.skip(la));
        lemma_arr_enc_injective(a.skip(1), b.skip(1));
        assert(a =~= seq![a[0]] + a.skip(1));
        assert(b =~= seq![b[0]] + b.skip(1));
    }
}

/// Parses a whole string as a list of length-prefixed fields: succeeds
/// exactly on strings of the form `arr_enc(..)`.
pub fn parse_str_list(s: &String) -> (r: Option<Vec<String>>)
    ensures
        match r {
            Some(xs) => s@ == arr_enc(xs.deep_view()),
            None => forall|a: Seq<Seq<char>>| s@ != arr_enc(a),
        },
{
    let slen = s.as_str().unicode_len();
    let mut xs: Vec<String> = Vec::new();
    let mut pos: usize = 0;
    proof {
        assert(s@.subrange(0, 0) =~= Seq::<char>::empty());
        assert(xs.deep_view() =~= Seq::<Seq<char>>::empty());
        assert(arr_enc(xs.deep_view()) =~= Seq::<char>::empty());
        assert forall|a: Seq<Seq<char>>| #[trigger] arr_enc(a) == s@ implies (a.take(0)
            == xs.deep_view() && s@.subrange(0, slen as int) == arr_enc(a.skip(0))) by {
            assert(a.take(0) =~= xs.deep_view());
            assert(a.skip(0) =~= a);
            assert(s@.subrange(0, slen as int) =~= s@);
        }
    }
    loop
        invariant
            pos <= slen,
            slen == s@.len(),
            s@.subrange(0, pos as int) == arr_enc(xs.deep_view()),
            forall|a: Seq<Seq<char>>| #![trigger arr_enc(a)]
                s@ == arr_enc(a) ==> (a.len() >= xs.deep_view().len() && a.take(
                    xs.deep_view().len() as int,
                ) == xs.deep_view() && s@.subrange(pos as int, slen as int) == arr_enc(
                    a.skip(xs.deep_view().len() as int),
                )),
        decreases slen - pos,
    {
        if pos == slen {
            proof {
                assert(s@.subrange(0, slen as int) =~= s@);
                assert forall|a: Seq<Seq<char>>| s@ == arr_enc(a) implies a == xs.deep_view() by {
                    let k = xs.deep_view().len() as int;
                    assert(s@.subrange(pos as int, slen as int).len() == 0);
                    lemma_arr_enc_empty(a.skip(k));
                    assert(a =~= a.take(k));
                }
            }
            return Some(xs);
        }
        let parsed = parse_net(s, pos);
        match parsed {
            None => {
                proof {
                    assert forall|a: Seq<Seq<char>>| s@ != arr_enc(a) by {
                        if s@ == arr_enc(a) {
                            let k = xs.deep_view().len() as int;
                            let tail = a.skip(k);
                            let suffix = s@.subrange(pos as int, slen as int);
                            assert(suffix == arr_enc(tail));
                            if tail.len() == 0 {
                                assert(suffix.len() == 0);
                            } else {
                                assert(arr_enc(tail) == net_enc(tail[0]) + arr_enc(tail.skip(1)));
                                assert(tail[0].len() <= s@.len());
                                assert forall|i: int|
                                    0 <= i < net_enc(tail[0]).len() implies s@[pos + i] == net_enc(
                                    tail[0],
                                )[i] by {
                                    assert(suffix[i] == s@[pos + i]);
                                }
                                assert(s@.subrange(
                                    pos as int,
                                    pos + net_enc(tail[0]).len(),
                                ) =~= net_enc(tail[0]));
                            }
                        }
                    }
                }
                return None;
            },
            Some((x, end)) => {
                proof {
                    let k = xs.deep_view().len() as int;
                    let old_deep = xs.deep_view();
                    assert forall|a: Seq<Seq<char>>|
                        s@ == arr_enc(a) implies (a.len() >= old_deep.len() + 1 && a.take(
                        k + 1,
                    ) == old_deep.push(x@) && s@.subrange(end as int, slen as int) == arr_enc(
                        a.skip(k + 1),
                    )) by {
                        let tail = a.skip(k);
                        let suffix = s@.subrange(pos as int, slen as int);
                        assert(suffix == arr_enc(tail));
                        if tail.len() == 0 {
                            assert(suffix.len() == 0);
                            assert(false);
                        } else {
                            assert(arr_enc(tail) == net_enc(tail[0]) + arr_enc(tail.skip(1)));
                            assert forall|i: int|
                                0 <= i < net_enc(tail[0]).len() implies s@[pos + i] == net_enc(
                                tail[0],
                            )[i] by {
                                assert(suffix[i] == s@[pos + i]);
                            }
                            assert(s@.subrange(pos as int, pos + net_enc(tail[0]).len())
                                =~= net_enc(tail[0]));
                            // the parsed field is that very field
                            assert(x@ == tail[0] && end == pos + net_enc(tail[0]).len());
                            assert(a.take(k + 1) =~= a.take(k).push(a[k]));
                            assert(a[k] == tail[0]);
                            assert(suffix.len() == net_enc(tail[0]).len() + arr_enc(
                                tail.skip(1),
                            ).len());
                            assert forall|i: int|
                                0 <= i < slen - end implies s@.subrange(end as int, slen as int)[i]
                                == arr_enc(tail.skip(1))[i] by {
                                assert(s@.subrange(end as int, slen as int)[i] == s@[end + i]);
                                assert(suffix[(end - pos) + i] == s@[end + i]);
                                assert(suffix[(end - pos) + i] == arr_enc(tail.skip(1))[i]);
                            }
                            assert(s@.subrange(end as int, slen as int) =~= arr_enc(
                                tail.skip(1),
                            ));
                            assert(tail.skip(1) =~= a.skip(k + 1));
                        }
                    }
                }
                let ghost old_deep = xs.deep_view();
                let ghost old_pos = pos as int;
                xs.push(x);
                pos = end;
                proof {
                    assert(xs.deep_view() =~= old_deep.push(x@));
                    lemma_arr_enc_snoc(old_deep, x@);
                    assert(s@.subrange(0, pos as int) =~= s@.subrange(0, old_pos) + s@.subrange(
                        old_pos,
                        pos as int,
                    ));
                }
            },
        }
    }
}

/// Appending one field appends its encoding.
pub proof fn lemma_arr_enc_snoc(a: Seq<Seq<char>>, x: Seq<char>)
    ensures
        arr_enc(a.push(x)) == arr_enc(a) + net_enc(x),
    decreases a.len(),
{
    if a.len() == 0 {
        assert(a.push(x)[0] == x);
        assert(a.push(x).skip(1) =~= Seq::<Seq<char>>::empty());
        assert(arr_enc(Seq::<Seq<char>>::empty()) =~= Seq::<char>::empty());
        assert(arr_enc(a.push(x)) =~= net_enc(x));
        assert(arr_enc(a) + net_enc(x) =~= net_enc(x));
    } else {
        assert(a.push(x)[0] == a[0]);
        assert(a.push(x).skip(1) =~= a.skip(1).push(x));
        lemma_arr_enc_snoc(a.skip(1), x);
        assert(arr_enc(a.push(x)) == net_enc(a[0]) + arr_enc(a.skip(1).push(x)));
        assert(net_enc(a[0]) + (arr_enc(a.skip(1)) + net_enc(x)) =~= (net_enc(a[0]) + arr_enc(
            a.skip(1),
        )) + net_enc(x));
    }
}

/// Whether `p` is a prefix of `s`.
pub open spec fn is_prefix(p: Seq<char>, s: Seq<char>) -> bool {
    p.len() <= s.len() && s.take(p.len() as int) == p
}

/// Whether `s` begins with the characters of `p`.
pub fn str_starts_with(s: &String, p: &String) -> (r: bool)
    ensures
        r == is_prefix(p@, s@),
{
    let ls = s.as_str().unicode_len();
    let lp = p.as_str().unicode_len();
    if lp > ls {
        assert(!is_prefix(p@, s@));
        return false;
    }
    let mut i: usize = 0;
    while i < lp
        invariant
            i <= lp,
            lp <= ls,
            ls == s@.len(),
            lp == p@.len(),
            forall|j: int| 0 <= j < i ==> s@[j] == p@[j],
        decreases lp - i,
    {
        let cs = s.as_str().get_char(i);
        let cp = p.as_str().get_char(i);
        if cs != cp {
            assert(s@.take(p@.len() as int)[i as int] != p@[i as int]);
            return false;
        }
        i = i + 1;
    }
    proof {
        assert(s@.take(p@.len() as int) =~= p@);
    }
    true
}

} // verus!
