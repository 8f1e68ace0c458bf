//! Plain-text building blocks shared by the display strings and the
//! persistence codec: decimal rendering and parsing of integers, and the
//! fixed-point rendering used for coordinates.

use vstd::prelude::*;

verus! {

// ---------------------------------------------------------------------------
// Digits
// ---------------------------------------------------------------------------

/// The decimal digit character for a value below ten.
pub open spec fn digit_char(d: nat) -> char {
    if d == 0 {
        '0'
    } else if d == 1 {
        '1'
    } else if d == 2 {
        '2'
    } else if d == 3 {
        '3'
    } else if d == 4 {
        '4'
    } else if d == 5 {
        '5'
    } else if d == 6 {
        '6'
    } else if d == 7 {
        '7'
    } else if d == 8 {
        '8'
    } else {
        '9'
    }
}

pub open spec fn is_digit(c: char) -> bool {
    c == '0' || c == '1' || c == '2' || c == '3' || c == '4' || c == '5' || c == '6' || c == '7'
        || c == '8' || c == '9'
}

/// The value of a decimal digit character.
pub open spec fn digit_val(c: char) -> nat {
    if c == '0' {
        0
    } else if c == '1' {
        1
    } else if c == '2' {
        2
    } else if c == '3' {
        3
    } else if c == '4' {
        4
    } else if c == '5' {
        5
    } else if c == '6' {
        6
    } else if c == '7' {
        7
    } else if c == '8' {
        8
    } else {
        9
    }
}

/// The decimal digits of `n`, most significant first, without sign and
/// without leading zeros (a single `'0'` for zero).
pub open spec fn nat_digits(n: nat) -> Seq<char>
    decreases n,
{
    if n < 10 {
        seq![digit_char(n)]
    } else {
        nat_digits(n / 10).push(digit_char(n % 10))
    }
}

/// The decimal rendering of a signed value: a `'-'` before the digits of the
/// magnitude when negative.
pub open spec fn int_digits(v: int) -> Seq<char> {
    if v < 0 {
        seq!['-'] + nat_digits((-v) as nat)
    } else {
        nat_digits(v as nat)
    }
}

pub fn digit_to_char(d: u64) -> (c: char)
    requires
        d < 10,
    ensures
        c == digit_char(d as nat),
{
    if d == 0 {
        '0'
    } else if d == 1 {
        '1'
    } else if d == 2 {
        '2'
    } else if d == 3 {
        '3'
    } else if d == 4 {
        '4'
    } else if d == 5 {
        '5'
    } else if d == 6 {
        '6'
    } else if d == 7 {
        '7'
    } else if d == 8 {
        '8'
    } else {
        '9'
    }
}

pub fn char_to_digit(c: char) -> (r: Option<u64>)
    ensures
        match r {
            Some(d) => is_digit(c) && d < 10 && d as nat == digit_val(c),
            None => !is_digit(c),
        },
{
    if c == '0' {
        Some(0)
    } else if c == '1' {
        Some(1)
    } else if c == '2' {
        Some(2)
    } else if c == '3' {
        Some(3)
    } else if c == '4' {
        Some(4)
    } else if c == '5' {
        Some(5)
    } else if c == '6' {
        Some(6)
    } else if c == '7' {
        Some(7)
    } else if c == '8' {
        Some(8)
    } else if c == '9' {
        Some(9)
    } else {
        None
    }
}

// ---------------------------------------------------------------------------
// Rendering
// ---------------------------------------------------------------------------

/// Relies on `String::push`: appends the given character to the end of the
/// string.
#[verifier::external_body]
pub fn push_char(s: &mut String, c: char)
    ensures
        final(s)@ == old(s)@.push(c),
{
    s.push(c)
}

/// Append the decimal digits of `n` to `out`.
pub fn push_nat(out: &mut String, n: u64)
    ensures
        final(out)@ == old(out)@ + nat_digits(n as nat),
    decreases n,
{
    if n < 10 {
        push_char(out, digit_to_char(n));
        proof {
            assert(old(out)@ + nat_digits(n as nat) =~= old(out)@.push(digit_char(n as nat)));
        }
    } else {
        push_nat(out, n / 10);
        push_char(out, digit_to_char(n % 10));
        proof {
            assert(old(out)@ + nat_digits(n as nat) =~= (old(out)@ + nat_digits(
                (n / 10) as nat,
            )).push(digit_char((n % 10) as nat)));
        }
    }
}

/// Append the decimal rendering of `v`, with a leading `'-'` when negative.
pub fn push_i64(out: &mut String, v: i64)
    ensures
        final(out)@ == old(out)@ + int_digits(v as int),
{
    if v >= 0 {
        push_nat(out, v as u64);
    } else {
        push_char(out, '-');
        let m: u64 = ((-(v + 1)) as u64) + 1;
        assert(m as nat == (-(v as int)) as nat);
        push_nat(out, m);
        proof {
            assert(old(out)@ + int_digits(v as int) =~= old(out)@.push('-') + nat_digits(
                m as nat,
            ));
        }
    }
}

// ---------------------------------------------------------------------------
// Parsing
// ---------------------------------------------------------------------------

/// How many decimal digit characters stand at the front of `s`.
pub open spec fn digit_run(s: Seq<char>) -> nat
    decreases s.len(),
{
    if s.len() > 0 && is_digit(s[0]) {
        1 + digit_run(s.drop_first())
    } else {
        0
    }
}

/// The value of a sequence of decimal digit characters.
pub open spec fn digits_val(s: Seq<char>) -> nat
    decreases s.len(),
{
    if s.len() == 0 {
        0
    } else {
        digits_val(s.drop_last()) * 10 + digit_val(s.last())
    }
}

/// Parse a decimal number at the front of `s`: the maximal run of digits,
/// read as a value.  Yields the value and how many characters were consumed;
/// nothing when no digit stands at the front or the value exceeds `bound`.
pub open spec fn spec_parse_num(s: Seq<char>, bound: nat) -> Option<(nat, nat)> {
    let k = digit_run(s);
    if k == 0 {
        None
    } else {
        let v = digits_val(s.take(k as int));
        if v > bound {
            None
        } else {
            Some((v, k))
        }
    }
}

proof fn lemma_digit_run_le_len(s: Seq<char>)
    ensures
        digit_run(s) <= s.len(),
        forall|i: int| 0 <= i < digit_run(s) ==> is_digit(s[i]),
        digit_run(s) < s.len() ==> !is_digit(s[digit_run(s) as int]),
    decreases s.len(),
{
    if s.len() > 0 && is_digit(s[0]) {
        lemma_digit_run_le_len(s.drop_first());
        assert forall|i: int| 0 <= i < digit_run(s) implies is_digit(s[i]) by {
            if i >= 1 {
                assert(s[i] == s.drop_first()[i - 1]);
            }
        }
        if digit_run(s) < s.len() {
            assert(s[digit_run(s) as int] == s.drop_first()[digit_run(s.drop_first()) as int]);
        }
    }
}

proof fn lemma_digits_val_monotone(s: Seq<char>, j: int, k: int)
    requires
        0 <= j <= k <= s.len(),
    ensures
        digits_val(s.take(j)) <= digits_val(s.take(k)),
    decreases k - j,
{
    if j < k {
        lemma_digits_val_monotone(s, j, k - 1);
        assert(s.take(k).drop_last() =~= s.take(k - 1));
        assert(digits_val(s.take(k)) == digits_val(s.take(k - 1)) * 10 + digit_val(
            s.take(k).last(),
        ));
        assert(digits_val(s.take(k - 1)) * 10 >= digits_val(s.take(k - 1)));
    }
}

/// Parse a decimal number, returning the value and the position after it.
///
/// The result mirrors [`spec_parse_num`] applied to the text from `p` on.
pub fn parse_num(text: &str, p: usize, bound: u64) -> (r: Option<(u64, usize)>)
    requires
        p <= text@.len(),
    ensures
        match r {
            Some((v, q)) => {
                &&& spec_parse_num(text@.skip(p as int), bound as nat) == Some(
                    (v as nat, (q - p) as nat),
                )
                &&& p < q <= text@.len()
                &&& v <= bound
            },
            None => spec_parse_num(text@.skip(p as int), bound as nat) is None,
        },
{
    let ghost s = text@.skip(p as int);
    let n = text.unicode_len();
    let mut i = p;
    let mut acc: u64 = 0;
    loop
        invariant
            p <= i <= n,
            n as nat == text@.len(),
            s == text@.skip(p as int),
            digit_run(s) == (i - p) + digit_run(text@.skip(i as int)),
            acc as nat == digits_val(s.take(i - p)),
            acc <= bound,
        ensures
            p <= i <= n,
            digit_run(s) == i - p,
            acc as nat == digits_val(s.take(i - p)),
            acc <= bound,
        decreases n - i,
    {
        proof {
            assert(text@.skip(i as int).len() == n - i);
        }
        if i >= n {
            break ;
        }
        let c = text.get_char(i);
        proof {
            assert(c == text@.skip(i as int)[0]);
        }
        let d = match char_to_digit(c) {
            Some(d) => d,
            None => { break },
        };
        // The next prefix value is acc * 10 + d; stop when it cannot fit.
        if acc > bound / 10 || (acc == bound / 10 && d > bound % 10) {
            proof {
                lemma_digit_run_le_len(s);
                assert(text@.skip(i as int).drop_first() =~= text@.skip(i + 1 as int));
                assert(digit_run(s) >= i + 1 - p);
                assert(s.take(i + 1 - p).drop_last() =~= s.take(i - p));
                assert(s.take(i + 1 - p).last() == c);
                assert(digits_val(s.take(i + 1 - p)) == (acc as nat) * 10 + (d as nat));
                assert((acc as nat) * 10 + (d as nat) > bound as nat) by {
                    vstd::arithmetic::div_mod::lemma_fundamental_div_mod(
                        bound as int,
                        10,
                    );
                    if acc as nat > (bound / 10) as nat {
                        assert((acc as nat) * 10 >= ((bound / 10) as nat + 1) * 10)
                            by (nonlinear_arith)
                            requires
                                acc as nat >= (bound / 10) as nat + 1,
                        ;
                    }
                }
                lemma_digits_val_monotone(s, i + 1 - p, digit_run(s) as int);
            }
            return None;
        }
        acc = acc * 10 + d;
        proof {
            assert(text@.skip(i as int).drop_first() =~= text@.skip(i + 1 as int));
            assert(digit_run(text@.skip(i as int)) == 1 + digit_run(text@.skip(i + 1 as int)));
            assert(s.take(i + 1 - p).drop_last() =~= s.take(i - p));
            assert(s.take(i + 1 - p).last() == c);
        }
        i = i + 1;
    }
    if i == p {
        proof {
            assert(digit_run(s) == 0);
        }
        None
    } else {
        proof {
            assert(digit_run(s) == i - p);
            assert(s.take(i - p) =~= s.take(digit_run(s) as int));
        }
        Some((acc, i))
    }
}

// ---------------------------------------------------------------------------
// Round trips between rendering and parsing
// ---------------------------------------------------------------------------

proof fn lemma_nat_digits_are_digits(n: nat)
    ensures
        nat_digits(n).len() >= 1,
        forall|i: int| 0 <= i < nat_digits(n).len() ==> is_digit(#[trigger] nat_digits(n)[i]),
    decreases n,
{
    if n >= 10 {
        lemma_nat_digits_are_digits(n / 10);
    }
}

proof fn lemma_digit_run_of_digits(d: Seq<char>, rest: Seq<char>)
    requires
        forall|i: int| 0 <= i < d.len() ==> is_digit(#[trigger] d[i]),
        rest.len() == 0 || !is_digit(rest[0]),
    ensures
        digit_run(d + rest) == d.len(),
    decreases d.len(),
{
    if d.len() == 0 {
        assert(d + rest =~= rest);
    } else {
        lemma_digit_run_of_digits(d.drop_first(), rest);
        assert((d + rest).drop_first() =~= d.drop_first() + rest);
    }
}

proof fn lemma_digits_val_of_nat_digits(n: nat)
    ensures
        digits_val(nat_digits(n)) == n,
    decreases n,
{
    let s = nat_digits(n);
    assert(s.len() > 0) by {
        lemma_nat_digits_are_digits(n);
    }
    assert(digits_val(s) == digits_val(s.drop_last()) * 10 + digit_val(s.last()));
    if n < 10 {
        assert(s =~= seq![digit_char(n)]);
        assert(s.drop_last() =~= Seq::<char>::empty());
        assert(digits_val(Seq::<char>::empty()) == 0);
        assert(s.last() == digit_char(n));
        assert(digit_val(digit_char(n)) == n);
    } else {
        lemma_digits_val_of_nat_digits(n / 10);
        assert(s.drop_last() =~= nat_digits(n / 10));
        assert(s.last() == digit_char(n % 10));
        assert(digit_val(digit_char(n % 10)) == n % 10);
        vstd::arithmetic::div_mod::lemma_fundamental_div_mod(n as int, 10);
    }
}

/// Rendering a value and parsing it back gives the value again, as long as
/// what follows does not begin with another digit.
pub proof fn lemma_parse_num_round_trip(n: nat, bound: nat, rest: Seq<char>)
    requires
        n <= bound,
        rest.len() == 0 || !is_digit(rest[0]),
    ensures
        spec_parse_num(nat_digits(n) + rest, bound) == Some((n, nat_digits(n).len())),
{
    let s = nat_digits(n) + rest;
    lemma_nat_digits_are_digits(n);
    lemma_digit_run_of_digits(nat_digits(n), rest);
    lemma_digits_val_of_nat_digits(n);
    assert(s.take(nat_digits(n).len() as int) =~= nat_digits(n));
}

// ---------------------------------------------------------------------------
// Signed numbers
// ---------------------------------------------------------------------------

/// Parse a possibly negative decimal number that fits an `i64`.
pub open spec fn spec_parse_i64(s: Seq<char>) -> Option<(int, nat)> {
    if s.len() > 0 && s[0] == '-' {
        match spec_parse_num(s.skip(1), i64::MAX as nat + 1) {
            Some((v, k)) => Some((-(v as int), (k + 1) as nat)),
            None => None,
        }
    } else {
        match spec_parse_num(s, i64::MAX as nat) {
            Some((v, k)) => Some((v as int, k as nat)),
            None => None,
        }
    }
}

pub fn parse_i64(text: &str, p: usize) -> (r: Option<(i64, usize)>)
    requires
        p <= text@.len(),
    ensures
        match r {
            Some((v, q)) => {
                &&& spec_parse_i64(text@.skip(p as int)) == Some((v as int, (q - p) as nat))
                &&& p < q <= text@.len()
            },
            None => spec_parse_i64(text@.skip(p as int)) is None,
        },
{
    let n = text.unicode_len();
    if p < n && text.get_char(p) == '-' {
        proof {
            assert(text@.skip(p as int)[0] == '-');
            assert(text@.skip(p as int).skip(1) =~= text@.skip(p + 1 as int));
        }
        let bound: u64 = (i64::MAX as u64) + 1;
        match parse_num(text, p + 1, bound) {
            Some((v, q)) => {
                let r: i64 = if v == bound {
                    i64::MIN
                } else {
                    -(v as i64)
                };
                Some((r, q))
            },
            None => None,
        }
    } else {
        proof {
            if text@.skip(p as int).len() > 0 && text@.skip(p as int)[0] == '-' {
                assert(text@.skip(p as int)[0] == text@[p as int]);
            }
        }
        match parse_num(text, p, i64::MAX as u64) {
            Some((v, q)) => Some((v as i64, q)),
            None => None,
        }
    }
}

/// Rendering a signed value and parsing it back gives the value again.
pub proof fn lemma_parse_i64_round_trip(v: int, rest: Seq<char>)
    requires
        i64::MIN <= v <= i64::MAX,
        rest.len() == 0 || !is_digit(rest[0]),
    ensures
        spec_parse_i64(int_digits(v) + rest) == Some((v, int_digits(v).len())),
{
    if v < 0 {
        let m = (-v) as nat;
        lemma_parse_num_round_trip(m, i64::MAX as nat + 1, rest);
        assert((int_digits(v) + rest)[0] == '-');
        assert((int_digits(v) + rest).skip(1) =~= nat_digits(m) + rest);
    } else {
        lemma_parse_num_round_trip(v as nat, i64::MAX as nat, rest);
        lemma_nat_digits_are_digits(v as nat);
        assert(int_digits(v) + rest =~= nat_digits(v as nat) + rest);
        assert(is_digit((nat_digits(v as nat) + rest)[0]));
    }
}

// ---------------------------------------------------------------------------
// Fixed-point coordinate rendering
// ---------------------------------------------------------------------------

/// The digits of `f`, zero-padded on the left to a width of `d`.
pub open spec fn padded_digits(f: nat, d: nat) -> Seq<char>
    decreases d,
{
    if d == 0 {
        Seq::empty()
    } else {
        padded_digits(f / 10, (d - 1) as nat).push(digit_char(f % 10))
    }
}

/// A `d`-digit fraction with its trailing zeros removed.
pub open spec fn frac_trim(f: nat, d: nat) -> Seq<char>
    decreases d,
{
    if d == 0 {
        Seq::empty()
    } else if f % 10 == 0 {
        frac_trim(f / 10, (d - 1) as nat)
    } else {
        padded_digits(f, d)
    }
}

/// The decimal form of a coordinate stored in microdegrees: the whole part,
/// then the fractional digits when any are set (`51500000` renders as
/// `51.5`, `-120000` as `-0.12`).
pub open spec fn micro_text(v: int) -> Seq<char> {
    let m = if v < 0 {
        -v
    } else {
        v
    };
    let sign: Seq<char> = if v < 0 {
        seq!['-']
    } else {
        Seq::empty()
    };
    let whole = (m / 1000000) as nat;
    let frac = (m % 1000000) as nat;
    if frac == 0 {
        sign + nat_digits(whole)
    } else {
        sign + nat_digits(whole) + seq!['.'] + frac_trim(frac, 6)
    }
}

fn push_padded(out: &mut String, f: u64, d: u64)
    ensures
        final(out)@ == old(out)@ + padded_digits(f as nat, d as nat),
    decreases d,
{
    if d == 0 {
        proof {
            assert(old(out)@ + padded_digits(f as nat, 0) =~= old(out)@);
        }
    } else {
        push_padded(out, f / 10, d - 1);
        push_char(out, digit_to_char(f % 10));
        proof {
            assert(old(out)@ + padded_digits(f as nat, d as nat) =~= (old(out)@ + padded_digits(
                (f / 10) as nat,
                (d - 1) as nat,
            )).push(digit_char((f % 10) as nat)));
        }
    }
}

fn push_frac(out: &mut String, f: u64, d: u64)
    ensures
        final(out)@ == old(out)@ + frac_trim(f as nat, d as nat),
    decreases d,
{
    if d == 0 {
        proof {
            assert(old(out)@ + frac_trim(f as nat, 0) =~= old(out)@);
        }
    } else if f % 10 == 0 {
        push_frac(out, f / 10, d - 1);
    } else {
        push_padded(out, f, d);
    }
}

/// Append the decimal form of a microdegree coordinate.
pub fn push_micro(out: &mut String, v: i64)
    ensures
        final(out)@ == old(out)@ + micro_text(v as int),
{
    let m: u64 = if v >= 0 {
        v as u64
    } else {
        push_char(out, '-');
        ((-(v + 1)) as u64) + 1
    };
    proof {
        assert(m as nat == (if v < 0 {
            -(v as int)
        } else {
            v as int
        }));
    }
    let whole: u64 = m / 1000000;
    let frac: u64 = m % 1000000;
    push_nat(out, whole);
    if frac != 0 {
        push_char(out, '.');
        push_frac(out, frac, 6);
        proof {
            assert(final(out)@ =~= old(out)@ + micro_text(v as int));
        }
    } else {
        proof {
            assert(final(out)@ =~= old(out)@ + micro_text(v as int));
        }
    }
}

// ---------------------------------------------------------------------------
// Escaped strings
// ---------------------------------------------------------------------------

/// How one character is stored inside a quoted string.
pub open spec fn escape_char(c: char) -> Seq<char> {
    if c == '"' {
        seq!['\\', '"']
    } else if c == '\\' {
        seq!['\\', '\\']
    } else if c == '\n' {
        seq!['\\', 'n']
    } else if c == '\r' {
        seq!['\\', 'r']
    } else if c == '\t' {
        seq!['\\', 't']
    } else {
        seq![c]
    }
}

pub open spec fn escape_str(s: Seq<char>) -> Seq<char>
    decreases s.len(),
{
    if s.len() == 0 {
        Seq::empty()
    } else {
        escape_char(s[0]) + escape_str(s.drop_first())
    }
}

/// A string field as stored: quoted and escaped.
pub open spec fn quoted(s: Seq<char>) -> Seq<char> {
    seq!['"'] + escape_str(s) + seq!['"']
}

pub open spec fn unescape_char(c: char) -> Option<char> {
    if c == '"' {
        Some('"')
    } else if c == '\\' {
        Some('\\')
    } else if c == 'n' {
        Some('\n')
    } else if c == 'r' {
        Some('\r')
    } else if c == 't' {
        Some('\t')
    } else {
        None
    }
}

pub proof fn lemma_escape_str_concat(a: Seq<char>, b: Seq<char>)
    ensures
        escape_str(a + b) == escape_str(a) + escape_str(b),
    decreases a.len(),
{
    if a.len() == 0 {
        assert(a + b =~= b);
        assert(escape_str(a) + escape_str(b) =~= escape_str(b));
    } else {
        lemma_escape_str_concat(a.drop_first(), b);
        assert((a + b).drop_first() =~= a.drop_first() + b);
        assert((a + b)[0] == a[0]);
        assert(escape_char(a[0]) + (escape_str(a.drop_first()) + escape_str(b)) =~= (escape_char(
            a[0],
        ) + escape_str(a.drop_first())) + escape_str(b));
    }
}

/// Append `s` in its stored form: quoted, with the escapes applied.
pub fn push_quoted(out: &mut String, s: &str)
    ensures
        final(out)@ == old(out)@ + quoted(s@),
{
    push_char(out, '"');
    let n = s.unicode_len();
    let mut i: usize = 0;
    while i < n
        invariant
            0 <= i <= n,
            n as nat == s@.len(),
            out@ == old(out)@.push('"') + escape_str(s@.take(i as int)),
        decreases n - i,
    {
        let c = s.get_char(i);
        if c == '"' {
            push_char(out, '\\');
            push_char(out, '"');
        } else if c == '\\' {
            push_char(out, '\\');
            push_char(out, '\\');
        } else if c == '\n' {
            push_char(out, '\\');
            push_char(out, 'n');
        } else if c == '\r' {
            push_char(out, '\\');
            push_char(out, 'r');
        } else if c == '\t' {
            push_char(out, '\\');
            push_char(out, 't');
        } else {
            push_char(out, c);
        }
        proof {
            assert(s@.take(i + 1 as int) =~= s@.take(i as int) + seq![s@[i as int]]);
            lemma_escape_str_concat(s@.take(i as int), seq![s@[i as int]]);
            assert(seq![s@[i as int]].drop_first() =~= Seq::<char>::empty());
            assert(escape_str(seq![s@[i as int]]) == escape_char(s@[i as int]) + escape_str(
                Seq::<char>::empty(),
            ));
            assert(escape_char(s@[i as int]) + escape_str(Seq::<char>::empty()) =~= escape_char(
                s@[i as int],
            ));
            assert(out@ =~= old(out)@.push('"') + escape_str(s@.take(i + 1 as int)));
        }
        i = i + 1;
    }
    push_char(out, '"');
    proof {
        assert(s@.take(n as int) =~= s@);
        assert(final(out)@ =~= old(out)@ + quoted(s@));
    }
}

/// Parse the rest of a quoted string after its opening quote, up to and
/// including the closing quote.
pub open spec fn spec_parse_str_body(s: Seq<char>) -> Option<(Seq<char>, nat)>
    decreases s.len(),
{
    if s.len() == 0 {
        None
    } else if s[0] == '"' {
        Some((Seq::empty(), 1))
    } else if s[0] == '\\' {
        if s.len() < 2 {
            None
        } else {
            match unescape_char(s[1]) {
                Some(c) => match spec_parse_str_body(s.skip(2)) {
                    Some((t, k)) => Some((seq![c] + t, (k + 2) as nat)),
                    None => None,
                },
                None => None,
            }
        }
    } else {
        match spec_parse_str_body(s.skip(1)) {
            Some((t, k)) => Some((seq![s[0]] + t, (k + 1) as nat)),
            None => None,
        }
    }
}

/// Parse a quoted string: both quotes and the unescaped contents.
pub open spec fn spec_parse_string(s: Seq<char>) -> Option<(Seq<char>, nat)> {
    if s.len() > 0 && s[0] == '"' {
        match spec_parse_str_body(s.skip(1)) {
            Some((t, k)) => Some((t, (k + 1) as nat)),
            None => None,
        }
    } else {
        None
    }
}

pub fn parse_string(text: &str, p: usize) -> (r: Option<(String, usize)>)
    requires
        p <= text@.len(),
    ensures
        match r {
            Some((out, q)) => {
                &&& spec_parse_string(text@.skip(p as int)) == Some((out@, (q - p) as nat))
                &&& p < q <= text@.len()
            },
            None => spec_parse_string(text@.skip(p as int)) is None,
        },
{
    let n = text.unicode_len();
    if p >= n || text.get_char(p) != '"' {
        proof {
            if text@.skip(p as int).len() > 0 {
                assert(text@.skip(p as int)[0] == text@[p as int]);
            }
        }
        return None;
    }
    proof {
        assert(text@.skip(p as int)[0] == '"');
        assert(text@.skip(p as int).skip(1) =~= text@.skip(p + 1 as int));
    }
    let mut i: usize = p + 1;
    let mut acc = String::new();
    proof {
        assert forall|t: Seq<char>| #[trigger] (acc@ + t) == t by {
            assert(acc@ + t =~= t);
        }
    }
    loop
        invariant
            p < n,
            p + 1 <= i <= n,
            n as nat == text@.len(),
            text@.skip(p as int)[0] == '"',
            text@.skip(p as int).skip(1) == text@.skip(p + 1 as int),
            ({
                let rem = spec_parse_str_body(text@.skip(i as int));
                let whole = spec_parse_str_body(text@.skip(p + 1 as int));
                match rem {
                    Some((t, k)) => whole == Some(
                        (acc@ + t, ((i - p - 1) as nat + k) as nat),
                    ),
                    None => whole is None,
                }
            }),
        decreases n - i,
    {
        proof {
            assert(text@.skip(i as int).len() == n - i);
        }
        if i >= n {
            return None;
        }
        let c = text.get_char(i);
        proof {
            assert(text@.skip(i as int)[0] == c);
        }
        if c == '"' {
            proof {
                assert(spec_parse_str_body(text@.skip(i as int)) == Some(
                    (Seq::<char>::empty(), 1nat),
                ));
                assert(acc@ + Seq::<char>::empty() =~= acc@);
            }
            return Some((acc, i + 1));
        } else if c == '\\' {
            if i + 1 >= n {
                proof {
                    assert(text@.skip(i as int).len() < 2);
                }
                return None;
            }
            let e = text.get_char(i + 1);
            proof {
                assert(text@.skip(i as int)[1] == e);
                assert(text@.skip(i as int).skip(2) =~= text@.skip(i + 2 as int));
            }
            let u = if e == '"' {
                '"'
            } else if e == '\\' {
                '\\'
            } else if e == 'n' {
                '\n'
            } else if e == 'r' {
                '\r'
            } else if e == 't' {
                '\t'
            } else {
                return None;
            };
            proof {
                assert(unescape_char(e) == Some(u));
            }
            let ghost acc0 = acc@;
            push_char(&mut acc, u);
            proof {
                match spec_parse_str_body(text@.skip(i + 2 as int)) {
                    Some((t, k)) => {
                        assert(spec_parse_str_body(text@.skip(i as int)) == Some(
                            (seq![u] + t, (k + 2) as nat),
                        ));
                        assert(acc@ + t =~= acc0 + (seq![u] + t));
                    },
                    None => {
                        assert(spec_parse_str_body(text@.skip(i as int)) is None);
                    },
                }
            }
            i = i + 2;
        } else {
            let ghost acc0 = acc@;
            push_char(&mut acc, c);
            proof {
                assert(text@.skip(i as int).skip(1) =~= text@.skip(i + 1 as int));
                match spec_parse_str_body(text@.skip(i + 1 as int)) {
                    Some((t, k)) => {
                        assert(spec_parse_str_body(text@.skip(i as int)) == Some(
                            (seq![c] + t, (k + 1) as nat),
                        ));
                        assert(acc@ + t =~= acc0 + (seq![c] + t));
                    },
                    None => {
                        assert(spec_parse_str_body(text@.skip(i as int)) is None);
                    },
                }
            }
            i = i + 1;
        }
    }
}

/// Escaping a string and parsing it back gives the string again.
pub proof fn lemma_parse_str_body_round_trip(x: Seq<char>, rest: Seq<char>)
    ensures
        spec_parse_str_body(escape_str(x) + seq!['"'] + rest) == Some(
            (x, (escape_str(x).len() + 1) as nat),
        ),
    decreases x.len(),
{
    let s = escape_str(x) + seq!['"'] + rest;
    if x.len() == 0 {
        assert(s =~= seq!['"'] + rest);
        assert(s[0] == '"');
    } else {
        lemma_parse_str_body_round_trip(x.drop_first(), rest);
        let c = x[0];
        let tail = escape_str(x.drop_first()) + seq!['"'] + rest;
        if c == '"' || c == '\\' || c == '\n' || c == '\r' || c == '\t' {
            assert(s[0] == '\\');
            assert(unescape_char(s[1]) == Some(c));
            assert(s.skip(2) =~= tail);
            assert(seq![c] + x.drop_first() =~= x);
        } else {
            assert(s[0] == c);
            assert(c != '"' && c != '\\');
            assert(s.skip(1) =~= tail);
            assert(seq![c] + x.drop_first() =~= x);
        }
    }
}

/// A quoted string round-trips through the parser, whatever follows it.
pub proof fn lemma_parse_string_round_trip(x: Seq<char>, rest: Seq<char>)
    ensures
        spec_parse_string(quoted(x) + rest) == Some((x, quoted(x).len())),
{
    let s = quoted(x) + rest;
    assert(s[0] == '"');
    lemma_parse_str_body_round_trip(x, rest);
    assert(s.skip(1) =~= escape_str(x) + seq!['"'] + rest);
}

// ---------------------------------------------------------------------------
// Fixed text
// ---------------------------------------------------------------------------

pub open spec fn starts_with(s: Seq<char>, pre: Seq<char>) -> bool {
    pre.len() <= s.len() && s.take(pre.len() as int) == pre
}

/// Match the fixed text `lit` at position `p`, yielding the position after it.
pub fn expect_lit(text: &str, p: usize, lit: &str) -> (r: Option<usize>)
    requires
        p <= text@.len(),
    ensures
        match r {
            Some(q) => {
                &&& starts_with(text@.skip(p as int), lit@)
                &&& q == p + lit@.len()
                &&& q <= text@.len()
            },
            None => !starts_with(text@.skip(p as int), lit@),
        },
{
    let n = text.unicode_len();
    let m = lit.unicode_len();
    if m > n - p {
        return None;
    }
    let mut j: usize = 0;
    while j < m
        invariant
            0 <= j <= m,
            p + m <= n,
            n as nat == text@.len(),
            m as nat == lit@.len(),
            forall|k: int| 0 <= k < j ==> text@.skip(p as int)[k] == lit@[k],
        decreases m - j,
    {
        let a = text.get_char(p + j);
        let b = lit.get_char(j);
        if a != b {
            proof {
                assert(text@.skip(p as int)[j as int] == a);
                if starts_with(text@.skip(p as int), lit@) {
                    assert(text@.skip(p as int).take(m as int)[j as int] == lit@[j as int]);
                }
            }
            return None;
        }
        proof {
            assert(text@.skip(p as int)[j as int] == a);
        }
        j = j + 1;
    }
    proof {
        assert(text@.skip(p as int).take(m as int) =~= lit@);
    }
    Some(p + m)
}

} // verus!
