//! JSON numbers, kept as canonical decimal text.
use vstd::prelude::*;
use crate::text::{decimal, is_digit, is_digit_char, push_decimal};
use vstd::std_specs::cmp::PartialEqSpecImpl;
use vstd::std_specs::iter::IteratorSpec;

verus! {

/// A character that may stand in the text of a number: a digit, `.` or `-`.
pub open spec fn is_number_char(c: char) -> bool {
    is_digit(c) || c == '.' || c == '-'
}

/// How many `.` characters a text holds.
pub open spec fn count_dots(s: Seq<char>) -> nat
    decreases s.len(),
{
    if s.len() == 0 {
        0
    } else {
        count_dots(s.drop_last()) + if s.last() == '.' {
            1nat
        } else {
            0nat
        }
    }
}

/// An unsigned decimal: `Digit+` or `Digit+ '.' Digit*`. A digit must stand
/// before the point.
pub open spec fn valid_unsigned_decimal(b: Seq<char>) -> bool {
    &&& b.len() > 0
    &&& forall|i: int| 0 <= i < b.len() ==> (is_digit(#[trigger] b[i]) || b[i] == '.')
    &&& count_dots(b) <= 1
    &&& is_digit(b[0])
}

/// A number text: an optional `-` followed by an unsigned decimal, so
/// `-?Digit+('.'Digit*)?`.
pub open spec fn valid_number(s: Seq<char>) -> bool {
    if s.len() > 0 && s[0] == '-' {
        valid_unsigned_decimal(s.drop_first())
    } else {
        valid_unsigned_decimal(s)
    }
}

/// The position of the first `.` at or after `j`, or the length.
pub open spec fn find_dot(s: Seq<char>, j: int) -> int
    decreases s.len() - j,
{
    if 0 <= j < s.len() && s[j] != '.' {
        find_dot(s, j + 1)
    } else {
        j
    }
}

/// The position of the first character other than `0` in `[j, d)`, or `d`.
pub open spec fn skip_zeros(s: Seq<char>, j: int, d: int) -> int
    decreases d - j,
{
    if j < d && s[j] == '0' {
        skip_zeros(s, j + 1, d)
    } else {
        j
    }
}

/// The end of `s[lo..e]` once its trailing `0` characters are cut.
pub open spec fn trim_zeros(s: Seq<char>, e: int, lo: int) -> int
    decreases e - lo,
{
    if e > lo && s[e - 1] == '0' {
        trim_zeros(s, e - 1, lo)
    } else {
        e
    }
}

/// The length of the sign of a number text: 1 where it starts with `-`.
pub open spec fn sign_len(s: Seq<char>) -> int {
    if s.len() > 0 && s[0] == '-' {
        1
    } else {
        0
    }
}

/// The integer digits of a number text without leading zeros, or `0`
/// where none is left.
pub open spec fn int_part(s: Seq<char>) -> Seq<char> {
    let d = find_dot(s, sign_len(s));
    let i = skip_zeros(s, sign_len(s), d);
    if i == d {
        seq!['0']
    } else {
        s.subrange(i, d)
    }
}

/// The fraction digits of a number text without trailing zeros.
pub open spec fn frac_part(s: Seq<char>) -> Seq<char> {
    let d = find_dot(s, sign_len(s));
    if d < s.len() {
        s.subrange(d + 1, trim_zeros(s, s.len() as int, d + 1))
    } else {
        seq![]
    }
}

/// A number text put together from a sign, integer digits and fraction
/// digits; the `.` stands only where fraction digits follow.
pub open spec fn assemble(neg: bool, ints: Seq<char>, frac: Seq<char>) -> Seq<char> {
    (if neg {
        seq!['-']
    } else {
        seq![]
    }) + ints + (if frac.len() > 0 {
        seq!['.'] + frac
    } else {
        seq![]
    })
}

/// The canonical text of a number text: its sign, its integer digits
/// without leading zeros (`0` where none is left), and its fraction digits
/// without trailing zeros after a `.` (where any is left). Two number texts
/// of the same decimal value have the same canonical text, except that the
/// sign of a zero is kept.
pub open spec fn canonical_number(s: Seq<char>) -> Seq<char> {
    assemble(sign_len(s) == 1, int_part(s), frac_part(s))
}

/// The digits of a number from its first non-zero digit to its last, given
/// its canonical integer and fraction digits (empty for zero).
pub open spec fn significant_digits(ints: Seq<char>, frac: Seq<char>) -> Seq<char> {
    if ints == seq!['0'] {
        frac.subrange(skip_zeros(frac, 0, frac.len() as int), frac.len() as int)
    } else if frac.len() > 0 {
        ints + frac
    } else {
        ints.subrange(0, trim_zeros(ints, ints.len() as int, 1))
    }
}

/// The power of ten of the first significant digit, given the canonical
/// integer and fraction digits of a non-zero number.
pub open spec fn decimal_exponent(ints: Seq<char>, frac: Seq<char>) -> int {
    if ints == seq!['0'] {
        -(skip_zeros(frac, 0, frac.len() as int) + 1)
    } else {
        ints.len() - 1
    }
}

/// How a number shows in `Debug` form, as a float's `Debug` form writes the
/// number with these digits: a non-zero number below `1e-4` or from `1e16`
/// on in magnitude in exponent form (`1.5e16`, `-2e-5`), any other with at
/// least one fraction digit (`2.0`, `0.25`). The digits are those of the
/// text; a float keeps at most about 17 of them.
pub open spec fn number_debug(n: Seq<char>) -> Seq<char> {
    let ints = int_part(n);
    let frac = frac_part(n);
    let digits = significant_digits(ints, frac);
    let e = decimal_exponent(ints, frac);
    if digits.len() > 0 && (e >= 16 || e < -4) {
        (if sign_len(n) == 1 {
            seq!['-']
        } else {
            seq![]
        }) + seq![digits[0]] + (if digits.len() > 1 {
            seq!['.'] + digits.drop_first()
        } else {
            seq![]
        }) + seq!['e'] + (if e < 0 {
            seq!['-']
        } else {
            seq![]
        }) + decimal((if e < 0 {
            -e
        } else {
            e
        }) as nat)
    } else if frac.len() > 0 {
        n
    } else {
        n + seq!['.', '0']
    }
}

/// Digits that the canonical form keeps: integer digits without a leading
/// zero (or the single `0`), fraction digits without a trailing zero.
pub open spec fn canonical_parts(ints: Seq<char>, frac: Seq<char>) -> bool {
    &&& ints.len() > 0
    &&& forall|k: int| 0 <= k < ints.len() ==> is_digit(#[trigger] ints[k])
    &&& (ints[0] != '0' || ints == seq!['0'])
    &&& forall|k: int| 0 <= k < frac.len() ==> is_digit(#[trigger] frac[k])
    &&& (frac.len() > 0 ==> frac.last() != '0')
}

/// A number text of zero: `0` or `-0`.
pub open spec fn is_zero_text(n: Seq<char>) -> bool {
    n == seq!['0'] || n == seq!['-', '0']
}

/// Whether two number texts of the library stand for the same number: the
/// same canonical text, or zero with either sign.
pub open spec fn same_number(a: Seq<char>, b: Seq<char>) -> bool {
    a == b || (is_zero_text(a) && is_zero_text(b))
}

/// The text of a number as the library holds it: a valid number text in
/// canonical form.
pub open spec fn number_text(s: Seq<char>) -> bool {
    &&& valid_number(s)
    &&& canonical_number(s) == s
}

proof fn lemma_count_dots_push(s: Seq<char>, c: char)
    ensures
        count_dots(s.push(c)) == count_dots(s) + if c == '.' {
            1nat
        } else {
            0nat
        },
{
    assert(s.push(c).drop_last() =~= s);
}

proof fn lemma_count_dots_concat(a: Seq<char>, b: Seq<char>)
    ensures
        count_dots(a + b) == count_dots(a) + count_dots(b),
    decreases b.len(),
{
    if b.len() == 0 {
        assert(a + b =~= a);
    } else {
        lemma_count_dots_concat(a, b.drop_last());
        assert((a + b).drop_last() =~= a + b.drop_last());
    }
}

proof fn lemma_count_dots_none(a: Seq<char>)
    requires
        forall|i: int| 0 <= i < a.len() ==> #[trigger] a[i] != '.',
    ensures
        count_dots(a) == 0,
    decreases a.len(),
{
    if a.len() > 0 {
        lemma_count_dots_none(a.drop_last());
    }
}

/// A text with `.` at two places holds at least two dots.
proof fn lemma_two_dots(b: Seq<char>, p: int, q: int)
    requires
        0 <= p < q < b.len(),
        b[p] == '.',
        b[q] == '.',
    ensures
        count_dots(b) >= 2,
{
    lemma_count_dots_prefix(b, q + 1);
    assert(b.subrange(0, q + 1) =~= b.subrange(0, q).push(b[q]));
    lemma_count_dots_push(b.subrange(0, q), b[q]);
    lemma_count_dots_prefix(b.subrange(0, q), p + 1);
    assert(b.subrange(0, q).subrange(0, p + 1) =~= b.subrange(0, p).push(b[p]));
    lemma_count_dots_push(b.subrange(0, p), b[p]);
}

proof fn lemma_find_dot(s: Seq<char>, j: int)
    requires
        0 <= j <= s.len(),
    ensures
        j <= find_dot(s, j) <= s.len(),
        forall|k: int| j <= k < find_dot(s, j) ==> #[trigger] s[k] != '.',
        find_dot(s, j) < s.len() ==> s[find_dot(s, j)] == '.',
    decreases s.len() - j,
{
    if j < s.len() && s[j] != '.' {
        lemma_find_dot(s, j + 1);
    }
}

proof fn lemma_find_dot_exact(s: Seq<char>, j: int, t: int)
    requires
        0 <= j <= t <= s.len(),
        forall|k: int| j <= k < t ==> #[trigger] s[k] != '.',
        t == s.len() || s[t] == '.',
    ensures
        find_dot(s, j) == t,
    decreases t - j,
{
    if j < t {
        lemma_find_dot_exact(s, j + 1, t);
    }
}

proof fn lemma_skip_zeros(s: Seq<char>, j: int, d: int)
    requires
        0 <= j <= d <= s.len(),
    ensures
        j <= skip_zeros(s, j, d) <= d,
        forall|k: int| j <= k < skip_zeros(s, j, d) ==> #[trigger] s[k] == '0',
        skip_zeros(s, j, d) < d ==> s[skip_zeros(s, j, d)] != '0',
    decreases d - j,
{
    if j < d && s[j] == '0' {
        lemma_skip_zeros(s, j + 1, d);
    }
}

proof fn lemma_trim_zeros(s: Seq<char>, e: int, lo: int)
    requires
        0 <= lo <= e <= s.len(),
    ensures
        lo <= trim_zeros(s, e, lo) <= e,
        trim_zeros(s, e, lo) > lo ==> s[trim_zeros(s, e, lo) - 1] != '0',
    decreases e - lo,
{
    if e > lo && s[e - 1] == '0' {
        lemma_trim_zeros(s, e - 1, lo);
    }
}

/// The parts that the canonical form takes from a valid number text are
/// canonical parts.
proof fn lemma_parts(x: Seq<char>)
    requires
        valid_number(x),
    ensures
        canonical_parts(int_part(x), frac_part(x)),
{
    let b0 = sign_len(x);
    let n = x.len() as int;
    let body = if b0 == 1 {
        x.drop_first()
    } else {
        x
    };
    assert(body =~= x.subrange(b0, n));
    assert forall|k: int| b0 <= k < n implies is_digit(#[trigger] x[k]) || x[k] == '.' by {
        assert(body[k - b0] == x[k]);
    }
    lemma_find_dot(x, b0);
    let d = find_dot(x, b0);
    lemma_skip_zeros(x, b0, d);
    let i = skip_zeros(x, b0, d);
    assert forall|k: int| d < k < n implies is_digit(#[trigger] x[k]) by {
        if x[k] == '.' {
            lemma_two_dots(body, d - b0, k - b0);
            assert(body[d - b0] == x[d]);
            assert(body[k - b0] == x[k]);
        }
    }
    let ints = int_part(x);
    assert forall|k: int| 0 <= k < ints.len() implies is_digit(#[trigger] ints[k]) by {
        if i < d {
            assert(ints[k] == x[i + k]);
        }
    }
    let frac = frac_part(x);
    if d < n {
        lemma_trim_zeros(x, n, d + 1);
        let e = trim_zeros(x, n, d + 1);
        assert forall|k: int| 0 <= k < frac.len() implies is_digit(#[trigger] frac[k]) by {
            assert(frac[k] == x[d + 1 + k]);
        }
        if frac.len() > 0 {
            assert(frac.last() == x[e - 1]);
        }
    }
}

/// A text put together from canonical parts is a valid number text.
proof fn lemma_assemble_valid(neg: bool, ints: Seq<char>, frac: Seq<char>)
    requires
        canonical_parts(ints, frac),
    ensures
        valid_number(assemble(neg, ints, frac)),
{
    let tail = if frac.len() > 0 {
        seq!['.'] + frac
    } else {
        seq![]
    };
    let cb = ints + tail;
    let c = assemble(neg, ints, frac);
    assert forall|k: int| 0 <= k < cb.len() implies is_digit(#[trigger] cb[k]) || cb[k] == '.' by {
        if k < ints.len() {
            assert(cb[k] == ints[k]);
        } else if k > ints.len() {
            assert(cb[k] == frac[k - ints.len() - 1]);
        }
    }
    lemma_count_dots_none(ints);
    lemma_count_dots_concat(ints, tail);
    if frac.len() > 0 {
        lemma_count_dots_none(frac);
        lemma_count_dots_concat(seq!['.'], frac);
        assert(seq!['.'].drop_last() =~= Seq::<char>::empty());
        assert(count_dots(Seq::<char>::empty()) == 0);
        assert(seq!['.'].last() == '.');
        assert(count_dots(seq!['.']) == 1);
        assert(count_dots(tail) == 1);
    } else {
        lemma_count_dots_none(tail);
    }
    assert(count_dots(cb) <= 1);
    assert(cb[0] == ints[0]);
    assert(valid_unsigned_decimal(cb));
    if neg {
        assert(c.drop_first() =~= cb);
        assert(c[0] == '-');
    } else {
        assert(c =~= cb);
    }
}

/// A text put together from canonical parts gives back the same parts.
proof fn lemma_assemble_parts(neg: bool, ints: Seq<char>, frac: Seq<char>)
    requires
        canonical_parts(ints, frac),
    ensures
        sign_len(assemble(neg, ints, frac)) == (if neg { 1int } else { 0int }),
        int_part(assemble(neg, ints, frac)) == ints,
        frac_part(assemble(neg, ints, frac)) == frac,
{
    let c = assemble(neg, ints, frac);
    let b1: int = if neg {
        1
    } else {
        0
    };
    assert(c[b1] == ints[0]);
    assert(sign_len(c) == b1);
    let d1 = b1 + ints.len();
    assert forall|k: int| b1 <= k < d1 implies #[trigger] c[k] != '.' by {
        assert(c[k] == ints[k - b1]);
    }
    if frac.len() > 0 {
        assert(c[d1] == '.');
    }
    lemma_find_dot_exact(c, b1, d1);
    if ints == seq!['0'] {
        assert(c[b1] == '0');
        assert(skip_zeros(c, b1 + 1, d1) == d1);
        assert(skip_zeros(c, b1, d1) == d1);
    } else {
        assert(skip_zeros(c, b1, d1) == b1);
        assert(c.subrange(b1, d1) =~= ints);
    }
    if frac.len() > 0 {
        assert(c.len() == d1 + 1 + frac.len());
        assert(c[c.len() - 1] == frac.last());
        assert(trim_zeros(c, c.len() as int, d1 + 1) == c.len());
        assert(c.subrange(d1 + 1, c.len() as int) =~= frac);
    } else {
        assert(c.len() == d1);
    }
}

/// The canonical text of a valid number text is a number text of the
/// library: valid, and its own canonical text.
pub proof fn lemma_canonical_number(x: Seq<char>)
    requires
        valid_number(x),
    ensures
        number_text(canonical_number(x)),
        canonical_number(x).len() > 0,
        is_digit(canonical_number(x)[0]) || canonical_number(x)[0] == '-',
{
    let neg = sign_len(x) == 1;
    lemma_parts(x);
    lemma_assemble_valid(neg, int_part(x), frac_part(x));
    lemma_assemble_parts(neg, int_part(x), frac_part(x));
    let c = canonical_number(x);
    if neg {
        assert(c[0] == '-');
    } else {
        assert(c[0] == int_part(x)[0]);
    }
}

/// The canonical text of `chars[start..end]`, which must be a valid number text.
fn canonical_chars(chars: &Vec<char>, start: usize, end: usize) -> (r: String)
    requires
        start <= end <= chars@.len(),
        valid_number(chars@.subrange(start as int, end as int)),
    ensures
        r@ == canonical_number(chars@.subrange(start as int, end as int)),
{
    let ghost x = chars@.subrange(start as int, end as int);
    let n = end - start;
    let neg = n > 0 && chars[start] == '-';
    let b0: usize = if neg {
        1
    } else {
        0
    };
    let mut d = b0;
    while d < n && chars[start + d] != '.'
        invariant
            b0 <= d <= n,
            n == x.len(),
            start + n <= chars@.len(),
            x == chars@.subrange(start as int, end as int),
            end == start + n,
            find_dot(x, b0 as int) == find_dot(x, d as int),
        decreases n - d,
    {
        assert(x[d as int] == chars@[start + d]);
        d = d + 1;
    }
    proof {
        if d < n {
            assert(x[d as int] == chars@[start + d]);
        }
    }
    let mut i = b0;
    while i < d && chars[start + i] == '0'
        invariant
            b0 <= i <= d <= n,
            n == x.len(),
            start + n <= chars@.len(),
            x == chars@.subrange(start as int, end as int),
            end == start + n,
            skip_zeros(x, b0 as int, d as int) == skip_zeros(x, i as int, d as int),
        decreases d - i,
    {
        assert(x[i as int] == chars@[start + i]);
        i = i + 1;
    }
    proof {
        if i < d {
            assert(x[i as int] == chars@[start + i]);
        }
    }
    let mut e = n;
    if d < n {
        while e > d + 1 && chars[start + e - 1] == '0'
            invariant
                d + 1 <= e <= n,
                n == x.len(),
                start + n <= chars@.len(),
                x == chars@.subrange(start as int, end as int),
                end == start + n,
                trim_zeros(x, n as int, d + 1) == trim_zeros(x, e as int, d + 1),
            decreases e,
        {
            assert(x[e - 1] == chars@[start + e - 1]);
            e = e - 1;
        }
        proof {
            if e > d + 1 {
                assert(x[e - 1] == chars@[start + e - 1]);
            }
        }
    }
    let mut r = String::new();
    if neg {
        r.push('-');
    }
    let ghost sg = r@;
    if i == d {
        r.push('0');
    } else {
        let mut k = i;
        while k < d
            invariant
                i <= k <= d <= n,
                n == x.len(),
                start + n <= chars@.len(),
                x == chars@.subrange(start as int, end as int),
                end == start + n,
                r@ == sg + x.subrange(i as int, k as int),
            decreases d - k,
        {
            r.push(chars[start + k]);
            assert(x.subrange(i as int, k + 1) =~= x.subrange(i as int, k as int).push(x[k as int]));
            assert(x[k as int] == chars@[start + k]);
            k = k + 1;
        }
    }
    let ghost head = r@;
    if d < n && e > d + 1 {
        r.push('.');
        let mut k = d + 1;
        while k < e
            invariant
                d + 1 <= k <= e <= n,
                n == x.len(),
                start + n <= chars@.len(),
                x == chars@.subrange(start as int, end as int),
                end == start + n,
                r@ == head + seq!['.'] + x.subrange(d + 1, k as int),
            decreases e - k,
        {
            r.push(chars[start + k]);
            assert(x.subrange(d + 1, k + 1) =~= x.subrange(d + 1, k as int).push(x[k as int]));
            assert(x[k as int] == chars@[start + k]);
            k = k + 1;
        }
    }
    proof {
        assert(b0 == 1 <==> (x.len() > 0 && x[0] == '-'));
        assert(r@ =~= canonical_number(x));
    }
    r
}

/// The position of the first `.` in `chars` at or after `from`, or the length.
fn find_dot_char(chars: &Vec<char>, from: usize) -> (d: usize)
    requires
        from <= chars@.len(),
    ensures
        d == find_dot(chars@, from as int),
{
    let mut d = from;
    while d < chars.len() && chars[d] != '.'
        invariant
            from <= d <= chars@.len(),
            find_dot(chars@, from as int) == find_dot(chars@, d as int),
        decreases chars@.len() - d,
    {
        d = d + 1;
    }
    d
}

/// The position of the first character other than `0` in `chars[from..to]`,
/// or `to`.
fn skip_zero_chars(chars: &Vec<char>, from: usize, to: usize) -> (s: usize)
    requires
        from <= to <= chars@.len(),
    ensures
        from <= s <= to,
        s - from == skip_zeros(chars@.subrange(from as int, to as int), 0, to - from),
{
    let ghost sub = chars@.subrange(from as int, to as int);
    let mut s = from;
    while s < to && chars[s] == '0'
        invariant
            from <= s <= to <= chars@.len(),
            sub == chars@.subrange(from as int, to as int),
            skip_zeros(sub, 0, to - from) == skip_zeros(sub, s - from, to - from),
        decreases to - s,
    {
        assert(sub[s - from] == chars@[s as int]);
        s = s + 1;
    }
    proof {
        if s < to {
            assert(sub[s - from] == chars@[s as int]);
        }
    }
    s
}

/// The end of `chars[from..to]` once its trailing `0` characters are cut,
/// keeping the first character.
fn trim_zero_chars(chars: &Vec<char>, from: usize, to: usize) -> (t: usize)
    requires
        from < to <= chars@.len(),
    ensures
        from + 1 <= t <= to,
        t - from == trim_zeros(chars@.subrange(from as int, to as int), to - from, 1),
{
    let ghost sub = chars@.subrange(from as int, to as int);
    let mut t = to;
    while t > from + 1 && chars[t - 1] == '0'
        invariant
            from + 1 <= t <= to <= chars@.len(),
            sub == chars@.subrange(from as int, to as int),
            trim_zeros(sub, to - from, 1) == trim_zeros(sub, t - from, 1),
        decreases t,
    {
        assert(sub[t - 1 - from] == chars@[t - 1]);
        t = t - 1;
    }
    proof {
        if t > from + 1 {
            assert(sub[t - 1 - from] == chars@[t - 1]);
        }
    }
    t
}

/// The exponent form `[-]D[.DDD]e[-]N` of the significant digits
/// `chars[f..t]` (followed by `chars[d+1..]` where `join` holds) with the
/// exponent `e_abs`, negative where `e_neg` holds.
#[verifier::spinoff_prover]
fn exponent_form(
    chars: &Vec<char>,
    neg: bool,
    f: usize,
    t: usize,
    join: bool,
    d: usize,
    e_neg: bool,
    e_abs: usize,
) -> (r: String)
    requires
        f < t <= chars@.len(),
        join ==> d < chars@.len(),
    ensures
        ({
            let x = chars@;
            let rest = if join {
                x.subrange(f + 1, t as int) + x.subrange(d + 1, x.len() as int)
            } else {
                x.subrange(f + 1, t as int)
            };
            r@ == (if neg {
                seq!['-']
            } else {
                seq![]
            }) + seq![x[f as int]] + (if rest.len() > 0 {
                seq!['.'] + rest
            } else {
                seq![]
            }) + seq!['e'] + (if e_neg {
                seq!['-']
            } else {
                seq![]
            }) + decimal(e_abs as nat)
        }),
{
    let ghost x = chars@;
    let n = chars.len();
    let ghost sg: Seq<char> = if neg {
        seq!['-']
    } else {
        seq![]
    };
    let ghost rest = if join {
        x.subrange(f + 1, t as int) + x.subrange(d + 1, x.len() as int)
    } else {
        x.subrange(f + 1, t as int)
    };
    let ghost tail: Seq<char> = if rest.len() > 0 {
        seq!['.'] + rest
    } else {
        seq![]
    };
    let ghost es: Seq<char> = if e_neg {
        seq!['-']
    } else {
        seq![]
    };
    let mut r = String::new();
    if neg {
        r.push('-');
    }
    assert(r@ =~= sg);
    r.push(chars[f]);
    let ghost head = r@;
    assert(head =~= sg + seq![x[f as int]]);
    if t > f + 1 || (join && d + 1 < n) {
        r.push('.');
        push_range(&mut r, chars, f + 1, t);
        if join {
            push_range(&mut r, chars, d + 1, n);
        }
        assert(r@ =~= head + tail);
    } else {
        assert(rest.len() == 0);
        assert(r@ =~= head + tail);
    }
    let ghost mantissa = r@;
    r.push('e');
    if e_neg {
        r.push('-');
    }
    assert(r@ =~= mantissa + seq!['e'] + es);
    push_decimal(&mut r, e_abs);
    assert(r@ =~= sg + seq![x[f as int]] + tail + seq!['e'] + es + decimal(e_abs as nat));
    r
}

/// Where the significant digits and the exponent of a number text of the
/// library stand in its text.
proof fn lemma_significant(x: Seq<char>)
    requires
        number_text(x),
    ensures
        ({
            let ints = int_part(x);
            let frac = frac_part(x);
            let b = sign_len(x);
            let d = b + ints.len();
            let digits = significant_digits(ints, frac);
            let e = decimal_exponent(ints, frac);
            &&& canonical_parts(ints, frac)
            &&& x.subrange(b, d) == ints
            &&& find_dot(x, b) == d
            &&& d <= x.len()
            &&& (frac.len() > 0 <==> d < x.len())
            &&& frac.len() > 0 ==> x.subrange(d + 1, x.len() as int) == frac
            &&& frac.len() == 0 ==> x.len() == d
            &&& (ints == seq!['0'] && frac.len() == 0) ==> digits.len() == 0
            &&& (ints == seq!['0'] && frac.len() > 0) ==> {
                let s = d + 1 + skip_zeros(frac, 0, frac.len() as int);
                &&& s < x.len()
                &&& digits == x.subrange(s, x.len() as int)
                &&& e == -(s - d)
            }
            &&& (ints != seq!['0'] && frac.len() > 0) ==> {
                &&& digits == x.subrange(b, d) + x.subrange(d + 1, x.len() as int)
                &&& e == d - b - 1
            }
            &&& (ints != seq!['0'] && frac.len() == 0) ==> {
                let t = b + trim_zeros(ints, ints.len() as int, 1);
                &&& b + 1 <= t <= d
                &&& digits == x.subrange(b, t)
                &&& e == d - b - 1
            }
        }),
{
    let ints = int_part(x);
    let frac = frac_part(x);
    let neg = sign_len(x) == 1;
    lemma_parts(x);
    assert(x == assemble(neg, ints, frac));
    lemma_layout(neg, ints, frac);
    let b = sign_len(x);
    let d = b + ints.len();
    if frac.len() > 0 {
        assert(x[d] == '.');
    }
    lemma_find_dot_exact(x, b, d);
    if ints == seq!['0'] && frac.len() > 0 {
        lemma_skip_zeros(frac, 0, frac.len() as int);
        let z = skip_zeros(frac, 0, frac.len() as int);
        if z == frac.len() {
            assert(frac[frac.len() - 1] == '0');
        }
        assert(frac.subrange(z, frac.len() as int) =~= x.subrange(d + 1 + z, x.len() as int));
    }
    if ints != seq!['0'] && frac.len() == 0 {
        lemma_trim_zeros(ints, ints.len() as int, 1);
        let t = trim_zeros(ints, ints.len() as int, 1);
        assert(ints.subrange(0, t) =~= x.subrange(b, b + t));
    }
}

/// Appends `chars[from..to]` to `out`.
fn push_range(out: &mut String, chars: &Vec<char>, from: usize, to: usize)
    requires
        from <= to <= chars@.len(),
    ensures
        final(out)@ == old(out)@ + chars@.subrange(from as int, to as int),
{
    let ghost start = out@;
    let mut k = from;
    while k < to
        invariant
            from <= k <= to <= chars@.len(),
            out@ == start + chars@.subrange(from as int, k as int),
        decreases to - k,
    {
        out.push(chars[k]);
        assert(chars@.subrange(from as int, k + 1) =~= chars@.subrange(from as int, k as int).push(
            chars@[k as int],
        ));
        k = k + 1;
    }
}

/// Where the parts stand in a text put together from canonical parts.
proof fn lemma_layout(neg: bool, ints: Seq<char>, frac: Seq<char>)
    requires
        canonical_parts(ints, frac),
    ensures
        ({
            let x = assemble(neg, ints, frac);
            let b: int = if neg {
                1
            } else {
                0
            };
            let d = b + ints.len();
            &&& x.subrange(b, d) == ints
            &&& forall|k: int| b <= k < d ==> #[trigger] x[k] != '.'
            &&& frac.len() > 0 ==> x.len() == d + 1 + frac.len() && x[d] == '.' && x.subrange(
                d + 1,
                x.len() as int,
            ) == frac
            &&& frac.len() == 0 ==> x.len() == d
        }),
{
    let x = assemble(neg, ints, frac);
    let b: int = if neg {
        1
    } else {
        0
    };
    let d = b + ints.len();
    assert(x.subrange(b, d) =~= ints);
    assert forall|k: int| b <= k < d implies #[trigger] x[k] != '.' by {
        assert(x[k] == ints[k - b]);
    }
    if frac.len() > 0 {
        assert(x.subrange(d + 1, x.len() as int) =~= frac);
    }
}

/// Whether `chars[start..end]` is a valid number text.
pub fn is_valid_number_text(chars: &Vec<char>, start: usize, end: usize) -> (b: bool)
    requires
        start <= end <= chars@.len(),
    ensures
        b == valid_number(chars@.subrange(start as int, end as int)),
{
    let ghost s = chars@.subrange(start as int, end as int);
    let mut body_start = start;
    if start < end && chars[start] == '-' {
        body_start = start + 1;
    }
    let ghost b = chars@.subrange(body_start as int, end as int);
    assert(valid_number(s) == valid_unsigned_decimal(b)) by {
        if start < end && chars@[start as int] == '-' {
            assert(s.drop_first() =~= b);
        } else {
            assert(s =~= b);
        }
    }
    if body_start == end {
        return false;
    }
    let mut dots: usize = 0;
    let mut i = body_start;
    while i < end
        invariant
            body_start <= i <= end <= chars@.len(),
            b == chars@.subrange(body_start as int, end as int),
            valid_number(chars@.subrange(start as int, end as int)) == valid_unsigned_decimal(b),
            dots == count_dots(chars@.subrange(body_start as int, i as int)),
            dots <= 1,
            forall|k: int| body_start <= k < i ==> (is_digit(#[trigger] chars@[k]) || chars@[k] == '.'),
        decreases end - i,
    {
        let c = chars[i];
        proof {
            assert(chars@.subrange(body_start as int, i + 1) =~= chars@.subrange(
                body_start as int,
                i as int,
            ).push(c));
            lemma_count_dots_push(chars@.subrange(body_start as int, i as int), c);
        }
        if c == '.' {
            if dots == 1 {
                proof {
                    assert(b.subrange(0, i + 1 - body_start) =~= chars@.subrange(
                        body_start as int,
                        i + 1,
                    ));
                    lemma_count_dots_prefix(b, i + 1 - body_start);
                    assert(count_dots(b) >= 2);
                }
                return false;
            }
            dots = 1;
        } else if !is_digit_char(c) {
            assert(b[i - body_start] == chars@[i as int]);
            assert(!(is_digit(b[i - body_start]) || b[i - body_start] == '.'));
            return false;
        }
        i = i + 1;
    }
    assert(chars@.subrange(body_start as int, i as int) =~= b);
    assert(b[0] == chars@[body_start as int]);
    if chars[body_start] == '.' {
        return false;
    }
    true
}

/// Counting dots over a prefix never gives more than over the whole text.
proof fn lemma_count_dots_prefix(s: Seq<char>, k: int)
    requires
        0 <= k <= s.len(),
    ensures
        count_dots(s.subrange(0, k)) <= count_dots(s),
    decreases s.len() - k,
{
    if k < s.len() {
        lemma_count_dots_prefix(s, k + 1);
        lemma_count_dots_push(s.subrange(0, k), s[k]);
        assert(s.subrange(0, k + 1) =~= s.subrange(0, k).push(s[k]));
    } else {
        assert(s.subrange(0, k) =~= s);
    }
}

/// The characters of a string slice, in order.
pub fn chars_of(s: &str) -> (v: Vec<char>)
    ensures
        v@ == s@,
{
    broadcast use vstd::string::group_string_axioms;

    let mut v: Vec<char> = Vec::new();
    let mut iter = s.chars();
    loop
        invariant
            v@ + iter.remaining() == s@,
            iter.decrease() is Some,
        ensures
            v@ == s@,
        decreases iter.decrease()->0,
    {
        let ghost before = iter.remaining();
        match iter.next() {
            Some(c) => {
                v.push(c);
                assert(v@ + iter.remaining() =~= s@) by {
                    assert(before =~= seq![c] + iter.remaining());
                }
            },
            None => {
                assert(before.len() == 0);
                assert(v@ =~= s@);
                break;
            },
        }
    }
    v
}

/// A JSON number, held as its decimal text (for instance `-3.14` or `42`).
#[derive(Debug)]
pub struct JsonNumber {
    text: String,
}

impl View for JsonNumber {
    type V = Seq<char>;

    closed spec fn view(&self) -> Seq<char> {
        self.text@
    }
}

impl JsonNumber {
    #[verifier::type_invariant]
    spec fn valid(self) -> bool {
        number_text(self.text@)
    }

    /// The number written by `text`, held as its canonical text, or `None`
    /// where `text` is not a valid number text.
    pub fn parse(text: &str) -> (r: Option<JsonNumber>)
        ensures
            r is Some <==> valid_number(text@),
            r matches Some(n) ==> n@ == canonical_number(text@),
    {
        let chars = chars_of(text);
        assert(chars@.subrange(0, chars@.len() as int) =~= chars@);
        if is_valid_number_text(&chars, 0, chars.len()) {
            Some(JsonNumber::from_chars(&chars, 0, chars.len()))
        } else {
            None
        }
    }

    /// The number written by `chars[start..end]`, which must be a valid
    /// number text.
    pub(crate) fn from_chars(chars: &Vec<char>, start: usize, end: usize) -> (r: JsonNumber)
        requires
            start <= end <= chars@.len(),
            valid_number(chars@.subrange(start as int, end as int)),
        ensures
            r@ == canonical_number(chars@.subrange(start as int, end as int)),
    {
        proof {
            lemma_canonical_number(chars@.subrange(start as int, end as int));
        }
        JsonNumber { text: canonical_chars(chars, start, end) }
    }

    /// The decimal text of the number.
    pub fn as_str(&self) -> (r: &str)
        ensures
            r@ == self@,
            number_text(self@),
    {
        proof {
            use_type_invariant(self);
        }
        self.text.as_str()
    }

    /// The number in `Debug` form, as [`number_debug`] writes it.
    #[verifier::spinoff_prover]
    #[verifier::rlimit(40)]
    pub fn debug_form(&self) -> (r: String)
        ensures
            r@ == number_debug(self@),
    {
        proof {
            use_type_invariant(self);
            lemma_parts(self@);
        }
        let ghost x = self@;
        let ghost ints = int_part(x);
        let ghost frac = frac_part(x);
        let chars = chars_of(self.text.as_str());
        let n = chars.len();
        let b0: usize = if n > 0 && chars[0] == '-' {
            1
        } else {
            0
        };
        proof {
            lemma_significant(x);
        }
        let d = find_dot_char(&chars, b0);
        let ints_zero = d - b0 == 1 && chars[b0] == '0';
        let has_frac = d < n;
        proof {
            assert(ints[0] == x[b0 as int]);
            if ints.len() == 1 && ints[0] == '0' {
                assert(ints =~= seq!['0']);
            }
        }
        if ints_zero && !has_frac {
            let mut r = String::new();
            push_range(&mut r, &chars, 0, n);
            r.push('.');
            r.push('0');
            proof {
                assert(x.subrange(0, n as int) =~= x);
                assert(r@ =~= number_debug(x));
            }
            return r;
        }
        let mut f: usize = b0;
        let mut t: usize = d;
        let mut e_abs: usize = d - b0 - 1;
        if ints_zero {
            let s = skip_zero_chars(&chars, d + 1, n);
            f = s;
            t = n;
            e_abs = s - d;
        } else if !has_frac {
            t = trim_zero_chars(&chars, b0, d);
        }
        let sci = if ints_zero {
            e_abs > 4
        } else {
            e_abs >= 16
        };
        if !sci {
            let mut r = String::new();
            push_range(&mut r, &chars, 0, n);
            if !has_frac {
                r.push('.');
                r.push('0');
            }
            proof {
                assert(x.subrange(0, n as int) =~= x);
                assert(r@ =~= number_debug(x));
            }
            return r;
        }
        let join = !ints_zero && has_frac;
        let r = exponent_form(&chars, b0 == 1, f, t, join, d, ints_zero, e_abs);
        proof {
            let digits = significant_digits(ints, frac);
            let rest = if join {
                x.subrange(f + 1, t as int) + x.subrange(d + 1, n as int)
            } else {
                x.subrange(f + 1, t as int)
            };
            assert(digits[0] == x[f as int]);
            if join {
                assert(digits.drop_first() =~= rest);
            } else {
                assert(digits.drop_first() =~= rest);
            }
            assert(r@ =~= number_debug(x));
        }
        r
    }

    /// Whether two numbers hold the same text.
    pub fn same_text(&self, other: &JsonNumber) -> (b: bool)
        ensures
            b == (self@ == other@),
    {
        self.text == other.text
    }

    /// Whether the number is zero, of either sign.
    pub fn is_zero(&self) -> (b: bool)
        ensures
            b == is_zero_text(self@),
    {
        let c = chars_of(self.text.as_str());
        let b = (c.len() == 1 && c[0] == '0') || (c.len() == 2 && c[0] == '-' && c[1] == '0');
        proof {
            if c@.len() == 1 && c@[0] == '0' {
                assert(c@ =~= seq!['0']);
            }
            if c@.len() == 2 && c@[0] == '-' && c@[1] == '0' {
                assert(c@ =~= seq!['-', '0']);
            }
        }
        b
    }

    /// Whether two numbers are the same number (`-0` and `0` are).
    pub fn numbers_equal(&self, other: &JsonNumber) -> (b: bool)
        ensures
            b == same_number(self@, other@),
    {
        self.same_text(other) || (self.is_zero() && other.is_zero())
    }

    /// A copy of the number.
    pub fn duplicate(&self) -> (r: JsonNumber)
        ensures
            r@ == self@,
    {
        proof {
            use_type_invariant(self);
        }
        JsonNumber { text: self.text.clone() }
    }
}

impl PartialEq for JsonNumber {
    fn eq(&self, other: &JsonNumber) -> (r: bool) {
        self.numbers_equal(other)
    }
}

impl PartialEqSpecImpl for JsonNumber {
    open spec fn obeys_eq_spec() -> bool {
        true
    }

    open spec fn eq_spec(&self, other: &JsonNumber) -> bool {
        same_number(self@, other@)
    }
}

impl Clone for JsonNumber {
    fn clone(&self) -> (r: JsonNumber)
        ensures
            r@ == self@,
    {
        self.duplicate()
    }
}

} // verus!
