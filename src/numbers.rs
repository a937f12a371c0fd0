use vstd::prelude::*;
use crate::token::{digits_value, digit_pred, is_digit, run, lemma_run_exact, lemma_run_le, lemma_digits_value_mono, scan_digits, string_of, chars_of, int_text, nat_text, lemma_nat_text};

verus! {

/// Whether every character of `s` is a decimal digit.
pub open spec fn all_digits(s: Seq<char>) -> bool {
    forall|i: int| 0 <= i < s.len() ==> is_digit(#[trigger] s[i])
}

/// `s` without its leading sign, if it has one.
pub open spec fn unsigned_part(s: Seq<char>) -> Seq<char> {
    if s.len() > 0 && (s[0] == '+' || s[0] == '-') {
        s.skip(1)
    } else {
        s
    }
}

/// `s` read as a 64-bit signed integer the way `i64`'s parser reads it: an
/// optional sign, then one or more decimal digits, with a value in range.
pub open spec fn parse_int(s: Seq<char>) -> Option<int> {
    let body = unsigned_part(s);
    if body.len() == 0 || !all_digits(body) {
        None
    } else {
        let v = if s[0] == '-' {
            -(digits_value(body) as int)
        } else {
            digits_value(body) as int
        };
        if i64::MIN <= v <= i64::MAX {
            Some(v)
        } else {
            None
        }
    }
}

/// Whether `text` is the lower-case word `w` with any of its letters in
/// either case.
pub open spec fn same_ignoring_case(text: Seq<char>, w: Seq<char>) -> bool {
    text.len() == w.len() && forall|i: int|
        0 <= i < text.len() ==> #[trigger] text[i] == w[i] || (text[i] as u32) + 32 == (w[i] as u32)
}

/// Whether `b` names infinity or not-a-number, in any case.
pub open spec fn is_special_float(b: Seq<char>) -> bool {
    same_ignoring_case(b, "inf"@) || same_ignoring_case(b, "infinity"@) || same_ignoring_case(
        b,
        "nan"@,
    )
}

/// The number of digits before the dot (or the exponent) of `b`.
pub open spec fn int_digits(b: Seq<char>) -> int {
    run(b, digit_pred()) as int
}

pub open spec fn has_dot(b: Seq<char>) -> bool {
    int_digits(b) < b.len() && b[int_digits(b)] == '.'
}

/// The number of digits after the dot of `b`.
pub open spec fn frac_digits(b: Seq<char>) -> int {
    if has_dot(b) {
        run(b.skip(int_digits(b) + 1), digit_pred()) as int
    } else {
        0
    }
}

/// The length of the digits-and-dot part of `b`.
pub open spec fn mantissa_len(b: Seq<char>) -> int {
    if has_dot(b) {
        int_digits(b) + 1 + frac_digits(b)
    } else {
        int_digits(b)
    }
}

/// An exponent's text after its `e`: an optional sign, then one or more digits.
pub open spec fn is_exponent_text(t: Seq<char>) -> bool {
    let u = unsigned_part(t);
    u.len() > 0 && all_digits(u)
}

/// Whether `s` reads as a 64-bit float the way `f64`'s parser reads it: an
/// optional sign, then `inf`, `infinity` or `nan` in any case, or digits
/// with at most one dot among them, at least one digit, and an optional
/// exponent (`e` or `E`, an optional sign, digits).
pub open spec fn is_float_text(s: Seq<char>) -> bool {
    let b = unsigned_part(s);
    let m = mantissa_len(b);
    is_special_float(b) || (int_digits(b) + frac_digits(b) > 0 && (m == b.len() || ((b[m] == 'e'
        || b[m] == 'E') && is_exponent_text(b.skip(m + 1)))))
}

/// Where the digits of `s` start: past a leading sign, if any.
fn body_start(s: &Vec<char>) -> (k: usize)
    ensures
        k <= s.len(),
        s@.skip(k as int) == unsigned_part(s@),
        k == 1 <==> (s.len() > 0 && (s@[0] == '+' || s@[0] == '-')),
        k == 0 || k == 1,
{
    if s.len() > 0 && (s[0] == '+' || s[0] == '-') {
        1
    } else {
        assert(s@.skip(0) =~= s@);
        0
    }
}

/// `s` read as an `i64`, exactly as `parse_int` says.
pub fn parse_int_text(s: &Vec<char>) -> (r: Option<i64>)
    ensures
        match r {
            Some(v) => parse_int(s@) == Some(v as int),
            None => parse_int(s@) is None,
        },
{
    let k = body_start(s);
    let ghost body = s@.skip(k as int);
    if k == s.len() {
        return None;
    }
    let neg = s[0] == '-';
    let limit: u128 = if neg { 9223372036854775808 } else { 9223372036854775807 };
    let mut v: u128 = 0;
    let mut j: usize = k;
    while j < s.len()
        invariant
            k <= j <= s.len(),
            body == s@.skip(k as int),
            body == unsigned_part(s@),
            neg == (s@[0] == '-'),
            all_digits(body.take(j - k)),
            v as int == digits_value(body.take(j - k)),
            v <= limit,
            limit == (if neg { 9223372036854775808u128 } else { 9223372036854775807u128 }),
        decreases s.len() - j,
    {
        let c = s[j];
        if !('0' <= c && c <= '9') {
            assert(body[j - k] == s@[j as int]);
            assert(!is_digit(body[j - k]));
            assert(!all_digits(body));
            return None;
        }
        let dg: u128 = (c as u32 - '0' as u32) as u128;
        assert(body.take(j - k + 1).drop_last() =~= body.take(j - k));
        v = v * 10 + dg;
        j = j + 1;
        assert(all_digits(body.take(j - k))) by {
            assert forall|i: int| 0 <= i < j - k implies is_digit(#[trigger] body.take(j - k)[i]) by {
                if i < j - k - 1 {
                    assert(body.take(j - k)[i] == body.take(j - k - 1)[i]);
                }
            }
        }
        if v > limit {
            proof {
                lemma_digits_value_mono(body, j - k, body.len() as int);
                assert(body.take(body.len() as int) =~= body);
                assert(digits_value(body) > limit);
                assert(unsigned_part(s@) == body);
            }
            return None;
        }
    }
    assert(body.take(body.len() as int) =~= body);
    if neg {
        Some((0i128 - v as i128) as i64)
    } else {
        Some(v as i64)
    }
}

/// Whether `t` is the lower-case word `w` with any of its letters in either case.
pub(crate) fn eq_ignoring_case(t: &Vec<char>, w: &str) -> (r: bool)
    ensures
        r == same_ignoring_case(t@, w@),
{
    let n = w.unicode_len();
    if t.len() != n {
        return false;
    }
    let mut k: usize = 0;
    while k < n
        invariant
            n == t.len(),
            n == w@.len(),
            k <= n,
            forall|i: int| 0 <= i < k ==> #[trigger] t@[i] == w@[i] || (t@[i] as u32) + 32 == (w@[i] as u32),
        decreases n - k,
    {
        let c = t[k];
        let l = w.get_char(k);
        if !(c == l || (c as u32) as u64 + 32 == (l as u32) as u64) {
            return false;
        }
        k = k + 1;
    }
    true
}

/// Whether `s@.skip(i)` is an exponent's text; see `is_exponent_text`.
fn exponent_ok(s: &Vec<char>, i: usize) -> (r: bool)
    requires
        i <= s.len(),
    ensures
        r == is_exponent_text(s@.skip(i as int)),
{
    let ghost t = s@.skip(i as int);
    let mut j: usize = i;
    if j < s.len() && (s[j] == '+' || s[j] == '-') {
        j = j + 1;
        assert(t[0] == s@[i as int]);
    }
    assert(unsigned_part(t) =~= s@.skip(j as int));
    if j == s.len() {
        return false;
    }
    let mut q: usize = j;
    while q < s.len()
        invariant
            i <= j <= q <= s.len(),
            t == s@.skip(i as int),
            unsigned_part(t) == s@.skip(j as int),
            forall|m: int| j <= m < q ==> is_digit(#[trigger] s@[m]),
        decreases s.len() - q,
    {
        if !('0' <= s[q] && s[q] <= '9') {
            assert(s@.skip(j as int)[q - j] == s@[q as int]);
            return false;
        }
        q = q + 1;
    }
    assert forall|m: int| 0 <= m < s@.skip(j as int).len() implies is_digit(
        #[trigger] s@.skip(j as int)[m],
    ) by {
        assert(s@.skip(j as int)[m] == s@[j + m]);
    }
    true
}

/// The parts of the number text `s`: where its digits start (past a sign),
/// where its integer digits end, and where its mantissa ends.
fn mantissa_parts(s: &Vec<char>) -> (r: (usize, usize, usize))
    ensures
        r.0 <= r.1 <= r.2 <= s.len(),
        s@.skip(r.0 as int) == unsigned_part(s@),
        r.0 == 1 <==> (s.len() > 0 && (s@[0] == '+' || s@[0] == '-')),
        r.0 == 0 || r.0 == 1,
        r.1 - r.0 == int_digits(unsigned_part(s@)),
        has_dot(unsigned_part(s@)) <==> (r.1 < s.len() && s@[r.1 as int] == '.'),
        r.2 - r.0 == mantissa_len(unsigned_part(s@)),
        has_dot(unsigned_part(s@)) ==> r.2 - r.1 - 1 == frac_digits(unsigned_part(s@)),
        !has_dot(unsigned_part(s@)) ==> r.2 == r.1 && frac_digits(unsigned_part(s@)) == 0,
{
    let k = body_start(s);
    let ghost b = s@.skip(k as int);
    let d = scan_digits(s, k);
    if d < s.len() && s[d] == '.' {
        assert(b[d - k] == s@[d as int]);
        let e = scan_digits(s, d + 1);
        assert(s@.skip(d + 1) =~= b.skip(d - k + 1));
        (k, d, e)
    } else {
        proof {
            if d - k < b.len() {
                assert(b[d - k] == s@[d as int]);
            }
        }
        (k, d, d)
    }
}

/// Whether `s` reads as a float, exactly as `is_float_text` says.
pub fn float_text_ok(s: &Vec<char>) -> (r: bool)
    ensures
        r == is_float_text(s@),
{
    let (k, d, m) = mantissa_parts(s);
    let ghost b = unsigned_part(s@);
    let body = crate::token::slice_chars(s, k, s.len());
    assert(body@ =~= b);
    if eq_ignoring_case(&body, "inf") || eq_ignoring_case(&body, "infinity") || eq_ignoring_case(
        &body,
        "nan",
    ) {
        return true;
    }
    let digits: usize = if m > d {
        m - d - 1 + (d - k)
    } else {
        d - k
    };
    if digits == 0 {
        return false;
    }
    if m == s.len() {
        return true;
    }
    assert(b[m - k] == s@[m as int]);
    if !(s[m] == 'e' || s[m] == 'E') {
        return false;
    }
    assert(b.skip(m - k + 1) =~= s@.skip(m + 1));
    exponent_ok(s, m + 1)
}

pub open spec fn zero_pred() -> spec_fn(char) -> bool {
    |c: char| c == '0'
}

/// `s` without the zeros at its end.
pub open spec fn strip_trailing_zeros(s: Seq<char>) -> Seq<char>
    decreases s.len(),
{
    if s.len() > 0 && s.last() == '0' {
        strip_trailing_zeros(s.drop_last())
    } else {
        s
    }
}

/// How a float's plain decimal text is printed: without a leading `+`, without
/// leading zeros before the dot (one `0` stays where nothing else does),
/// without trailing zeros after it, and without the dot where no digit
/// follows it.
pub open spec fn plain_display(text: Seq<char>) -> Seq<char> {
    let neg = text.len() > 0 && text[0] == '-';
    let body = unsigned_part(text);
    let d = run(body, digit_pred()) as int;
    let int_part = body.take(d);
    let lead = run(int_part, zero_pred()) as int;
    let int_norm = if lead == int_part.len() {
        seq!['0']
    } else {
        int_part.skip(lead)
    };
    let frac = if d < body.len() {
        strip_trailing_zeros(body.skip(d + 1))
    } else {
        Seq::<char>::empty()
    };
    (if neg {
        seq!['-']
    } else {
        Seq::<char>::empty()
    }) + int_norm + (if frac.len() > 0 {
        seq!['.'] + frac
    } else {
        Seq::<char>::empty()
    })
}

proof fn lemma_strip_trailing(s: Seq<char>, k: int)
    requires
        0 <= k <= s.len(),
        forall|m: int| k <= m < s.len() ==> #[trigger] s[m] == '0',
        k == 0 || s[k - 1] != '0',
    ensures
        strip_trailing_zeros(s) == s.take(k),
    decreases s.len(),
{
    if s.len() > k {
        lemma_strip_trailing(s.drop_last(), k);
        assert(s.drop_last().take(k) =~= s.take(k));
    } else {
        assert(s.take(k) =~= s);
    }
}

/// Appends `s[a..b]` to `out`.
fn push_range(out: &mut Vec<char>, s: &Vec<char>, a: usize, b: usize)
    requires
        a <= b <= s.len(),
    ensures
        final(out)@ == old(out)@ + s@.subrange(a as int, b as int),
{
    let mut k: usize = a;
    while k < b
        invariant
            a <= k <= b <= s.len(),
            out@ == old(out)@ + s@.subrange(a as int, k as int),
        decreases b - k,
    {
        out.push(s[k]);
        k = k + 1;
        assert(out@ =~= old(out)@ + s@.subrange(a as int, k as int));
    }
}

/// The printed form of a plain decimal text; see `plain_display`.
#[verifier::rlimit(50)]
fn plain_display_chars(s: &Vec<char>) -> (r: Vec<char>)
    ensures
        r@ == plain_display(s@),
{
    let k = body_start(s);
    let ghost body = s@.skip(k as int);
    let d = scan_digits(s, k);
    let ghost int_part = body.take(d - k);
    assert(int_part =~= s@.subrange(k as int, d as int));
    let mut z: usize = k;
    while z < d && s[z] == '0'
        invariant
            k <= z <= d <= s.len(),
            forall|m: int| k <= m < z ==> #[trigger] s@[m] == '0',
        decreases d - z,
    {
        z = z + 1;
    }
    proof {
        assert forall|m: int| 0 <= m < z - k implies zero_pred()(#[trigger] int_part[m]) by {
            assert(int_part[m] == s@[k + m]);
        }
        if z < d {
            assert(int_part[z - k] == s@[z as int]);
        }
        lemma_run_exact(int_part, zero_pred(), z - k);
    }
    let mut out: Vec<char> = Vec::new();
    if s.len() > 0 && s[0] == '-' {
        out.push('-');
    }
    if z == d {
        out.push('0');
    } else {
        push_range(&mut out, s, z, d);
        assert(int_part.skip(z - k) =~= s@.subrange(z as int, d as int));
    }
    let ghost head = out@;
    if d < s.len() {
        let mut e: usize = s.len();
        while e > d + 1 && s[e - 1] == '0'
            invariant
                d + 1 <= e <= s.len(),
                forall|m: int| e <= m < s.len() ==> #[trigger] s@[m] == '0',
            decreases e,
        {
            e = e - 1;
        }
        proof {
            let f = body.skip(d - k + 1);
            assert forall|m: int| e - d - 1 <= m < f.len() implies #[trigger] f[m] == '0' by {
                assert(f[m] == s@[d + 1 + m]);
            }
            if e > d + 1 {
                assert(f[e - d - 2] == s@[e - 1]);
            }
            lemma_strip_trailing(f, e - d - 1);
            assert(f.take(e - d - 1) =~= s@.subrange(d + 1, e as int));
        }
        if e > d + 1 {
            out.push('.');
            push_range(&mut out, s, d + 1, e);
            assert(out@ =~= head + (seq!['.'] + s@.subrange(d + 1, e as int)));
        } else {
            assert(out@ =~= head + Seq::<char>::empty());
        }
    } else {
        assert(out@ =~= head + Seq::<char>::empty());
    }
    proof {
        if !(s.len() > 0 && s@[0] == '-') {
            assert(head =~= Seq::<char>::empty() + head);
        }
    }
    out
}


/// The decimal text of a 64-bit integer reads back as that integer.
pub proof fn lemma_parse_int_text(n: int)
    requires
        i64::MIN <= n <= i64::MAX,
    ensures
        parse_int(int_text(n)) == Some(n),
{
    let m: nat = if n < 0 {
        (-n) as nat
    } else {
        n as nat
    };
    lemma_nat_text(m);
    let t = int_text(n);
    if n < 0 {
        assert(t.skip(1) =~= nat_text(m));
        assert(t[0] == '-');
    } else {
        assert(is_digit(t[0]));
    }
    assert(unsigned_part(t) == nat_text(m));
}


pub open spec fn zeros(n: int) -> Seq<char> {
    Seq::new(n as nat, |_i: int| '0')
}

/// The digits of a mantissa, its dot left out.
pub open spec fn mantissa_digits(b: Seq<char>) -> Seq<char> {
    if has_dot(b) {
        b.take(int_digits(b)) + b.subrange(int_digits(b) + 1, mantissa_len(b))
    } else {
        b.take(int_digits(b))
    }
}

/// The value of an exponent's text.
pub open spec fn exponent_value(t: Seq<char>) -> int {
    if t.len() > 0 && t[0] == '-' {
        -(digits_value(unsigned_part(t)) as int)
    } else {
        digits_value(unsigned_part(t)) as int
    }
}

/// The digits `dg` with the dot placed after the first `p` of them.
pub open spec fn expand(dg: Seq<char>, p: int) -> Seq<char> {
    if p <= 0 {
        seq!['0', '.'] + zeros(-p) + dg
    } else if p >= dg.len() {
        dg + zeros(p - dg.len())
    } else {
        dg.take(p) + seq!['.'] + dg.skip(p)
    }
}

/// The printed form of the digits `dg` with the dot after the first `p` of
/// them: `inf` where that is at least ten to the 309th, `0` where it is below
/// ten to the -324th, otherwise written out in full.
pub open spec fn exponent_form_display(sign: Seq<char>, dg: Seq<char>, p: int) -> Seq<char> {
    let lz = run(dg, zero_pred()) as int;
    if lz == dg.len() {
        plain_display(sign + seq!['0'])
    } else if p - lz > 309 {
        sign + "inf"@
    } else if p - lz < -324 {
        plain_display(sign + seq!['0'])
    } else {
        plain_display(sign + expand(dg, p))
    }
}

/// How a float's text is printed, in decimal notation as `f64` prints:
/// `NaN`; `inf` with its sign; a number with an exponent written out in
/// full, `inf` where it is at least ten to the 309th and `0` where it is
/// below ten to the -324th; then without redundant zeros (`plain_display`).
pub open spec fn float_display(text: Seq<char>) -> Seq<char> {
    let sign = if text.len() > 0 && text[0] == '-' {
        seq!['-']
    } else {
        Seq::<char>::empty()
    };
    let b = unsigned_part(text);
    let m = mantissa_len(b);
    if same_ignoring_case(b, "nan"@) {
        "NaN"@
    } else if is_special_float(b) {
        sign + "inf"@
    } else if m < b.len() && (b[m] == 'e' || b[m] == 'E') && is_exponent_text(b.skip(m + 1)) {
        exponent_form_display(sign, mantissa_digits(b), int_digits(b) + exponent_value(b.skip(m + 1)))
    } else {
        plain_display(text)
    }
}

fn push_zeros(out: &mut Vec<char>, n: usize)
    ensures
        final(out)@ == old(out)@ + zeros(n as int),
{
    let mut k: usize = 0;
    while k < n
        invariant
            k <= n,
            out@ == old(out)@ + zeros(k as int),
        decreases n - k,
    {
        out.push('0');
        k = k + 1;
        assert(out@ =~= old(out)@ + zeros(k as int));
    }
}

fn push_str(out: &mut Vec<char>, w: &str)
    ensures
        final(out)@ == old(out)@ + w@,
{
    let cs = chars_of(w);
    let n = cs.len();
    push_range(out, &cs, 0, n);
    assert(cs@.subrange(0, n as int) =~= cs@);
}

/// The printed form of a float's text; see `float_display`.
#[verifier::rlimit(100)]
pub fn float_display_text(text: &String) -> (r: String)
    ensures
        r@ == float_display(text@),
{
    let s = chars_of(text.as_str());
    let (k, d, m) = mantissa_parts(&s);
    let ghost b = unsigned_part(s@);
    let body = crate::token::slice_chars(&s, k, s.len());
    assert(body@ =~= b);
    let mut sign: Vec<char> = Vec::new();
    if s.len() > 0 && s[0] == '-' {
        sign.push('-');
    }
    let ghost sg = sign@;
    assert(sg =~= (if s@.len() > 0 && s@[0] == '-' { seq!['-'] } else { Seq::<char>::empty() }));
    if eq_ignoring_case(&body, "nan") {
        return String::from_str("NaN");
    }
    if eq_ignoring_case(&body, "inf") || eq_ignoring_case(&body, "infinity") {
        push_str(&mut sign, "inf");
        return string_of(sign.as_slice());
    }
    if m < s.len() {
        assert(b[m - k] == s@[m as int]);
        assert(b.skip(m - k + 1) =~= s@.skip(m + 1));
    }
    if !(m < s.len() && (s[m] == 'e' || s[m] == 'E') && exponent_ok(&s, m + 1)) {
        return string_of(plain_display_chars(&s).as_slice());
    }
    // the digits of the mantissa
    let mut dg = crate::token::slice_chars(&s, k, d);
    if m > d {
        push_range(&mut dg, &s, d + 1, m);
    }
    assert(dg@ =~= mantissa_digits(b));
    let cap: u128 = s.len() as u128 + 400;
    let e = capped_exponent(&s, m + 1, cap);
    let ghost t = s@.skip(m + 1);
    assert(b.skip(m - k + 1) =~= t);
    assert(int_digits(b) == d - k);
    let ghost lz = run(dg@, zero_pred()) as int;
    proof {
        lemma_run_le(dg@, zero_pred());
    }
    assert(dg@.len() <= s@.len());
    let p: i128 = (d - k) as i128 + e;
    assert(exponent_form_display(sg, dg@, p as int) == exponent_form_display(
        sg,
        dg@,
        int_digits(b) + exponent_value(t),
    ));
    let out = exponent_form(sign, &dg, p);
    string_of(out.as_slice())
}

/// The exponent of `s@.skip(e0)`, or `cap + 1` with its sign where it is
/// larger than `cap`.
fn capped_exponent(s: &Vec<char>, e0: usize, cap: u128) -> (r: i128)
    requires
        e0 <= s.len(),
        is_exponent_text(s@.skip(e0 as int)),
        cap <= 0x2_0000_0000_0000_0000,
    ensures
        -cap <= exponent_value(s@.skip(e0 as int)) <= cap ==> r == exponent_value(s@.skip(e0 as int)),
        exponent_value(s@.skip(e0 as int)) > cap ==> r == cap + 1,
        exponent_value(s@.skip(e0 as int)) < -cap ==> r == -(cap + 1),
{
    let ghost t = s@.skip(e0 as int);
    let ghost u = unsigned_part(t);
    let eneg = s[e0] == '-';
    let j: usize = if s[e0] == '+' || s[e0] == '-' { e0 + 1 } else { e0 };
    assert(t[0] == s@[e0 as int]);
    assert(u =~= s@.skip(j as int));
    let mut v: u128 = 0;
    let mut q: usize = j;
    let mut capped = false;
    while q < s.len()
        invariant
            j <= q <= s.len(),
            u == s@.skip(j as int),
            all_digits(u),
            v <= cap,
            cap <= 0x2_0000_0000_0000_0000,
            !capped ==> v as int == digits_value(u.take(q - j)),
            capped ==> digits_value(u) > cap,
        decreases s.len() - q,
    {
        assert(u[q - j] == s@[q as int]);
        let dgt: u128 = (s[q] as u32 - '0' as u32) as u128;
        assert(u.take(q - j + 1).drop_last() =~= u.take(q - j));
        let nv: u128 = v * 10 + dgt;
        if nv > cap {
            proof {
                lemma_digits_value_mono(u, q - j + 1, u.len() as int);
                assert(u.take(u.len() as int) =~= u);
            }
            capped = true;
            q = s.len();
        } else {
            v = nv;
            q = q + 1;
        }
    }
    if !capped {
        assert(u.take(u.len() as int) =~= u);
    }
    let w: i128 = if capped { (cap + 1) as i128 } else { v as i128 };
    if eneg {
        -w
    } else {
        w
    }
}

/// The printed form of `dg` with the dot after the first `p` digits; see
/// `exponent_form_display`.
#[verifier::rlimit(50)]
fn exponent_form(sign: Vec<char>, dg: &Vec<char>, p: i128) -> (r: Vec<char>)
    requires
        -0x1_0000_0000_0000_0000_0000 <= p <= 0x1_0000_0000_0000_0000_0000,
    ensures
        r@ == exponent_form_display(sign@, dg@, p as int),
{
    let ghost sg = sign@;
    let mut lz: usize = 0;
    while lz < dg.len() && dg[lz] == '0'
        invariant
            lz <= dg.len(),
            forall|i: int| 0 <= i < lz ==> #[trigger] dg@[i] == '0',
        decreases dg.len() - lz,
    {
        lz = lz + 1;
    }
    proof {
        assert forall|i: int| 0 <= i < lz implies zero_pred()(#[trigger] dg@[i]) by {}
        lemma_run_exact(dg@, zero_pred(), lz as int);
    }
    let mut out = sign;
    if lz == dg.len() || p - (lz as i128) < -324 {
        out.push('0');
        assert(out@ =~= sg + seq!['0']);
        return plain_display_chars(&out);
    }
    if p - (lz as i128) > 309 {
        push_str(&mut out, "inf");
        return out;
    }
    let ghost head = out@;
    if p <= 0 {
        out.push('0');
        out.push('.');
        push_zeros(&mut out, (0 - p) as usize);
        let n = dg.len();
        push_range(&mut out, dg, 0, n);
        assert(dg@.subrange(0, n as int) =~= dg@);
        assert(out@ =~= head + (seq!['0', '.'] + zeros(-p) + dg@));
    } else if p >= dg.len() as i128 {
        let n = dg.len();
        push_range(&mut out, dg, 0, n);
        assert(dg@.subrange(0, n as int) =~= dg@);
        push_zeros(&mut out, (p - n as i128) as usize);
        assert(out@ =~= head + (dg@ + zeros(p - n)));
    } else {
        let n = dg.len();
        let pu = p as usize;
        push_range(&mut out, dg, 0, pu);
        out.push('.');
        push_range(&mut out, dg, pu, n);
        assert(out@ =~= head + (dg@.take(p as int) + seq!['.'] + dg@.skip(p as int)));
    }
    plain_display_chars(&out)
}

} // verus!
