use vstd::prelude::*;

verus! {

/// A lexical unit of a script.
///
/// A float literal is kept as the decimal text it was written with
/// (digits, a dot, digits), so its value is carried without rounding.
#[derive(Debug, PartialEq)]
pub enum Token {
    Keyword(String),
    Identifier(String),
    Number(i64),
    Symbol(char),
    StringLiteral(String),
    Operator(String),
    Float(String),
    Boolean(bool),
}

/// The mathematical model of a token: its kind and its value.
pub enum TokenView {
    Keyword(Seq<char>),
    Identifier(Seq<char>),
    Number(int),
    Symbol(char),
    StringLiteral(Seq<char>),
    Operator(Seq<char>),
    Float(Seq<char>),
    Boolean(bool),
}

impl View for Token {
    type V = TokenView;

    open spec fn view(&self) -> TokenView {
        match self {
            Token::Keyword(k) => TokenView::Keyword(k@),
            Token::Identifier(i) => TokenView::Identifier(i@),
            Token::Number(n) => TokenView::Number(*n as int),
            Token::Symbol(c) => TokenView::Symbol(*c),
            Token::StringLiteral(s) => TokenView::StringLiteral(s@),
            Token::Operator(o) => TokenView::Operator(o@),
            Token::Float(f) => TokenView::Float(f@),
            Token::Boolean(b) => TokenView::Boolean(*b),
        }
    }
}

impl Token {
    /// A copy of this token.
    pub fn duplicate(&self) -> (r: Token)
        ensures
            r@ == self@,
    {
        match self {
            Token::Keyword(k) => Token::Keyword(k.clone()),
            Token::Identifier(i) => Token::Identifier(i.clone()),
            Token::Number(n) => Token::Number(*n),
            Token::Symbol(c) => Token::Symbol(*c),
            Token::StringLiteral(s) => Token::StringLiteral(s.clone()),
            Token::Operator(o) => Token::Operator(o.clone()),
            Token::Float(f) => Token::Float(f.clone()),
            Token::Boolean(b) => Token::Boolean(*b),
        }
    }
}

/// The models of a sequence of tokens.
pub open spec fn views(ts: Seq<Token>) -> Seq<TokenView> {
    ts.map_values(|t: Token| t@)
}

/// Why a source text could not be split into tokens.
#[derive(Debug, PartialEq, Eq, Clone, Copy)]
pub enum LexError {
    /// A character that starts no token.
    UnexpectedCharacter(char),
    /// An integer literal whose value does not fit in 64 signed bits.
    IntegerOutOfRange,
}

/// The result named for `char::is_alphanumeric`.
pub uninterp spec fn alphanumeric(c: char) -> bool;

/// The characters beyond ASCII with the White_Space property, which
/// `char::is_whitespace` accepts.
pub open spec fn wide_whitespace(c: char) -> bool {
    let u = c as u32;
    u == 0x85 || u == 0xA0 || u == 0x1680 || (0x2000 <= u && u <= 0x200A) || u == 0x2028 || u
        == 0x2029 || u == 0x202F || u == 0x205F || u == 0x3000
}

pub open spec fn is_letter(c: char) -> bool {
    ('a' <= c && c <= 'z') || ('A' <= c && c <= 'Z')
}

pub open spec fn is_digit(c: char) -> bool {
    '0' <= c && c <= '9'
}

/// Letters, digits and `_`; beyond ASCII, what `char::is_alphanumeric` accepts.
pub open spec fn is_ident_char(c: char) -> bool {
    if (c as u32) < 128 {
        is_letter(c) || is_digit(c) || c == '_'
    } else {
        alphanumeric(c)
    }
}

/// White space as `char::is_whitespace` has it: in ASCII, space and the
/// controls from tab to carriage return; beyond ASCII, `wide_whitespace`.
pub open spec fn is_blank(c: char) -> bool {
    if (c as u32) < 128 {
        c == ' ' || ('\t' <= c && c <= '\r')
    } else {
        wide_whitespace(c)
    }
}

/// Characters that start an operator.
pub open spec fn is_operator_char(c: char) -> bool {
    c == '=' || c == '!' || c == '<' || c == '>'
}

/// Characters that form a symbol on their own (`/` is handled apart, for comments).
pub open spec fn is_single_symbol(c: char) -> bool {
    c == ':' || c == '+' || c == '-' || c == '*' || c == '{' || c == '}' || c == '('
        || c == ')' || c == ';'
}

pub open spec fn ident_pred() -> spec_fn(char) -> bool {
    |c: char| is_ident_char(c)
}

pub open spec fn digit_pred() -> spec_fn(char) -> bool {
    |c: char| is_digit(c)
}

pub open spec fn not_char_pred(stop: char) -> spec_fn(char) -> bool {
    |c: char| c != stop
}

/// The length of the longest prefix of `s` whose characters all satisfy `p`.
pub open spec fn run(s: Seq<char>, p: spec_fn(char) -> bool) -> nat
    decreases s.len(),
{
    if s.len() > 0 && p(s[0]) {
        1 + run(s.drop_first(), p)
    } else {
        0
    }
}

/// The value of a run of decimal digits.
pub open spec fn digits_value(s: Seq<char>) -> nat
    decreases s.len(),
{
    if s.len() == 0 {
        0
    } else {
        digits_value(s.drop_last()) * 10 + (s.last() as nat - '0' as nat) as nat
    }
}

pub open spec fn is_keyword_word(w: Seq<char>) -> bool {
    w == "print"@ || w == "variable"@ || w == "update"@
}

/// The token for a run of identifier characters.
pub open spec fn word_token(w: Seq<char>) -> TokenView {
    if is_keyword_word(w) {
        TokenView::Keyword(w)
    } else if w == "true"@ {
        TokenView::Boolean(true)
    } else if w == "false"@ {
        TokenView::Boolean(false)
    } else {
        TokenView::Identifier(w)
    }
}

/// One step of the lexer on a nonempty text: the token read at its start,
/// if any, and the number of characters consumed.
pub open spec fn step(s: Seq<char>) -> Result<(Option<TokenView>, nat), LexError> {
    let c = s[0];
    if is_letter(c) {
        let n = run(s, ident_pred());
        Ok((Some(word_token(s.take(n as int))), n))
    } else if is_digit(c) {
        let d = run(s, digit_pred()) as int;
        if d < s.len() - 1 && s[d] == '.' && is_digit(s[d + 1]) {
            let f = run(s.skip(d + 1), digit_pred()) as int;
            Ok((Some(TokenView::Float(s.take(d + 1 + f))), (d + 1 + f) as nat))
        } else if digits_value(s.take(d)) <= i64::MAX {
            Ok((Some(TokenView::Number(digits_value(s.take(d)) as int)), d as nat))
        } else {
            Err(LexError::IntegerOutOfRange)
        }
    } else if c == '"' {
        let q = run(s.skip(1), not_char_pred('"')) as int;
        let body = s.subrange(1, 1 + q);
        if 1 + q < s.len() {
            Ok((Some(TokenView::StringLiteral(body)), (q + 2) as nat))
        } else {
            Ok((Some(TokenView::StringLiteral(body)), (q + 1) as nat))
        }
    } else if is_operator_char(c) {
        if s.len() > 1 && s[1] == '=' {
            Ok((Some(TokenView::Operator(seq![c, '='])), 2))
        } else {
            Ok((Some(TokenView::Operator(seq![c])), 1))
        }
    } else if c == '/' {
        if s.len() > 1 && s[1] == '/' {
            Ok((None, 2 + run(s.skip(2), not_char_pred('\n'))))
        } else {
            Ok((Some(TokenView::Symbol('/')), 1))
        }
    } else if is_single_symbol(c) {
        Ok((Some(TokenView::Symbol(c)), 1))
    } else if is_blank(c) {
        Ok((None, 1))
    } else {
        Err(LexError::UnexpectedCharacter(c))
    }
}

/// `prefix` followed by the tokens of `rest`, or the error of `rest`.
pub open spec fn prepend(prefix: Seq<TokenView>, rest: Result<Seq<TokenView>, LexError>) -> Result<
    Seq<TokenView>,
    LexError,
> {
    match rest {
        Ok(r) => Ok(prefix + r),
        Err(e) => Err(e),
    }
}

/// The tokens of a source text, or the first lexical error in it.
pub open spec fn lex(s: Seq<char>) -> Result<Seq<TokenView>, LexError>
    decreases s.len(),
{
    if s.len() == 0 {
        Ok(seq![])
    } else {
        match step(s) {
            Err(e) => Err(e),
            Ok((t, n)) => if 0 < n <= s.len() {
                match t {
                    Some(tok) => prepend(seq![tok], lex(s.skip(n as int))),
                    None => lex(s.skip(n as int)),
                }
            } else {
                Err(LexError::UnexpectedCharacter(s[0]))
            },
        }
    }
}


/// The model of a token that a lexer step may produce.
pub open spec fn opt_view(t: Option<Token>) -> Option<TokenView> {
    match t {
        Some(x) => Some(x@),
        None => None,
    }
}

/// Relies on `char::is_alphanumeric`: whether `c` is alphabetic or numeric.
#[verifier::external_body]
fn char_is_alphanumeric(c: char) -> (r: bool)
    ensures
        r == alphanumeric(c),
{
    c.is_alphanumeric()
}

/// Relies on `str::chars`, collected into a vector: the characters of `s` in order.
#[verifier::external_body]
pub(crate) fn chars_of(s: &str) -> (r: Vec<char>)
    ensures
        r@ == s@,
{
    s.chars().collect()
}

/// Relies on collecting characters into a `String`: the string of `cs` in order.
#[verifier::external_body]
pub(crate) fn string_of(cs: &[char]) -> (r: String)
    ensures
        r@ == cs@,
{
    cs.iter().collect()
}

pub(crate) proof fn lemma_run_exact(t: Seq<char>, p: spec_fn(char) -> bool, k: int)
    requires
        0 <= k <= t.len(),
        forall|m: int| 0 <= m < k ==> p(#[trigger] t[m]),
        k == t.len() || !p(t[k]),
    ensures
        run(t, p) == k,
    decreases k,
{
    if k > 0 {
        lemma_run_exact(t.drop_first(), p, k - 1);
    }
}

pub(crate) proof fn lemma_digits_value_mono(d: Seq<char>, a: int, b: int)
    requires
        0 <= a <= b <= d.len(),
    ensures
        digits_value(d.take(a)) <= digits_value(d.take(b)),
    decreases b - a,
{
    if a < b {
        lemma_digits_value_mono(d, a, b - 1);
        assert(d.take(b).drop_last() =~= d.take(b - 1));
    }
}

/// The characters `s[i..j]`.
pub(crate) fn slice_chars(s: &Vec<char>, i: usize, j: usize) -> (r: Vec<char>)
    requires
        i <= j <= s.len(),
    ensures
        r@ == s@.subrange(i as int, j as int),
{
    let mut r: Vec<char> = Vec::new();
    let mut k: usize = i;
    while k < j
        invariant
            i <= k <= j <= s.len(),
            r@ == s@.subrange(i as int, k as int),
        decreases j - k,
    {
        r.push(s[k]);
        k = k + 1;
        assert(r@ =~= s@.subrange(i as int, k as int));
    }
    r
}

/// Whether the characters of `a` are those of `b`.
pub(crate) fn chars_eq(a: &Vec<char>, b: &str) -> (r: bool)
    ensures
        r == (a@ == b@),
{
    let n = b.unicode_len();
    if a.len() != n {
        return false;
    }
    let mut k: usize = 0;
    while k < n
        invariant
            n == a.len(),
            n == b@.len(),
            k <= n,
            forall|m: int| 0 <= m < k ==> a@[m] == b@[m],
        decreases n - k,
    {
        if a[k] != b.get_char(k) {
            return false;
        }
        k = k + 1;
    }
    assert(a@ =~= b@);
    true
}

fn ident_char(c: char) -> (r: bool)
    ensures
        r == is_ident_char(c),
{
    if (c as u32) < 128 {
        ('a' <= c && c <= 'z') || ('A' <= c && c <= 'Z') || ('0' <= c && c <= '9') || c == '_'
    } else {
        char_is_alphanumeric(c)
    }
}

fn blank(c: char) -> (r: bool)
    ensures
        r == is_blank(c),
{
    if (c as u32) < 128 {
        c == ' ' || ('\t' <= c && c <= '\r')
    } else {
        let u = c as u32;
        u == 0x85 || u == 0xA0 || u == 0x1680 || (0x2000 <= u && u <= 0x200A) || u == 0x2028 || u
            == 0x2029 || u == 0x202F || u == 0x205F || u == 0x3000
    }
}

fn scan_ident(s: &Vec<char>, i: usize) -> (j: usize)
    requires
        i <= s.len(),
    ensures
        i <= j <= s.len(),
        j - i == run(s@.skip(i as int), ident_pred()),
{
    let mut j: usize = i;
    while j < s.len() && ident_char(s[j])
        invariant
            i <= j <= s.len(),
            forall|m: int| i <= m < j ==> is_ident_char(#[trigger] s@[m]),
        decreases s.len() - j,
    {
        j = j + 1;
    }
    proof {
        let t = s@.skip(i as int);
        assert forall|m: int| 0 <= m < j - i implies ident_pred()(#[trigger] t[m]) by {
            assert(t[m] == s@[i + m]);
        }
        lemma_run_exact(t, ident_pred(), j - i);
    }
    j
}

pub(crate) fn scan_digits(s: &Vec<char>, i: usize) -> (j: usize)
    requires
        i <= s.len(),
    ensures
        i <= j <= s.len(),
        j - i == run(s@.skip(i as int), digit_pred()),
{
    let mut j: usize = i;
    while j < s.len() && '0' <= s[j] && s[j] <= '9'
        invariant
            i <= j <= s.len(),
            forall|m: int| i <= m < j ==> is_digit(#[trigger] s@[m]),
        decreases s.len() - j,
    {
        j = j + 1;
    }
    proof {
        let t = s@.skip(i as int);
        assert forall|m: int| 0 <= m < j - i implies digit_pred()(#[trigger] t[m]) by {
            assert(t[m] == s@[i + m]);
        }
        lemma_run_exact(t, digit_pred(), j - i);
    }
    j
}

fn scan_until(s: &Vec<char>, i: usize, stop: char) -> (j: usize)
    requires
        i <= s.len(),
    ensures
        i <= j <= s.len(),
        j - i == run(s@.skip(i as int), not_char_pred(stop)),
{
    let mut j: usize = i;
    while j < s.len() && s[j] != stop
        invariant
            i <= j <= s.len(),
            forall|m: int| i <= m < j ==> #[trigger] s@[m] != stop,
        decreases s.len() - j,
    {
        j = j + 1;
    }
    proof {
        let t = s@.skip(i as int);
        assert forall|m: int| 0 <= m < j - i implies not_char_pred(stop)(#[trigger] t[m]) by {
            assert(t[m] == s@[i + m]);
        }
        lemma_run_exact(t, not_char_pred(stop), j - i);
    }
    j
}

/// The value of the decimal digits `d`, or `None` where it exceeds `i64::MAX`.
fn digits_to_i64(d: &Vec<char>) -> (r: Option<i64>)
    requires
        forall|m: int| 0 <= m < d.len() ==> is_digit(#[trigger] d@[m]),
    ensures
        match r {
            Some(v) => v as int == digits_value(d@),
            None => digits_value(d@) > i64::MAX,
        },
{
    let mut v: u64 = 0;
    let mut k: usize = 0;
    while k < d.len()
        invariant
            k <= d.len(),
            forall|m: int| 0 <= m < d.len() ==> is_digit(#[trigger] d@[m]),
            v as int == digits_value(d@.take(k as int)),
            v <= i64::MAX,
        decreases d.len() - k,
    {
        let dg: u64 = (d[k] as u32 - '0' as u32) as u64;
        assert(d@.take(k + 1).drop_last() =~= d@.take(k as int));
        if v > 922337203685477580 || (v == 922337203685477580 && dg > 7) {
            proof {
                lemma_digits_value_mono(d@, k + 1, d.len() as int);
                assert(d@.take(d.len() as int) =~= d@);
            }
            return None;
        }
        v = v * 10 + dg;
        k = k + 1;
    }
    assert(d@.take(d.len() as int) =~= d@);
    Some(v as i64)
}


fn word_to_token(w: &Vec<char>) -> (r: Token)
    ensures
        r@ == word_token(w@),
{
    if chars_eq(w, "print") || chars_eq(w, "variable") || chars_eq(w, "update") {
        Token::Keyword(string_of(w.as_slice()))
    } else if chars_eq(w, "true") {
        Token::Boolean(true)
    } else if chars_eq(w, "false") {
        Token::Boolean(false)
    } else {
        Token::Identifier(string_of(w.as_slice()))
    }
}

/// Reads the token that starts at `s[i]`.
fn next_token(s: &Vec<char>, i: usize) -> (r: Result<(Option<Token>, usize), LexError>)
    requires
        i < s.len(),
    ensures
        match r {
            Ok((t, j)) => i < j <= s.len() && step(s@.skip(i as int)) == Ok::<
                (Option<TokenView>, nat),
                LexError,
            >((opt_view(t), (j - i) as nat)),
            Err(e) => step(s@.skip(i as int)) == Err::<(Option<TokenView>, nat), LexError>(e),
        },
{
    let ghost t = s@.skip(i as int);
    let c = s[i];
    assert(t[0] == c);
    if ('a' <= c && c <= 'z') || ('A' <= c && c <= 'Z') {
        let j = scan_ident(s, i);
        let w = slice_chars(s, i, j);
        assert(w@ =~= t.take(j - i));
        Ok((Some(word_to_token(&w)), j))
    } else if '0' <= c && c <= '9' {
        let d = scan_digits(s, i);
        if d < s.len() - 1 && s[d] == '.' && '0' <= s[d + 1] && s[d + 1] <= '9' {
            let f = scan_digits(s, d + 1);
            assert(s@.skip(d + 1) =~= t.skip(d - i + 1));
            let text = slice_chars(s, i, f);
            assert(text@ =~= t.take(f - i));
            Ok((Some(Token::Float(string_of(text.as_slice()))), f))
        } else {
            let digits = slice_chars(s, i, d);
            assert(digits@ =~= t.take(d - i));
            assert forall|m: int| 0 <= m < digits.len() implies is_digit(#[trigger] digits@[m]) by {
                assert(digits@[m] == s@[i + m]);
                assert(s@[i + m] == t[m]);
                lemma_run_prefix(t, digit_pred(), m);
            }
            match digits_to_i64(&digits) {
                Some(v) => Ok((Some(Token::Number(v)), d)),
                None => Err(LexError::IntegerOutOfRange),
            }
        }
    } else if c == '"' {
        let q = scan_until(s, i + 1, '"');
        assert(s@.skip(i + 1) =~= t.skip(1));
        let body = slice_chars(s, i + 1, q);
        assert(body@ =~= t.subrange(1, q - i));
        let lit = Token::StringLiteral(string_of(body.as_slice()));
        if q < s.len() {
            Ok((Some(lit), q + 1))
        } else {
            Ok((Some(lit), q))
        }
    } else if c == '=' || c == '!' || c == '<' || c == '>' {
        let mut op: Vec<char> = Vec::new();
        op.push(c);
        if i + 1 < s.len() && s[i + 1] == '=' {
            op.push('=');
            assert(op@ =~= seq![c, '=']);
            Ok((Some(Token::Operator(string_of(op.as_slice()))), i + 2))
        } else {
            assert(op@ =~= seq![c]);
            Ok((Some(Token::Operator(string_of(op.as_slice()))), i + 1))
        }
    } else if c == '/' {
        if i + 1 < s.len() && s[i + 1] == '/' {
            let e = scan_until(s, i + 2, '\n');
            assert(s@.skip(i + 2) =~= t.skip(2));
            Ok((None, e))
        } else {
            Ok((Some(Token::Symbol('/')), i + 1))
        }
    } else if c == ':' || c == '+' || c == '-' || c == '*' || c == '{' || c == '}' || c == '('
        || c == ')' || c == ';' {
        Ok((Some(Token::Symbol(c)), i + 1))
    } else if blank(c) {
        Ok((None, i + 1))
    } else {
        Err(LexError::UnexpectedCharacter(c))
    }
}

proof fn lemma_run_prefix(t: Seq<char>, p: spec_fn(char) -> bool, m: int)
    requires
        0 <= m < run(t, p),
    ensures
        p(t[m]),
    decreases m,
{
    lemma_run_le(t, p);
    if m > 0 {
        lemma_run_prefix(t.drop_first(), p, m - 1);
        assert(t.drop_first()[m - 1] == t[m]);
    }
}

pub(crate) proof fn lemma_run_le(t: Seq<char>, p: spec_fn(char) -> bool)
    ensures
        run(t, p) <= t.len(),
    decreases t.len(),
{
    if t.len() > 0 {
        lemma_run_le(t.drop_first(), p);
    }
}

pub(crate) proof fn lemma_views_push(ts: Seq<Token>, t: Token)
    ensures
        views(ts.push(t)) == views(ts) + seq![t@],
{
    assert(views(ts.push(t)) =~= views(ts) + seq![t@]);
}

/// Splits source text into tokens.
pub struct Tokenizer;

impl Tokenizer {
    /// The tokens of `input`, or the first lexical error in it.
    pub fn tokenize(input: &str) -> (r: Result<Vec<Token>, LexError>)
        ensures
            match r {
                Ok(ts) => lex(input@) == Ok::<Seq<TokenView>, LexError>(views(ts@)),
                Err(e) => lex(input@) == Err::<Seq<TokenView>, LexError>(e),
            },
    {
        let s = chars_of(input);
        let n = s.len();
        let mut toks: Vec<Token> = Vec::new();
        let mut i: usize = 0;
        assert(s@.skip(0) =~= s@);
        assert(views(toks@) =~= seq![]);
        assert(prepend(seq![], lex(s@)) =~= lex(s@)) by {
            match lex(s@) {
                Ok(r) => { assert(seq![] + r =~= r); },
                Err(_) => {},
            }
        }
        while i < n
            invariant
                s@ == input@,
                n == s.len(),
                i <= n,
                lex(s@) == prepend(views(toks@), lex(s@.skip(i as int))),
            decreases n - i,
        {
            let ghost t = s@.skip(i as int);
            let res = next_token(&s, i);
            match res {
                Err(e) => {
                    return Err(e);
                },
                Ok((tok, j)) => {
                    proof {
                        assert(t.skip(j - i) =~= s@.skip(j as int));
                    }
                    match tok {
                        Some(x) => {
                            proof {
                                lemma_views_push(toks@, x);
                                match lex(s@.skip(j as int)) {
                                    Ok(r) => {
                                        assert(views(toks@) + (seq![x@] + r) =~= (views(toks@)
                                            + seq![x@]) + r);
                                    },
                                    Err(_) => {},
                                }
                            }
                            toks.push(x);
                        },
                        None => {},
                    }
                    i = j;
                },
            }
        }
        proof {
            assert(s@.skip(n as int) =~= seq![]);
            assert(views(toks@) + seq![] =~= views(toks@));
        }
        Ok(toks)
    }
}


pub open spec fn digit_char(d: nat) -> char {
    if d == 0 {
        '0'
    } else if d == 1 {
        '1'
    } else if d == 2 {
        '2'
    } else if d == 3 {
        '3'
    } else if d == 4 {
        '4'
    } else if d == 5 {
        '5'
    } else if d == 6 {
        '6'
    } else if d == 7 {
        '7'
    } else if d == 8 {
        '8'
    } else {
        '9'
    }
}

/// The decimal digits of `n`, without leading zeros.
pub open spec fn nat_text(n: nat) -> Seq<char>
    decreases n,
{
    if n < 10 {
        seq![digit_char(n)]
    } else {
        nat_text(n / 10).push(digit_char(n % 10))
    }
}

/// The decimal text of an integer, with a leading `-` when it is negative.
pub open spec fn int_text(n: int) -> Seq<char> {
    if n < 0 {
        seq!['-'] + nat_text((-n) as nat)
    } else {
        nat_text(n as nat)
    }
}

/// The source text of one token.
pub open spec fn render(t: TokenView) -> Seq<char> {
    match t {
        TokenView::Keyword(k) => k,
        TokenView::Identifier(i) => i,
        TokenView::Number(n) => int_text(n),
        TokenView::Symbol(c) => seq![c],
        TokenView::StringLiteral(s) => seq!['"'] + s + seq!['"'],
        TokenView::Operator(o) => o,
        TokenView::Float(f) => f,
        TokenView::Boolean(b) => if b {
            "true"@
        } else {
            "false"@
        },
    }
}

/// The source texts of the tokens, separated by single spaces.
pub open spec fn join(ts: Seq<TokenView>) -> Seq<char>
    decreases ts.len(),
{
    if ts.len() == 0 {
        seq![]
    } else if ts.len() == 1 {
        render(ts[0])
    } else {
        join(ts.drop_last()) + seq![' '] + render(ts.last())
    }
}

fn digit_to_char(d: u64) -> (c: char)
    requires
        d < 10,
    ensures
        c == digit_char(d as nat),
{
    if d == 0 {
        '0'
    } else if d == 1 {
        '1'
    } else if d == 2 {
        '2'
    } else if d == 3 {
        '3'
    } else if d == 4 {
        '4'
    } else if d == 5 {
        '5'
    } else if d == 6 {
        '6'
    } else if d == 7 {
        '7'
    } else if d == 8 {
        '8'
    } else {
        '9'
    }
}

/// The decimal text of `n`.
pub(crate) fn int_chars(n: i64) -> (r: Vec<char>)
    ensures
        r@ == int_text(n as int),
{
    let mag: u64 = if n < 0 {
        (0i128 - n as i128) as u64
    } else {
        n as u64
    };
    let mut acc: Vec<char> = vec![digit_to_char(mag % 10)];
    let mut m: u64 = mag / 10;
    proof {
        if mag >= 10 {
            assert(nat_text(mag as nat) =~= nat_text(m as nat) + acc@);
        } else {
            assert(nat_text(mag as nat) =~= acc@);
        }
    }
    while m > 0
        invariant
            m > 0 ==> nat_text(mag as nat) == nat_text(m as nat) + acc@,
            m == 0 ==> nat_text(mag as nat) == acc@,
        decreases m,
    {
        let ghost prev = acc@;
        acc.insert(0, digit_to_char(m % 10));
        proof {
            if m >= 10 {
                assert(nat_text(m as nat) == nat_text((m / 10) as nat).push(
                    digit_char((m % 10) as nat),
                ));
                assert(nat_text((m / 10) as nat) + acc@ =~= nat_text((m / 10) as nat).push(
                    digit_char((m % 10) as nat),
                ) + prev);
            } else {
                assert(acc@ =~= nat_text(m as nat) + prev);
            }
        }
        m = m / 10;
    }
    if n < 0 {
        acc.insert(0, '-');
        assert(acc@ =~= seq!['-'] + nat_text(mag as nat));
    }
    acc
}

/// Appends the source text of `t` to `out`.
fn render_into(t: &Token, out: &mut Vec<char>)
    ensures
        final(out)@ == old(out)@ + render(t@),
{
    let piece: Vec<char> = match t {
        Token::Keyword(k) => chars_of(k.as_str()),
        Token::Identifier(i) => chars_of(i.as_str()),
        Token::Number(n) => int_chars(*n),
        Token::Symbol(c) => vec![*c],
        Token::StringLiteral(s) => {
            let mut v: Vec<char> = vec!['"'];
            let body = chars_of(s.as_str());
            let mut k: usize = 0;
            while k < body.len()
                invariant
                    k <= body.len(),
                    v@ == seq!['"'] + body@.take(k as int),
                decreases body.len() - k,
            {
                v.push(body[k]);
                k = k + 1;
                assert(v@ =~= seq!['"'] + body@.take(k as int));
            }
            v.push('"');
            assert(body@.take(body.len() as int) =~= body@);
            v
        },
        Token::Operator(o) => chars_of(o.as_str()),
        Token::Float(f) => chars_of(f.as_str()),
        Token::Boolean(b) => if *b {
            chars_of("true")
        } else {
            chars_of("false")
        },
    };
    assert(piece@ =~= render(t@));
    let mut k: usize = 0;
    let ghost start = out@;
    while k < piece.len()
        invariant
            k <= piece.len(),
            out@ == start + piece@.take(k as int),
        decreases piece.len() - k,
    {
        out.push(piece[k]);
        k = k + 1;
        assert(out@ =~= start + piece@.take(k as int));
    }
    assert(piece@.take(piece.len() as int) =~= piece@);
}


proof fn lemma_join_step(ts: Seq<TokenView>, i: int)
    requires
        1 <= i < ts.len(),
    ensures
        join(ts.take(i + 1)) == join(ts.take(i)) + seq![' '] + render(ts[i]),
{
    assert(ts.take(i + 1).drop_last() =~= ts.take(i));
}

impl Tokenizer {
    /// The source text of `tokens`, one space between each two.
    pub fn reconstruct(tokens: &[Token]) -> (r: String)
        ensures
            r@ == join(views(tokens@)),
    {
        let mut out: Vec<char> = Vec::new();
        let mut i: usize = 0;
        let ghost vs = views(tokens@);
        while i < tokens.len()
            invariant
                i <= tokens.len(),
                vs == views(tokens@),
                out@ == join(vs.take(i as int)),
            decreases tokens.len() - i,
        {
            if i > 0 {
                out.push(' ');
                proof {
                    lemma_join_step(vs, i as int);
                }
            } else {
                assert(vs.take(1).drop_last() =~= seq![]);
            }
            render_into(&tokens[i], &mut out);
            i = i + 1;
        }
        assert(vs.take(tokens.len() as int) =~= vs);
        string_of(out.as_slice())
    }
}


/// A float literal's text: digits, a dot, digits.
pub open spec fn float_text_wf(f: Seq<char>) -> bool {
    let d = run(f, digit_pred()) as int;
    0 < d && d + 1 < f.len() && f[d] == '.' && forall|m: int|
        d < m < f.len() ==> is_digit(#[trigger] f[m])
}

/// A token that the lexer can produce: one whose text reads back as itself.
pub open spec fn token_wf(t: TokenView) -> bool {
    match t {
        TokenView::Keyword(k) => is_keyword_word(k),
        TokenView::Identifier(i) => i.len() > 0 && is_letter(i[0]) && (forall|m: int|
            0 <= m < i.len() ==> is_ident_char(#[trigger] i[m])) && !is_keyword_word(i) && i
            != "true"@ && i != "false"@,
        TokenView::Number(n) => 0 <= n <= i64::MAX,
        TokenView::Symbol(c) => is_single_symbol(c) || c == '/',
        TokenView::StringLiteral(s) => forall|m: int| 0 <= m < s.len() ==> #[trigger] s[m] != '"',
        TokenView::Operator(o) => (o.len() == 1 || (o.len() == 2 && o[1] == '='))
            && is_operator_char(o[0]),
        TokenView::Float(f) => float_text_wf(f),
        TokenView::Boolean(_) => true,
    }
}

/// Text that can follow a token's text without joining it.
pub open spec fn separated(tail: Seq<char>) -> bool {
    tail.len() == 0 || tail[0] == ' '
}

pub(crate) proof fn lemma_nat_text(n: nat)
    ensures
        nat_text(n).len() > 0,
        forall|m: int| 0 <= m < nat_text(n).len() ==> is_digit(#[trigger] nat_text(n)[m]),
        digits_value(nat_text(n)) == n,
    decreases n,
{
    if n >= 10 {
        lemma_nat_text(n / 10);
        let t = nat_text(n);
        assert(t.drop_last() =~= nat_text(n / 10));
        lemma_digit_char((n % 10) as nat);
        assert(t.last() == digit_char((n % 10) as nat));
        assert(n == (n / 10) * 10 + n % 10);
        assert(digits_value(t) == digits_value(t.drop_last()) * 10 + (t.last() as nat - '0' as nat) as nat);
        assert forall|m: int| 0 <= m < t.len() implies is_digit(#[trigger] t[m]) by {
            if m < t.len() - 1 {
                assert(t[m] == nat_text(n / 10)[m]);
            }
        }
    } else {
        let t = nat_text(n);
        assert(t.drop_last() =~= Seq::<char>::empty());
        assert(digits_value(t.drop_last()) == 0);
        lemma_digit_char(n);
        assert(digits_value(t) == digits_value(t.drop_last()) * 10 + (t.last() as nat - '0' as nat) as nat);
    }
}

proof fn lemma_digit_char(d: nat)
    requires
        d < 10,
    ensures
        is_digit(digit_char(d)),
        digit_char(d) as nat - '0' as nat == d,
{
}

proof fn lemma_word_run(w: Seq<char>, tail: Seq<char>)
    requires
        forall|m: int| 0 <= m < w.len() ==> is_ident_char(#[trigger] w[m]),
        separated(tail),
    ensures
        run(w + tail, ident_pred()) == w.len(),
        (w + tail).take(w.len() as int) == w,
{
    let s = w + tail;
    assert forall|m: int| 0 <= m < w.len() implies ident_pred()(#[trigger] s[m]) by {
        assert(s[m] == w[m]);
    }
    lemma_run_exact(s, ident_pred(), w.len() as int);
    assert(s.take(w.len() as int) =~= w);
}

pub(crate) proof fn lemma_literal_chars()
    ensures
        "print"@ == seq!['p', 'r', 'i', 'n', 't'],
        "variable"@ == seq!['v', 'a', 'r', 'i', 'a', 'b', 'l', 'e'],
        "update"@ == seq!['u', 'p', 'd', 'a', 't', 'e'],
        "true"@ == seq!['t', 'r', 'u', 'e'],
        "false"@ == seq!['f', 'a', 'l', 's', 'e'],
{
    reveal_strlit("print");
    reveal_strlit("variable");
    reveal_strlit("update");
    reveal_strlit("true");
    reveal_strlit("false");
    assert("print"@ =~= seq!['p', 'r', 'i', 'n', 't']);
    assert("variable"@ =~= seq!['v', 'a', 'r', 'i', 'a', 'b', 'l', 'e']);
    assert("update"@ =~= seq!['u', 'p', 'd', 'a', 't', 'e']);
    assert("true"@ =~= seq!['t', 'r', 'u', 'e']);
    assert("false"@ =~= seq!['f', 'a', 'l', 's', 'e']);
}

/// The lexer's step on the text of a token reads that token back.
proof fn lemma_step_render(t: TokenView, tail: Seq<char>)
    requires
        token_wf(t),
        separated(tail),
    ensures
        render(t).len() > 0,
        step(render(t) + tail) == Ok::<(Option<TokenView>, nat), LexError>(
            (Some(t), render(t).len()),
        ),
{
    let w = render(t);
    let s = w + tail;
    lemma_literal_chars();
    match t {
        TokenView::Keyword(k) => {
            assert(forall|m: int| 0 <= m < k.len() ==> is_ident_char(#[trigger] k[m]));
            lemma_word_run(k, tail);
            assert(s[0] == k[0]);
        },
        TokenView::Identifier(i) => {
            lemma_word_run(i, tail);
            assert(s[0] == i[0]);
        },
        TokenView::Boolean(b) => {
            assert(forall|m: int| 0 <= m < w.len() ==> is_ident_char(#[trigger] w[m]));
            lemma_word_run(w, tail);
            assert(s[0] == w[0]);
            assert(!is_keyword_word(w));
        },
        TokenView::Number(n) => {
            lemma_nat_text(n as nat);
            assert(w == nat_text(n as nat));
            assert forall|m: int| 0 <= m < w.len() implies digit_pred()(#[trigger] s[m]) by {
                assert(s[m] == w[m]);
            }
            lemma_run_exact(s, digit_pred(), w.len() as int);
            assert(s.take(w.len() as int) =~= w);
            assert(s[0] == w[0]);
        },
        TokenView::Float(f) => {
            let d = run(f, digit_pred()) as int;
            lemma_run_le(f, digit_pred());
            assert forall|m: int| 0 <= m < d implies digit_pred()(#[trigger] s[m]) by {
                lemma_run_prefix(f, digit_pred(), m);
                assert(s[m] == f[m]);
            }
            assert(s[d] == f[d]);
            lemma_run_exact(s, digit_pred(), d);
            let r = s.skip(d + 1);
            let k = f.len() - d - 1;
            assert forall|m: int| 0 <= m < k implies digit_pred()(#[trigger] r[m]) by {
                assert(r[m] == f[d + 1 + m]);
            }
            lemma_run_exact(r, digit_pred(), k);
            assert(s.take(f.len() as int) =~= f);
            lemma_run_prefix(f, digit_pred(), 0);
            assert(s[0] == f[0]);
            assert(s[d + 1] == f[d + 1]);
        },
        TokenView::StringLiteral(b) => {
            let r = s.skip(1);
            assert forall|m: int| 0 <= m < b.len() implies not_char_pred('"')(#[trigger] r[m]) by {
                assert(r[m] == b[m]);
            }
            assert(r[b.len() as int] == '"');
            lemma_run_exact(r, not_char_pred('"'), b.len() as int);
            assert(s.subrange(1, 1 + b.len() as int) =~= b);
        },
        TokenView::Operator(o) => {
            assert(s[0] == o[0]);
            if o.len() == 2 {
                assert(s[1] == '=');
                assert(o =~= seq![o[0], '=']);
            } else {
                assert(o =~= seq![o[0]]);
            }
        },
        TokenView::Symbol(c) => {
            assert(s[0] == c);
        },
    }
}

proof fn lemma_lex_render(t: TokenView, tail: Seq<char>)
    requires
        token_wf(t),
        separated(tail),
    ensures
        lex(render(t) + tail) == prepend(seq![t], lex(tail)),
{
    lemma_step_render(t, tail);
    let s = render(t) + tail;
    assert(s.skip(render(t).len() as int) =~= tail);
}

proof fn lemma_lex_space(r: Seq<char>)
    ensures
        lex(seq![' '] + r) == lex(r),
{
    let s = seq![' '] + r;
    assert(s[0] == ' ');
    assert(s.skip(1) =~= r);
}

proof fn lemma_prepend_assoc(a: Seq<TokenView>, b: Seq<TokenView>, x: Result<Seq<TokenView>, LexError>)
    ensures
        prepend(a, prepend(b, x)) == prepend(a + b, x),
{
    match x {
        Ok(r) => {
            assert(a + (b + r) =~= (a + b) + r);
        },
        Err(_) => {},
    }
}

proof fn lemma_lex_join(ts: Seq<TokenView>, tail: Seq<char>)
    requires
        forall|m: int| 0 <= m < ts.len() ==> token_wf(#[trigger] ts[m]),
        separated(tail),
    ensures
        lex(join(ts) + tail) == prepend(ts, lex(tail)),
    decreases ts.len(),
{
    if ts.len() == 0 {
        assert(join(ts) + tail =~= tail);
        lemma_prepend_assoc(seq![], seq![], lex(tail));
        match lex(tail) {
            Ok(r) => {
                assert(ts + r =~= r);
            },
            Err(_) => {},
        }
    } else if ts.len() == 1 {
        lemma_lex_render(ts[0], tail);
        assert(ts =~= seq![ts[0]]);
    } else {
        let init = ts.drop_last();
        let x = seq![' '] + (render(ts.last()) + tail);
        assert(join(ts) + tail =~= join(init) + x);
        lemma_lex_join(init, x);
        lemma_lex_space(render(ts.last()) + tail);
        lemma_lex_render(ts.last(), tail);
        lemma_prepend_assoc(init, seq![ts.last()], lex(tail));
        assert(init + seq![ts.last()] =~= ts);
    }
}

/// Reading back the text that `reconstruct` writes gives the same tokens,
/// kinds and values, for every sequence of tokens that the lexer can produce.
pub proof fn lemma_reconstruct_round_trip(ts: Seq<TokenView>)
    requires
        forall|m: int| 0 <= m < ts.len() ==> token_wf(#[trigger] ts[m]),
    ensures
        lex(join(ts)) == Ok::<Seq<TokenView>, LexError>(ts),
{
    lemma_lex_join(ts, seq![]);
    assert(join(ts) + seq![] =~= join(ts));
    assert(ts + seq![] =~= ts);
    assert(seq![] + seq![] =~= Seq::<char>::empty());
}


/// Every token that one lexer step reads is well formed.
proof fn lemma_step_wf(s: Seq<char>)
    requires
        s.len() > 0,
        step(s) is Ok,
    ensures
        match step(s) {
            Ok((Some(t), n)) => token_wf(t) && 0 < n <= s.len(),
            Ok((None, n)) => 0 < n <= s.len(),
            Err(_) => true,
        },
{
    let c = s[0];
    lemma_literal_chars();
    if is_letter(c) {
        let n = run(s, ident_pred());
        lemma_run_le(s, ident_pred());
        assert(ident_pred()(s[0]));
        let w = s.take(n as int);
        assert forall|m: int| 0 <= m < w.len() implies is_ident_char(#[trigger] w[m]) by {
            lemma_run_prefix(s, ident_pred(), m);
        }
        assert(w[0] == c);
    } else if is_digit(c) {
        let d = run(s, digit_pred()) as int;
        lemma_run_le(s, digit_pred());
        assert(digit_pred()(s[0]));
        if d + 1 < s.len() && s[d] == '.' && is_digit(s[d + 1]) {
            let r = s.skip(d + 1);
            let f2 = run(r, digit_pred()) as int;
            lemma_run_le(r, digit_pred());
            assert(r[0] == s[d + 1]);
            assert(digit_pred()(r[0]));
            let f = s.take(d + 1 + f2);
            assert forall|m: int| 0 <= m < d implies digit_pred()(#[trigger] f[m]) by {
                lemma_run_prefix(s, digit_pred(), m);
            }
            lemma_run_exact(f, digit_pred(), d);
            assert forall|m: int| d < m < f.len() implies is_digit(#[trigger] f[m]) by {
                lemma_run_prefix(r, digit_pred(), m - d - 1);
                assert(f[m] == r[m - d - 1]);
            }
        }
    } else if c == '"' {
        let r = s.skip(1);
        let q = run(r, not_char_pred('"')) as int;
        lemma_run_le(r, not_char_pred('"'));
        let body = s.subrange(1, 1 + q);
        assert forall|m: int| 0 <= m < body.len() implies #[trigger] body[m] != '"' by {
            lemma_run_prefix(r, not_char_pred('"'), m);
            assert(body[m] == r[m]);
        }
    } else if c == '/' {
        if s.len() > 1 && s[1] == '/' {
            lemma_run_le(s.skip(2), not_char_pred('\n'));
        }
    }
}

/// Every token that the lexer produces is well formed.
pub proof fn lemma_lex_wf(s: Seq<char>)
    requires
        lex(s) is Ok,
    ensures
        forall|m: int| 0 <= m < lex(s)->Ok_0.len() ==> token_wf(#[trigger] lex(s)->Ok_0[m]),
    decreases s.len(),
{
    if s.len() > 0 {
        lemma_step_wf(s);
        match step(s) {
            Ok((t, n)) => {
                lemma_lex_wf(s.skip(n as int));
                match t {
                    Some(tok) => {
                        let rest = lex(s.skip(n as int))->Ok_0;
                        assert forall|m: int| 0 <= m < lex(s)->Ok_0.len() implies token_wf(
                            #[trigger] lex(s)->Ok_0[m],
                        ) by {
                            if m > 0 {
                                assert(lex(s)->Ok_0[m] == rest[m - 1]);
                            }
                        }
                    },
                    None => {},
                }
            },
            Err(_) => {},
        }
    }
}

/// Tokenizing the reconstructed text of what the lexer read gives back the
/// same tokens, kinds and values.
pub proof fn lemma_tokenize_reconstruct(s: Seq<char>)
    requires
        lex(s) is Ok,
    ensures
        lex(join(lex(s)->Ok_0)) == lex(s),
{
    lemma_lex_wf(s);
    lemma_reconstruct_round_trip(lex(s)->Ok_0);
}

} // verus!
