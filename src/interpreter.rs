use vstd::prelude::*;
use crate::error::{Error, Fault, Tag};
use crate::numbers::float_display_text;
use crate::semantics::{
    Machine, Outcome, block_len, condition_of, eval_condition, for_header, through, run, run_loop,
    print_stmt, declaration_stmt, update_stmt, group_stmt, add_to, display, literal_text,
    with_scopes, MAX_LOOP_ITERATIONS,
};
use crate::token::{Token, TokenView, Tokenizer, views, lex, int_chars, string_of, lemma_views_push,
    lemma_literal_chars,
};
use crate::variables::{Value, ValueView, VarManager, Variable, declare, lookup};

verus! {

proof fn lemma_equals_sign()
    ensures
        "="@ == seq!['='],
{
    reveal_strlit("=");
    assert("="@ =~= seq!['=']);
}

proof fn lemma_words()
    ensures
        "print"@ == seq!['p', 'r', 'i', 'n', 't'],
        "variable"@ == seq!['v', 'a', 'r', 'i', 'a', 'b', 'l', 'e'],
        "update"@ == seq!['u', 'p', 'd', 'a', 't', 'e'],
        "if"@ == seq!['i', 'f'],
        "while"@ == seq!['w', 'h', 'i', 'l', 'e'],
        "for"@ == seq!['f', 'o', 'r'],
{
    lemma_literal_chars();
    reveal_strlit("if");
    reveal_strlit("while");
    reveal_strlit("for");
    assert("if"@ =~= seq!['i', 'f']);
    assert("while"@ =~= seq!['w', 'h', 'i', 'l', 'e']);
    assert("for"@ =~= seq!['f', 'o', 'r']);
}

/// Whether `s` reads `w`.
fn text_is(s: &String, w: &str) -> (r: bool)
    ensures
        r == (s@ == w@),
{
    let x = String::from_str(w);
    *s == x
}

fn is_symbol(t: &Token, c: char) -> (r: bool)
    ensures
        r == (t@ == TokenView::Symbol(c)),
{
    match t {
        Token::Symbol(x) => *x == c,
        _ => false,
    }
}

fn is_keyword(t: &Token, w: &str) -> (r: bool)
    ensures
        r == (t@ == TokenView::Keyword(w@)),
{
    match t {
        Token::Keyword(k) => text_is(k, w),
        _ => false,
    }
}

fn is_identifier(t: &Token, w: &str) -> (r: bool)
    ensures
        r == (t@ == TokenView::Identifier(w@)),
{
    match t {
        Token::Identifier(k) => text_is(k, w),
        _ => false,
    }
}

fn is_operator(t: &Token, w: &str) -> (r: bool)
    ensures
        r == (t@ == TokenView::Operator(w@)),
{
    match t {
        Token::Operator(k) => text_is(k, w),
        _ => false,
    }
}

proof fn lemma_views_sub(t: Seq<Token>, a: int, b: int)
    requires
        0 <= a <= b <= t.len(),
    ensures
        views(t.subrange(a, b)) == views(t).subrange(a, b),
{
    assert(views(t.subrange(a, b)) =~= views(t).subrange(a, b));
}

/// Copies of the tokens `t[a..b]`.
fn copy_range(t: &Vec<Token>, a: usize, b: usize) -> (r: Vec<Token>)
    requires
        a <= b <= t.len(),
    ensures
        views(r@) == views(t@).subrange(a as int, b as int),
{
    let mut r: Vec<Token> = Vec::new();
    let mut k: usize = a;
    while k < b
        invariant
            a <= k <= b <= t.len(),
            views(r@) == views(t@).subrange(a as int, k as int),
        decreases b - k,
    {
        let x = t[k].duplicate();
        proof {
            lemma_views_push(r@, x);
            assert(views(t@)[k as int] == t@[k as int]@);
            assert(views(r@.push(x)) =~= views(t@).subrange(a as int, k + 1));
        }
        r.push(x);
        k = k + 1;
    }
    r
}

/// The end of the run counted by `through` on `t[lo..hi]`.
fn through_end(t: &Vec<Token>, lo: usize, hi: usize, c: char) -> (r: usize)
    requires
        lo <= hi <= t.len(),
    ensures
        lo <= r <= hi,
        r - lo == through(views(t@).subrange(lo as int, hi as int), c),
{
    let ghost v = views(t@);
    let mut pos: usize = lo;
    while pos < hi && !is_symbol(&t[pos], c)
        invariant
            lo <= pos <= hi <= t.len(),
            v == views(t@),
            through(v.subrange(lo as int, hi as int), c) == (pos - lo) + through(
                v.subrange(pos as int, hi as int),
                c,
            ),
        decreases hi - pos,
    {
        assert(v.subrange(pos as int, hi as int).drop_first() =~= v.subrange(pos + 1, hi as int));
        pos = pos + 1;
    }
    if pos < hi {
        pos + 1
    } else {
        pos
    }
}

pub open spec fn shift(r: Option<nat>, k: int) -> Option<nat> {
    match r {
        Some(n) => Some((n + k) as nat),
        None => None,
    }
}

/// The end of the block whose tokens start at `t[lo]`, just inside its `{`.
fn block_end(t: &Vec<Token>, lo: usize, hi: usize) -> (r: Option<usize>)
    requires
        lo <= hi <= t.len(),
    ensures
        match r {
            Some(e) => lo < e <= hi && block_len(views(t@).subrange(lo as int, hi as int), 1)
                == Some((e - lo) as nat),
            None => block_len(views(t@).subrange(lo as int, hi as int), 1) is None,
        },
{
    let ghost v = views(t@);
    let mut pos: usize = lo;
    let mut depth: u128 = 1;
    while pos < hi
        invariant
            lo <= pos <= hi <= t.len(),
            v == views(t@),
            1 <= depth <= pos - lo + 1,
            block_len(v.subrange(lo as int, hi as int), 1) == shift(
                block_len(v.subrange(pos as int, hi as int), depth as nat),
                pos - lo,
            ),
        decreases hi - pos,
    {
        let ghost s = v.subrange(pos as int, hi as int);
        assert(s.drop_first() =~= v.subrange(pos + 1, hi as int));
        assert(s[0] == t@[pos as int]@);
        if is_symbol(&t[pos], '{') {
            depth = depth + 1;
        } else if is_symbol(&t[pos], '}') {
            if depth <= 1 {
                return Some(pos + 1);
            }
            depth = depth - 1;
        }
        pos = pos + 1;
    }
    None
}

pub open spec fn prefix_groups(
    a: Seq<TokenView>,
    b: Seq<TokenView>,
    c: Seq<TokenView>,
    k: int,
    r: Option<(Seq<TokenView>, Seq<TokenView>, Seq<TokenView>, nat)>,
) -> Option<(Seq<TokenView>, Seq<TokenView>, Seq<TokenView>, nat)> {
    match r {
        Some((x, y, z, n)) => Some((a + x, b + y, c + z, (n + k) as nat)),
        None => None,
    }
}

/// The groups of a `for` header that starts at `t[lo]`, and the end of the header.
fn for_header_end(t: &Vec<Token>, lo: usize, hi: usize) -> (r: Option<
    (Vec<Token>, Vec<Token>, Vec<Token>, usize),
>)
    requires
        lo <= hi <= t.len(),
    ensures
        match r {
            Some((a, b, c, e)) => lo < e <= hi && for_header(
                views(t@).subrange(lo as int, hi as int),
                0,
            ) == Some((views(a@), views(b@), views(c@), (e - lo) as nat)),
            None => for_header(views(t@).subrange(lo as int, hi as int), 0) is None,
        },
{
    let ghost v = views(t@);
    let mut a: Vec<Token> = Vec::new();
    let mut b: Vec<Token> = Vec::new();
    let mut c: Vec<Token> = Vec::new();
    let mut stage: usize = 0;
    let mut pos: usize = lo;
    assert(views(a@) =~= seq![]);
    assert(views(b@) =~= seq![]);
    assert(views(c@) =~= seq![]);
    proof {
        let r0 = for_header(v.subrange(lo as int, hi as int), 0);
        match r0 {
            Some((x, y, z, n)) => {
                assert(seq![] + x =~= x);
                assert(seq![] + y =~= y);
                assert(seq![] + z =~= z);
            },
            None => {},
        }
    }
    while pos < hi
        invariant
            lo <= pos <= hi <= t.len(),
            v == views(t@),
            stage <= pos - lo,
            for_header(v.subrange(lo as int, hi as int), 0) == prefix_groups(
                views(a@),
                views(b@),
                views(c@),
                pos - lo,
                for_header(v.subrange(pos as int, hi as int), stage as nat),
            ),
        decreases hi - pos,
    {
        let ghost s = v.subrange(pos as int, hi as int);
        let ghost rest = v.subrange(pos + 1, hi as int);
        assert(s.drop_first() =~= rest);
        assert(s[0] == t@[pos as int]@);
        if is_symbol(&t[pos], '{') {
            proof {
                assert(views(a@) + seq![] =~= views(a@));
                assert(views(b@) + seq![] =~= views(b@));
                assert(views(c@) + seq![] =~= views(c@));
            }
            return Some((a, b, c, pos + 1));
        }
        let semi = is_symbol(&t[pos], ';');
        let paren = is_symbol(&t[pos], '(') || is_symbol(&t[pos], ')');
        let ghost old_stage = stage;
        if semi {
            stage = stage + 1;
        }
        if !(semi || paren) {
            if stage > 2 {
                return None;
            }
            let x = t[pos].duplicate();
            let ghost xv = x@;
            proof {
                match for_header(rest, stage as nat) {
                    Some((p, q, w, n)) => {
                        if stage == 0 {
                            assert(views(a@) + (seq![xv] + p) =~= views(a@.push(x)) + p);
                        } else if stage == 1 {
                            assert(views(b@) + (seq![xv] + q) =~= views(b@.push(x)) + q);
                        } else {
                            assert(views(c@) + (seq![xv] + w) =~= views(c@.push(x)) + w);
                        }
                    },
                    None => {},
                }
                assert(views(a@.push(x)) =~= views(a@) + seq![xv]);
                assert(views(b@.push(x)) =~= views(b@) + seq![xv]);
                assert(views(c@.push(x)) =~= views(c@) + seq![xv]);
            }
            if stage == 0 {
                a.push(x);
            } else if stage == 1 {
                b.push(x);
            } else {
                c.push(x);
            }
        }
        pos = pos + 1;
    }
    None
}


/// Whether a call's result and the state it leaves are those of the outcome `o`.
pub open spec fn agrees(r: Result<(), Error>, o: Outcome, m: Machine) -> bool {
    m == o.0 && match r {
        Ok(_) => o.1 is None,
        Err(e) => o.1 == Some(e@),
    }
}

/// The text that `print` writes for `v`.
fn display_value(v: &Value) -> (r: String)
    ensures
        r@ == display(v@),
{
    match v {
        Value::Integer(i) => string_of(int_chars(*i).as_slice()),
        Value::Float(f) => float_display_text(f),
        Value::String(s) => s.clone(),
        Value::Boolean(b) => if *b {
            String::from_str("true")
        } else {
            String::from_str("false")
        },
    }
}

/// The text that a literal token hands to a declaration or an assignment.
fn literal_string(t: &Token) -> (r: Option<String>)
    ensures
        match r {
            Some(s) => literal_text(t@) == Some(s@),
            None => literal_text(t@) is None,
        },
{
    match t {
        Token::StringLiteral(s) => {
            let body = crate::token::chars_of(s.as_str());
            let mut cs: Vec<char> = vec!['"'];
            let mut k: usize = 0;
            while k < body.len()
                invariant
                    k <= body.len(),
                    cs@ == seq!['"'] + body@.take(k as int),
                decreases body.len() - k,
            {
                cs.push(body[k]);
                k = k + 1;
                assert(cs@ =~= seq!['"'] + body@.take(k as int));
            }
            cs.push('"');
            assert(body@.take(body.len() as int) =~= body@);
            assert(cs@ =~= seq!['"'] + s@ + seq!['"']);
            Some(string_of(cs.as_slice()))
        },
        Token::Number(n) => Some(string_of(int_chars(*n).as_slice())),
        Token::Float(f) => Some(f.clone()),
        Token::Boolean(b) => if *b {
            Some(String::from_str("true"))
        } else {
            Some(String::from_str("false"))
        },
        _ => None,
    }
}

/// Runs scripts against one scope stack, collecting the lines they print.
pub struct Interpreter {
    var_manager: VarManager,
    output: Vec<String>,
}

impl View for Interpreter {
    type V = Machine;

    closed spec fn view(&self) -> Machine {
        Machine { scopes: self.var_manager@, out: self.output@.map_values(|s: String| s@) }
    }
}

impl Interpreter {
    /// The scope stack is well formed; see `VarManager::well_formed`.
    pub closed spec fn well_formed(&self) -> bool {
        self.var_manager.well_formed()
    }

    /// An interpreter with an empty global scope that has printed nothing.
    pub fn new() -> (r: Self)
        ensures
            r.well_formed(),
            r@.scopes == seq![Map::<Seq<char>, ValueView>::empty()],
            r@.out == Seq::<Seq<char>>::empty(),
    {
        let r = Interpreter { var_manager: VarManager::new(), output: Vec::new() };
        assert(r@.out =~= Seq::<Seq<char>>::empty());
        r
    }

    /// The lines printed so far, in order.
    pub fn output(&self) -> (r: &Vec<String>)
        ensures
            r@.map_values(|s: String| s@) == self@.out,
    {
        &self.output
    }

    fn emit(&mut self, line: String)
        ensures
            final(self)@ == (Machine { scopes: old(self)@.scopes, out: old(self)@.out.push(line@) }),
            final(self).var_manager == old(self).var_manager,
    {
        self.output.push(line);
        assert(self.output@.map_values(|s: String| s@) =~= old(self)@.out.push(line@));
    }

    /// Declares `name` with the literal text `text`; see `declare`.
    fn set_var(&mut self, name: &String, text: &String)
        requires
            old(self).well_formed(),
        ensures
            final(self)@ == with_scopes(old(self)@, declare(old(self)@.scopes, name@, text@)),
            final(self).well_formed(),
    {
        let bound = match self.var_manager.get(name.as_str()) {
            Some(_) => true,
            None => false,
        };
        if bound {
            let _ = self.var_manager.assign(name.as_str(), text.as_str());
        } else {
            match self.var_manager.parse_value(text.as_str()) {
                Some(v) => self.var_manager.define(name.clone(), Variable { value: v }),
                None => {},
            }
        }
    }

    /// Adds `delta` to the integer variable `name`; see `add_to`.
    fn add_to_var(&mut self, name: &String, delta: i128) -> (r: Result<(), Error>)
        requires
            old(self).well_formed(),
            -0x8000_0000_0000_0000 <= delta <= 0x8000_0000_0000_0000,
        ensures
            agrees(r, add_to(name@, delta as int, old(self)@), final(self)@),
            final(self).well_formed(),
    {
        let found: Option<Option<i64>> = match self.var_manager.get(name.as_str()) {
            None => None,
            Some(var) => Some(
                match &var.value {
                    Value::Integer(i) => Some(*i),
                    _ => None,
                },
            ),
        };
        match found {
            None => Err(Error::UndefinedVariable(name.clone())),
            Some(None) => Err(Error::TypeMismatch { name: name.clone(), expected: Tag::Integer }),
            Some(Some(i)) => {
                let sum: i128 = i as i128 + delta;
                if sum < -0x8000_0000_0000_0000 || sum > 0x7fff_ffff_ffff_ffff {
                    Err(Error::Overflow(name.clone()))
                } else {
                    let text = string_of(int_chars(sum as i64).as_slice());
                    self.set_var(name, &text);
                    Ok(())
                }
            },
        }
    }

    /// Whether the comparison `c` holds; see `eval_condition`.
    fn eval_cond(&self, c: &Vec<Token>) -> (r: Option<bool>)
        ensures
            r == eval_condition(views(c@), self@.scopes),
    {
        let ghost v = views(c@);
        if c.len() < 3 {
            return None;
        }
        assert(v[0] == c@[0]@ && v[1] == c@[1]@ && v[2] == c@[2]@);
        let left: Option<i64> = match &c[0] {
            Token::Identifier(n) => match self.var_manager.get(n.as_str()) {
                Some(var) => match &var.value {
                    Value::Integer(i) => Some(*i),
                    _ => None,
                },
                None => None,
            },
            Token::Number(n) => Some(*n),
            _ => None,
        };
        match (left, &c[1], &c[2]) {
            (Some(l), Token::Operator(o), Token::Number(r)) => {
                let ocs = crate::token::chars_of(o.as_str());
                if ocs.len() != 1 {
                    assert(o@ != seq!['<'] && o@ != seq!['>'] && o@ != seq!['=']);
                    None
                } else if ocs[0] == '<' {
                    assert(o@ =~= seq!['<']);
                    Some(l < *r)
                } else if ocs[0] == '>' {
                    assert(o@ =~= seq!['>']);
                    Some(l > *r)
                } else if ocs[0] == '=' {
                    assert(o@ =~= seq!['=']);
                    Some(l == *r)
                } else {
                    assert(o@ != seq!['<'] && o@ != seq!['>'] && o@ != seq!['=']);
                    None
                }
            },
            _ => None,
        }
    }
}


impl Interpreter {
    fn exec_print(&mut self, t: &Vec<Token>, a: usize, b: usize) -> (r: Result<(), Error>)
        requires
            a <= b <= t.len(),
            old(self).well_formed(),
        ensures
            agrees(r, print_stmt(views(t@).subrange(a as int, b as int), old(self)@), final(self)@),
            final(self).well_formed(),
    {
        let ghost s = views(t@).subrange(a as int, b as int);
        if b - a != 2 || !is_symbol(&t[a + 1], ';') {
            return Err(Error::Syntax(String::from_str("print <value> ;")));
        }
        assert(s[0] == t@[a as int]@ && s[1] == t@[a + 1]@);
        match &t[a] {
            Token::StringLiteral(x) => {
                self.emit(x.clone());
                Ok(())
            },
            Token::Identifier(n) => {
                let line = match self.var_manager.get(n.as_str()) {
                    Some(var) => Some(display_value(&var.value)),
                    None => None,
                };
                match line {
                    Some(l) => {
                        self.emit(l);
                        Ok(())
                    },
                    None => Err(Error::UndefinedVariable(n.clone())),
                }
            },
            Token::Number(i) => {
                self.emit(string_of(int_chars(*i).as_slice()));
                Ok(())
            },
            Token::Float(f) => {
                self.emit(float_display_text(f));
                Ok(())
            },
            Token::Boolean(x) => {
                let l = if *x {
                    String::from_str("true")
                } else {
                    String::from_str("false")
                };
                self.emit(l);
                Ok(())
            },
            _ => Err(Error::Syntax(String::from_str("print <value> ;"))),
        }
    }

    fn exec_declaration(&mut self, t: &Vec<Token>, a: usize, b: usize) -> (r: Result<(), Error>)
        requires
            a <= b <= t.len(),
            old(self).well_formed(),
        ensures
            agrees(
                r,
                declaration_stmt(views(t@).subrange(a as int, b as int), old(self)@),
                final(self)@,
            ),
            final(self).well_formed(),
    {
        let ghost s = views(t@).subrange(a as int, b as int);
        proof {
            lemma_equals_sign();
        }
        if b - a == 4 {
            assert(s[0] == t@[a as int]@ && s[1] == t@[a + 1]@ && s[2] == t@[a + 2]@ && s[3]
                == t@[a + 3]@);
            if is_operator(&t[a + 1], "=") && is_symbol(&t[a + 3], ';') {
                match (&t[a], literal_string(&t[a + 2])) {
                    (Token::Identifier(n), Some(text)) => {
                        self.set_var(n, &text);
                        return Ok(());
                    },
                    _ => {},
                }
            }
        }
        Err(Error::Syntax(String::from_str("variable <name> = <literal> ;")))
    }

    fn exec_update(&mut self, t: &Vec<Token>, a: usize, b: usize) -> (r: Result<(), Error>)
        requires
            a <= b <= t.len(),
            old(self).well_formed(),
        ensures
            agrees(r, update_stmt(views(t@).subrange(a as int, b as int), old(self)@), final(self)@),
            final(self).well_formed(),
    {
        let ghost s = views(t@).subrange(a as int, b as int);
        proof {
            lemma_equals_sign();
        }
        if b - a == 4 {
            assert(s[0] == t@[a as int]@ && s[1] == t@[a + 1]@ && s[2] == t@[a + 2]@ && s[3]
                == t@[a + 3]@);
            if is_symbol(&t[a + 3], ';') {
                match &t[a] {
                    Token::Identifier(n) => {
                        if is_symbol(&t[a + 1], '+') && is_symbol(&t[a + 2], '+') {
                            return self.add_to_var(n, 1);
                        } else if is_symbol(&t[a + 1], '-') && is_symbol(&t[a + 2], '-') {
                            return self.add_to_var(n, -1);
                        }
                        match &t[a + 2] {
                            Token::Number(k) => {
                                if is_symbol(&t[a + 1], '+') {
                                    return self.add_to_var(n, *k as i128);
                                } else if is_symbol(&t[a + 1], '-') {
                                    return self.add_to_var(n, -(*k as i128));
                                }
                            },
                            _ => {},
                        }
                        if is_operator(&t[a + 1], "=") {
                            match literal_string(&t[a + 2]) {
                                Some(text) => {
                                    self.set_var(n, &text);
                                    return Ok(());
                                },
                                None => {},
                            }
                        }
                    },
                    _ => {},
                }
            }
        }
        Err(Error::Syntax(String::from_str("update <name> ++|--|+ <int>|- <int>|= <literal> ;")))
    }

    fn exec_group(&mut self, g: &Vec<Token>) -> (r: Result<(), Error>)
        requires
            old(self).well_formed(),
        ensures
            agrees(r, group_stmt(views(g@), old(self)@), final(self)@),
            final(self).well_formed(),
    {
        let ghost s = views(g@);
        proof {
            lemma_equals_sign();
        }
        let n = g.len();
        if n >= 3 {
            assert(s[0] == g@[0]@ && s[1] == g@[1]@ && s[2] == g@[2]@);
        }
        if n >= 4 {
            assert(s[3] == g@[3]@);
        }
        if n == 5 {
            assert(s[4] == g@[4]@);
        }
        if n >= 3 {
            match &g[0] {
                Token::Identifier(name) => {
                    if n == 3 && is_operator(&g[1], "=") {
                        match literal_string(&g[2]) {
                            Some(text) => {
                                self.set_var(name, &text);
                                return Ok(());
                            },
                            None => {},
                        }
                    } else if n == 3 && is_symbol(&g[1], '+') {
                        match &g[2] {
                            Token::Number(v) => {
                                return self.add_to_var(name, *v as i128);
                            },
                            _ => {},
                        }
                    } else if n == 4 && is_symbol(&g[1], '+') && is_operator(&g[2], "=") {
                        match &g[3] {
                            Token::Number(v) => {
                                return self.add_to_var(name, *v as i128);
                            },
                            _ => {},
                        }
                    } else if n == 5 && is_operator(&g[1], "=") && is_identifier(&g[2], name.as_str())
                        && is_symbol(&g[3], '+') {
                        match &g[4] {
                            Token::Number(v) => {
                                return self.add_to_var(name, *v as i128);
                            },
                            _ => {},
                        }
                    }
                },
                _ => {},
            }
        }
        Err(
            Error::Syntax(
                String::from_str("<name> = <literal>, <name> + <int>, <name> += <int> or <name> = <name> + <int>"),
            ),
        )
    }
}


/// The condition tokens of the header `t[a..b]`; see `condition_of`.
fn condition_tokens(t: &Vec<Token>, a: usize, b: usize) -> (r: Vec<Token>)
    requires
        a <= b <= t.len(),
    ensures
        views(r@) == condition_of(views(t@).subrange(a as int, b as int)),
{
    let ghost v = views(t@);
    let ghost header = v.subrange(a as int, b as int);
    if a == b {
        let r: Vec<Token> = Vec::new();
        assert(views(r@) =~= header);
        return r;
    }
    assert(header.drop_first() =~= v.subrange(a + 1, b as int));
    let e = through_end(t, a + 1, b, ')');
    if e > a + 1 && is_symbol(&t[e - 1], ')') {
        assert(header.drop_first()[e - a - 2] == t@[e - 1]@);
        assert(v.subrange(a + 1, b as int).take(e - a - 2) =~= v.subrange(a + 1, e - 1));
        copy_range(t, a + 1, e - 1)
    } else {
        proof {
            if e > a + 1 {
                assert(header.drop_first()[e - a - 2] == t@[e - 1]@);
            }
        }
        copy_range(t, a + 1, b)
    }
}

impl Interpreter {
    /// Runs the statements of `t[lo..hi]`; see `run`.
    #[verifier::rlimit(100)]
    fn run_range(&mut self, t: &Vec<Token>, lo: usize, hi: usize) -> (r: Result<(), Error>)
        requires
            lo <= hi <= t.len(),
            old(self).well_formed(),
        ensures
            agrees(r, run(views(t@).subrange(lo as int, hi as int), old(self)@), final(self)@),
            final(self).well_formed(),
        decreases hi - lo, 0nat,
    {
        let ghost v = views(t@);
        proof {
            lemma_words();
        }
        let mut pos: usize = lo;
        while pos < hi
            invariant
                lo <= pos <= hi <= t.len(),
                v == views(t@),
                self.well_formed(),
                run(v.subrange(lo as int, hi as int), old(self)@) == run(
                    v.subrange(pos as int, hi as int),
                    self@,
                ),
            decreases hi - pos,
        {
            let ghost s = v.subrange(pos as int, hi as int);
            let ghost rest = v.subrange(pos + 1, hi as int);
            assert(s.drop_first() =~= rest);
            assert(s[0] == t@[pos as int]@);
            let head = &t[pos];
            let is_print = is_keyword(head, "print");
            let is_var = is_keyword(head, "variable");
            let is_upd = is_keyword(head, "update");
            if is_print || is_var || is_upd {
                let e = through_end(t, pos + 1, hi, ';');
                assert(rest.take(e - pos - 1) =~= v.subrange(pos + 1, e as int));
                assert(rest.skip(e - pos - 1) =~= v.subrange(e as int, hi as int));
                let res = if is_print {
                    self.exec_print(t, pos + 1, e)
                } else if is_var {
                    self.exec_declaration(t, pos + 1, e)
                } else {
                    self.exec_update(t, pos + 1, e)
                };
                match res {
                    Err(err) => {
                        return Err(err);
                    },
                    Ok(()) => {},
                }
                pos = e;
            } else if is_identifier(head, "if") || is_identifier(head, "while") {
                let is_if = is_identifier(head, "if");
                let h_end = through_end(t, pos + 1, hi, ')');
                if h_end < hi && is_symbol(&t[h_end], '{') {
                    assert(rest[h_end - pos - 1] == t@[h_end as int]@);
                    assert(rest.take(h_end - pos - 1) =~= v.subrange(pos + 1, h_end as int));
                    assert(rest.skip(h_end - pos - 1 + 1) =~= v.subrange(h_end + 1, hi as int));
                    let cond = condition_tokens(t, pos + 1, h_end);
                    match block_end(t, h_end + 1, hi) {
                        Some(be) => {
                            let ghost inside = v.subrange(h_end + 1, hi as int);
                            assert(inside.take(be - h_end - 2) =~= v.subrange(h_end + 1, be - 1));
                            assert(inside.skip(be - h_end - 1) =~= v.subrange(be as int, hi as int));
                            if is_if {
                                if self.eval_cond(&cond) == Some(true) {
                                    match self.run_range(t, h_end + 1, be - 1) {
                                        Err(err) => {
                                            return Err(err);
                                        },
                                        Ok(()) => {},
                                    }
                                }
                            } else {
                                let no_update: Vec<Token> = Vec::new();
                                assert(views(no_update@) =~= seq![]);
                                match self.run_loop_range(t, &cond, h_end + 1, be - 1, &no_update) {
                                    Err(err) => {
                                        return Err(err);
                                    },
                                    Ok(()) => {},
                                }
                            }
                            pos = be;
                        },
                        None => {
                            return Err(Error::Syntax(String::from_str("{ <block> }")));
                        },
                    }
                } else {
                    return Err(Error::Syntax(String::from_str("( <condition> ) { <block> }")));
                }
            } else if is_identifier(head, "for") {
                match for_header_end(t, pos + 1, hi) {
                    Some((init, cond, upd, e)) => {
                        assert(rest.skip(e - pos - 1) =~= v.subrange(e as int, hi as int));
                        match block_end(t, e, hi) {
                            Some(be) => {
                                let ghost inside = v.subrange(e as int, hi as int);
                                assert(inside.take(be - e - 1) =~= v.subrange(e as int, be - 1));
                                assert(inside.skip(be - e) =~= v.subrange(be as int, hi as int));
                                if init.len() > 0 {
                                    match self.exec_group(&init) {
                                        Err(err) => {
                                            return Err(err);
                                        },
                                        Ok(()) => {},
                                    }
                                }
                                match self.run_loop_range(t, &cond, e, be - 1, &upd) {
                                    Err(err) => {
                                        return Err(err);
                                    },
                                    Ok(()) => {},
                                }
                                pos = be;
                            },
                            None => {
                                return Err(Error::Syntax(String::from_str("{ <block> }")));
                            },
                        }
                    },
                    None => {
                        return Err(
                            Error::Syntax(String::from_str("for ( <init> ; <condition> ; <update> ) {")),
                        );
                    },
                }
            } else {
                return Err(Error::Syntax(String::from_str("a statement")));
            }
        }
        assert(v.subrange(pos as int, hi as int) =~= Seq::<TokenView>::empty());
        Ok(())
    }

    /// Runs a loop whose body is `t[blo..bhi]`; see `run_loop`.
    fn run_loop_range(
        &mut self,
        t: &Vec<Token>,
        cond: &Vec<Token>,
        blo: usize,
        bhi: usize,
        upd: &Vec<Token>,
    ) -> (r: Result<(), Error>)
        requires
            blo <= bhi <= t.len(),
            old(self).well_formed(),
        ensures
            agrees(
                r,
                run_loop(
                    views(cond@),
                    views(t@).subrange(blo as int, bhi as int),
                    views(upd@),
                    old(self)@,
                    0,
                ),
                final(self)@,
            ),
            final(self).well_formed(),
        decreases bhi - blo, 1nat,
    {
        let ghost c = views(cond@);
        let ghost body = views(t@).subrange(blo as int, bhi as int);
        let ghost u = views(upd@);
        let mut count: u64 = 0;
        loop
            invariant
                blo <= bhi <= t.len(),
                c == views(cond@),
                body == views(t@).subrange(blo as int, bhi as int),
                u == views(upd@),
                count <= MAX_LOOP_ITERATIONS,
                self.well_formed(),
                run_loop(c, body, u, old(self)@, 0) == run_loop(c, body, u, self@, count as nat),
            decreases MAX_LOOP_ITERATIONS - count,
        {
            match self.eval_cond(cond) {
                Some(true) => {},
                _ => {
                    return Ok(());
                },
            }
            if count >= MAX_LOOP_ITERATIONS {
                return Err(Error::LoopLimit);
            }
            match self.run_range(t, blo, bhi) {
                Err(err) => {
                    return Err(err);
                },
                Ok(()) => {},
            }
            if upd.len() > 0 {
                match self.exec_group(upd) {
                    Err(err) => {
                        return Err(err);
                    },
                    Ok(()) => {},
                }
            }
            count = count + 1;
        }
    }

    /// Splits `input` into tokens and runs them as statements, in order,
    /// until the end or the first error. Lines printed before an error stay
    /// printed.
    pub fn interpret(&mut self, input: &str) -> (r: Result<(), Error>)
        requires
            old(self).well_formed(),
        ensures
            final(self).well_formed(),
            match lex(input@) {
                Ok(ts) => agrees(r, run(ts, old(self)@), final(self)@),
                Err(e) => r is Err && r->Err_0@ == Fault::Lex(e) && final(self)@ == old(self)@,
            },
    {
        match Tokenizer::tokenize(input) {
            Err(e) => Err(Error::Lex(e)),
            Ok(tokens) => {
                assert(views(tokens@).subrange(0, tokens.len() as int) =~= views(tokens@));
                self.run_range(&tokens, 0, tokens.len())
            },
        }
    }
}

} // verus!
