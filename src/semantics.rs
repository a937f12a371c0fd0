use vstd::prelude::*;
use crate::error::{Fault, Tag};
use crate::numbers::{float_display, lemma_parse_int_text};
use crate::token::{TokenView, int_text};
use crate::variables::{
    ValueView, declare, lookup, lemma_store_lookup, lemma_declare_existing_updates, reparse, same_tag,
};

verus! {

/// The most times a loop body runs; a loop that would run it again fails.
pub const MAX_LOOP_ITERATIONS: u64 = 10000;

/// The state of a run: the scope stack and the lines printed so far.
pub struct Machine {
    pub scopes: Seq<Map<Seq<char>, ValueView>>,
    pub out: Seq<Seq<char>>,
}

/// Where a run stops: its state, and the error that stopped it, if any.
pub type Outcome = (Machine, Option<Fault>);

pub open spec fn bool_text(b: bool) -> Seq<char> {
    if b {
        "true"@
    } else {
        "false"@
    }
}

/// The text that `print` writes for a value.
pub open spec fn display(v: ValueView) -> Seq<char> {
    match v {
        ValueView::Integer(i) => int_text(i),
        ValueView::Float(f) => float_display(f),
        ValueView::String(s) => s,
        ValueView::Boolean(b) => bool_text(b),
    }
}

/// The text that a literal token hands to a declaration or an assignment;
/// a string literal keeps its quotes.
pub open spec fn literal_text(t: TokenView) -> Option<Seq<char>> {
    match t {
        TokenView::StringLiteral(s) => Some(seq!['"'] + s + seq!['"']),
        TokenView::Number(n) => Some(int_text(n)),
        TokenView::Float(f) => Some(f),
        TokenView::Boolean(b) => Some(bool_text(b)),
        _ => None,
    }
}

/// The number of tokens up to and including the first symbol `c`, or all
/// of them where there is none.
pub open spec fn through(t: Seq<TokenView>, c: char) -> nat
    decreases t.len(),
{
    if t.len() == 0 {
        0
    } else if t[0] == TokenView::Symbol(c) {
        1
    } else {
        1 + through(t.drop_first(), c)
    }
}

/// Inside a block at brace depth `depth`, the number of tokens up to and
/// including the `}` that closes it.
pub open spec fn block_len(t: Seq<TokenView>, depth: nat) -> Option<nat>
    decreases t.len(),
{
    if t.len() == 0 {
        None
    } else {
        let inner = if t[0] == TokenView::Symbol('{') {
            Some(depth + 1)
        } else if t[0] == TokenView::Symbol('}') {
            if depth <= 1 {
                None
            } else {
                Some((depth - 1) as nat)
            }
        } else {
            Some(depth)
        };
        match inner {
            None => Some(1),
            Some(d) => match block_len(t.drop_first(), d) {
                Some(n) => Some(n + 1),
                None => None,
            },
        }
    }
}

/// The condition inside `( ... )`: what follows the first token, up to the
/// first `)`.
pub open spec fn condition_of(header: Seq<TokenView>) -> Seq<TokenView> {
    if header.len() == 0 {
        header
    } else {
        let rest = header.drop_first();
        let k = through(rest, ')');
        if k > 0 && k <= rest.len() && rest[k - 1] == TokenView::Symbol(')') {
            rest.take(k - 1)
        } else {
            rest
        }
    }
}

/// The header of a `for`: its three groups, split at `;`, with parentheses
/// left out, and the number of tokens up to and including the `{`.
pub open spec fn for_header(t: Seq<TokenView>, stage: nat) -> Option<
    (Seq<TokenView>, Seq<TokenView>, Seq<TokenView>, nat),
>
    decreases t.len(),
{
    if t.len() == 0 {
        None
    } else if t[0] == TokenView::Symbol('{') {
        Some((seq![], seq![], seq![], 1))
    } else {
        let semi = t[0] == TokenView::Symbol(';');
        let paren = t[0] == TokenView::Symbol('(') || t[0] == TokenView::Symbol(')');
        let next_stage = if semi {
            stage + 1
        } else {
            stage
        };
        match for_header(t.drop_first(), next_stage) {
            None => None,
            Some((a, b, c, n)) => if semi || paren {
                Some((a, b, c, n + 1))
            } else if stage == 0 {
                Some((seq![t[0]] + a, b, c, n + 1))
            } else if stage == 1 {
                Some((a, seq![t[0]] + b, c, n + 1))
            } else if stage == 2 {
                Some((a, b, seq![t[0]] + c, n + 1))
            } else {
                None
            },
        }
    }
}

/// A comparison `left op right`: `left` an integer literal or a variable
/// holding an integer, `op` one of `<`, `>`, `=`, `right` an integer
/// literal. Tokens after the third are not read. `None` where the shape
/// does not match.
pub open spec fn eval_condition(c: Seq<TokenView>, scopes: Seq<Map<Seq<char>, ValueView>>) -> Option<
    bool,
> {
    if c.len() < 3 {
        None
    } else {
        let left: Option<int> = match c[0] {
            TokenView::Identifier(n) => match lookup(scopes, n) {
                Some(ValueView::Integer(i)) => Some(i),
                _ => None,
            },
            TokenView::Number(n) => Some(n),
            _ => None,
        };
        match (left, c[1], c[2]) {
            (Some(l), TokenView::Operator(o), TokenView::Number(r)) => if o == seq!['<'] {
                Some(l < r)
            } else if o == seq!['>'] {
                Some(l > r)
            } else if o == seq!['='] {
                Some(l == r)
            } else {
                None
            },
            _ => None,
        }
    }
}

pub open spec fn with_scopes(m: Machine, scopes: Seq<Map<Seq<char>, ValueView>>) -> Machine {
    Machine { scopes, out: m.out }
}

pub open spec fn fail(m: Machine, f: Fault) -> Outcome {
    (m, Some(f))
}

pub open spec fn done(m: Machine) -> Outcome {
    (m, None)
}

/// Adds `delta` to the integer variable `name`.
pub open spec fn add_to(name: Seq<char>, delta: int, m: Machine) -> Outcome {
    match lookup(m.scopes, name) {
        None => fail(m, Fault::UndefinedVariable(name)),
        Some(ValueView::Integer(i)) => if i64::MIN <= i + delta <= i64::MAX {
            done(with_scopes(m, declare(m.scopes, name, int_text(i + delta))))
        } else {
            fail(m, Fault::Overflow(name))
        },
        Some(_) => fail(m, Fault::TypeMismatch(name, Tag::Integer)),
    }
}

/// A `print` statement's tokens after `print`, its `;` included.
pub open spec fn print_stmt(s: Seq<TokenView>, m: Machine) -> Outcome {
    if s.len() == 2 && s[1] == TokenView::Symbol(';') {
        match s[0] {
            TokenView::StringLiteral(x) => done(Machine { scopes: m.scopes, out: m.out.push(x) }),
            TokenView::Identifier(n) => match lookup(m.scopes, n) {
                Some(v) => done(Machine { scopes: m.scopes, out: m.out.push(display(v)) }),
                None => fail(m, Fault::UndefinedVariable(n)),
            },
            TokenView::Number(i) => done(Machine { scopes: m.scopes, out: m.out.push(int_text(i)) }),
            TokenView::Float(f) => done(Machine { scopes: m.scopes, out: m.out.push(float_display(f)) }),
            TokenView::Boolean(b) => done(Machine { scopes: m.scopes, out: m.out.push(bool_text(b)) }),
            _ => fail(m, Fault::Syntax),
        }
    } else {
        fail(m, Fault::Syntax)
    }
}

/// A declaration's tokens after `variable`: `name = literal ;`.
pub open spec fn declaration_stmt(s: Seq<TokenView>, m: Machine) -> Outcome {
    if s.len() == 4 && s[0] is Identifier && s[1] == TokenView::Operator(seq!['='])
        && s[3] == TokenView::Symbol(';') && literal_text(s[2]) is Some {
        done(with_scopes(m, declare(m.scopes, s[0]->Identifier_0, literal_text(s[2])->0)))
    } else {
        fail(m, Fault::Syntax)
    }
}

/// An update's tokens after `update`: `name ++ ;`, `name -- ;`,
/// `name + int ;`, `name - int ;` or `name = literal ;`.
pub open spec fn update_stmt(s: Seq<TokenView>, m: Machine) -> Outcome {
    if s.len() == 4 && s[0] is Identifier && s[3] == TokenView::Symbol(';') {
        let n = s[0]->Identifier_0;
        if s[1] == TokenView::Symbol('+') && s[2] == TokenView::Symbol('+') {
            add_to(n, 1, m)
        } else if s[1] == TokenView::Symbol('-') && s[2] == TokenView::Symbol('-') {
            add_to(n, -1, m)
        } else if s[1] == TokenView::Symbol('+') && s[2] is Number {
            add_to(n, s[2]->Number_0, m)
        } else if s[1] == TokenView::Symbol('-') && s[2] is Number {
            add_to(n, -s[2]->Number_0, m)
        } else if s[1] == TokenView::Operator(seq!['=']) && literal_text(s[2]) is Some {
            done(with_scopes(m, declare(m.scopes, n, literal_text(s[2])->0)))
        } else {
            fail(m, Fault::Syntax)
        }
    } else {
        fail(m, Fault::Syntax)
    }
}

/// A group of a `for` header: `name = literal`, `name + int`, `name += int`
/// or `name = name + int`; all but the first add to the variable.
pub open spec fn group_stmt(g: Seq<TokenView>, m: Machine) -> Outcome {
    if g.len() == 3 && g[0] is Identifier && g[1] == TokenView::Operator(seq!['='])
        && literal_text(g[2]) is Some {
        done(with_scopes(m, declare(m.scopes, g[0]->Identifier_0, literal_text(g[2])->0)))
    } else if g.len() == 3 && g[0] is Identifier && g[1] == TokenView::Symbol('+') && g[2] is Number {
        add_to(g[0]->Identifier_0, g[2]->Number_0, m)
    } else if g.len() == 4 && g[0] is Identifier && g[1] == TokenView::Symbol('+') && g[2]
        == TokenView::Operator(seq!['=']) && g[3] is Number {
        add_to(g[0]->Identifier_0, g[3]->Number_0, m)
    } else if g.len() == 5 && g[0] is Identifier && g[1] == TokenView::Operator(seq!['=']) && g[2]
        == g[0] && g[3] == TokenView::Symbol('+') && g[4] is Number {
        add_to(g[0]->Identifier_0, g[4]->Number_0, m)
    } else {
        fail(m, Fault::Syntax)
    }
}

/// A statement that needs no block: `print`, `variable` or `update`,
/// given its tokens after the leading word.
pub open spec fn simple_stmt(word: Seq<char>, s: Seq<TokenView>, m: Machine) -> Outcome {
    if word == "print"@ {
        print_stmt(s, m)
    } else if word == "variable"@ {
        declaration_stmt(s, m)
    } else {
        update_stmt(s, m)
    }
}

pub open spec fn is_simple_word(t: TokenView) -> bool {
    t == TokenView::Keyword("print"@) || t == TokenView::Keyword("variable"@) || t
        == TokenView::Keyword("update"@)
}

/// Runs the statements of `t` in order, stopping at the first error.
///
/// A block runs on its own tokens, nested braces kept. Since reading the
/// reconstructed text of lexed tokens gives them back
/// (`lemma_tokenize_reconstruct`), this is the same as running the text of
/// the block again.
pub open spec fn run(t: Seq<TokenView>, m: Machine) -> Outcome
    decreases t.len(), 0nat, 0nat,
{
    if t.len() == 0 {
        done(m)
    } else {
        let rest = t.drop_first();
        if is_simple_word(t[0]) {
            let n = through(rest, ';');
            if n <= rest.len() {
                let (m2, f) = simple_stmt(t[0]->Keyword_0, rest.take(n as int), m);
                if f is Some {
                    (m2, f)
                } else {
                    run(rest.skip(n as int), m2)
                }
            } else {
                fail(m, Fault::Syntax)
            }
        } else if t[0] == TokenView::Identifier("if"@) || t[0] == TokenView::Identifier("while"@) {
            let h = through(rest, ')');
            if h < rest.len() && rest[h as int] == TokenView::Symbol('{') {
                let cond = condition_of(rest.take(h as int));
                let inside = rest.skip(h + 1int);
                match block_len(inside, 1) {
                    Some(b) => if 1 <= b <= inside.len() {
                        let body = inside.take(b - 1);
                        let next = inside.skip(b as int);
                        if t[0] == TokenView::Identifier("if"@) {
                            if eval_condition(cond, m.scopes) == Some(true) {
                                let (m2, f) = run(body, m);
                                if f is Some {
                                    (m2, f)
                                } else {
                                    run(next, m2)
                                }
                            } else {
                                run(next, m)
                            }
                        } else {
                            let (m2, f) = run_loop(cond, body, seq![], m, 0);
                            if f is Some {
                                (m2, f)
                            } else {
                                run(next, m2)
                            }
                        }
                    } else {
                        fail(m, Fault::Syntax)
                    },
                    None => fail(m, Fault::Syntax),
                }
            } else {
                fail(m, Fault::Syntax)
            }
        } else if t[0] == TokenView::Identifier("for"@) {
            match for_header(rest, 0) {
                Some((init, cond, upd, h)) => if h <= rest.len() {
                    let inside = rest.skip(h as int);
                    match block_len(inside, 1) {
                        Some(b) => if 1 <= b <= inside.len() {
                            let body = inside.take(b - 1);
                            let next = inside.skip(b as int);
                            let (m1, f1) = if init.len() > 0 {
                                group_stmt(init, m)
                            } else {
                                done(m)
                            };
                            if f1 is Some {
                                (m1, f1)
                            } else {
                                let (m2, f) = run_loop(cond, body, upd, m1, 0);
                                if f is Some {
                                    (m2, f)
                                } else {
                                    run(next, m2)
                                }
                            }
                        } else {
                            fail(m, Fault::Syntax)
                        },
                        None => fail(m, Fault::Syntax),
                    }
                } else {
                    fail(m, Fault::Syntax)
                },
                None => fail(m, Fault::Syntax),
            }
        } else {
            fail(m, Fault::Syntax)
        }
    }
}

/// Runs a loop from its `count`-th iteration: while the condition holds,
/// the body, then the update group where there is one.
pub open spec fn run_loop(
    cond: Seq<TokenView>,
    body: Seq<TokenView>,
    upd: Seq<TokenView>,
    m: Machine,
    count: nat,
) -> Outcome
    decreases body.len(), 1nat, MAX_LOOP_ITERATIONS - count,
{
    if eval_condition(cond, m.scopes) != Some(true) {
        done(m)
    } else if count >= MAX_LOOP_ITERATIONS {
        fail(m, Fault::LoopLimit)
    } else {
        let (m2, f) = run(body, m);
        if f is Some {
            (m2, f)
        } else {
            let (m3, f3) = if upd.len() > 0 {
                group_stmt(upd, m2)
            } else {
                done(m2)
            };
            if f3 is Some {
                (m3, f3)
            } else {
                run_loop(cond, body, upd, m3, count + 1)
            }
        }
    }
}


/// Adding to an integer variable leaves it holding the sum, unless the sum
/// leaves the 64-bit range; the update never fails otherwise.
pub proof fn lemma_add_to_sum(name: Seq<char>, delta: int, m: Machine, i: int)
    requires
        lookup(m.scopes, name) == Some(ValueView::Integer(i)),
    ensures
        i64::MIN <= i + delta <= i64::MAX ==> add_to(name, delta, m).1 is None && lookup(
            add_to(name, delta, m).0.scopes,
            name,
        ) == Some(ValueView::Integer(i + delta)) && add_to(name, delta, m).0.out == m.out,
        !(i64::MIN <= i + delta <= i64::MAX) ==> add_to(name, delta, m) == fail(
            m,
            Fault::Overflow(name),
        ),
{
    if i64::MIN <= i + delta <= i64::MAX {
        lemma_parse_int_text(i + delta);
        lemma_store_lookup(m.scopes, name, ValueView::Integer(i + delta));
    }
}


/// A declaration of a name that the only scope already binds updates that
/// binding: the scope keeps its names, no scope is added, and the name holds
/// the literal's text read under the tag it had.
pub proof fn lemma_declaration_updates_existing(name: Seq<char>, lit: TokenView, m: Machine)
    requires
        m.scopes.len() == 1,
        m.scopes[0].contains_key(name),
        literal_text(lit) is Some,
    ensures
        ({
            let s = seq![
                TokenView::Identifier(name),
                TokenView::Operator(seq!['=']),
                lit,
                TokenView::Symbol(';'),
            ];
            let old_v = m.scopes[0][name];
            let new_v = reparse(old_v, literal_text(lit)->0);
            let o = declaration_stmt(s, m);
            &&& o.1 is None
            &&& o.0.out == m.out
            &&& o.0.scopes == seq![m.scopes[0].insert(name, new_v)]
            &&& o.0.scopes[0].dom() == m.scopes[0].dom()
            &&& same_tag(new_v, old_v)
        }),
{
    lemma_declare_existing_updates(m.scopes, name, literal_text(lit)->0);
    let new_v = reparse(m.scopes[0][name], literal_text(lit)->0);
    assert(m.scopes[0].insert(name, new_v).dom() =~= m.scopes[0].dom());
}

} // verus!
