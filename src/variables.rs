use vstd::prelude::*;
use crate::numbers::{
    parse_int, parse_int_text, is_float_text, float_text_ok, same_ignoring_case, eq_ignoring_case,
};
use crate::token::{chars_of, chars_eq};
use crate::error::Error;

verus! {

/// A run-time value. A float is kept as the text it was read from, one that
/// `f64`'s parser accepts (see `is_float_text`).
#[derive(Debug, PartialEq)]
pub enum Value {
    Integer(i64),
    Float(String),
    String(String),
    Boolean(bool),
}

/// The model of a value: its tag and its content.
pub enum ValueView {
    Integer(int),
    Float(Seq<char>),
    String(Seq<char>),
    Boolean(bool),
}

impl View for Value {
    type V = ValueView;

    open spec fn view(&self) -> ValueView {
        match self {
            Value::Integer(i) => ValueView::Integer(*i as int),
            Value::Float(f) => ValueView::Float(f@),
            Value::String(s) => ValueView::String(s@),
            Value::Boolean(b) => ValueView::Boolean(*b),
        }
    }
}

/// Whether two values carry the same tag.
pub open spec fn same_tag(a: ValueView, b: ValueView) -> bool {
    match (a, b) {
        (ValueView::Integer(_), ValueView::Integer(_)) => true,
        (ValueView::Float(_), ValueView::Float(_)) => true,
        (ValueView::String(_), ValueView::String(_)) => true,
        (ValueView::Boolean(_), ValueView::Boolean(_)) => true,
        _ => false,
    }
}

/// A variable: the value bound to a name.
#[derive(Debug)]
pub struct Variable {
    pub value: Value,
}

/// `text` read as a boolean the way `bool`'s parser reads it: exactly
/// `true` or `false`.
pub open spec fn parse_bool(text: Seq<char>) -> Option<bool> {
    if text == "true"@ {
        Some(true)
    } else if text == "false"@ {
        Some(false)
    } else {
        None
    }
}

/// How a literal's text is classified: an integer first, then a float, then
/// a boolean (`true` or `false` in any case), and otherwise a string.
pub open spec fn classify(text: Seq<char>) -> ValueView {
    if parse_int(text) is Some {
        ValueView::Integer(parse_int(text)->0)
    } else if is_float_text(text) {
        ValueView::Float(text)
    } else if same_ignoring_case(text, "true"@) {
        ValueView::Boolean(true)
    } else if same_ignoring_case(text, "false"@) {
        ValueView::Boolean(false)
    } else {
        ValueView::String(text)
    }
}

/// The value that `text` gives a variable holding `old`: the text read
/// again under the same tag, or `old` itself where it does not read so.
pub open spec fn reparse(old: ValueView, text: Seq<char>) -> ValueView {
    match old {
        ValueView::Integer(_) => match parse_int(text) {
            Some(i) => ValueView::Integer(i),
            None => old,
        },
        ValueView::Float(_) => if is_float_text(text) {
            ValueView::Float(text)
        } else {
            old
        },
        ValueView::Boolean(_) => match parse_bool(text) {
            Some(b) => ValueView::Boolean(b),
            None => old,
        },
        ValueView::String(_) => ValueView::String(text),
    }
}

/// The bindings of one scope; a later entry for a name hides an earlier one.
pub open spec fn scope_map(entries: Seq<(String, Variable)>) -> Map<Seq<char>, ValueView>
    decreases entries.len(),
{
    if entries.len() == 0 {
        Map::empty()
    } else {
        scope_map(entries.drop_last()).insert(entries.last().0@, entries.last().1.value@)
    }
}

/// The binding of `name` in the innermost scope that holds it.
pub open spec fn lookup(scopes: Seq<Map<Seq<char>, ValueView>>, name: Seq<char>) -> Option<
    ValueView,
>
    decreases scopes.len(),
{
    if scopes.len() == 0 {
        None
    } else if scopes.last().contains_key(name) {
        Some(scopes.last()[name])
    } else {
        lookup(scopes.drop_last(), name)
    }
}

/// The scope stack after `name` is set to `v` in the innermost scope that
/// holds it.
pub open spec fn store(scopes: Seq<Map<Seq<char>, ValueView>>, name: Seq<char>, v: ValueView) -> Seq<
    Map<Seq<char>, ValueView>,
>
    decreases scopes.len(),
{
    if scopes.len() == 0 {
        scopes
    } else if scopes.last().contains_key(name) {
        scopes.update(scopes.len() - 1, scopes.last().insert(name, v))
    } else {
        store(scopes.drop_last(), name, v).push(scopes.last())
    }
}

/// A stack of scopes, the innermost last.
pub struct VarManager {
    scopes: Vec<Vec<(String, Variable)>>,
}

impl VarManager {
    /// At least the global scope exists, and no name occurs twice in a scope.
    pub closed spec fn well_formed(&self) -> bool {
        self.scopes.len() > 0 && forall|i: int, a: int, b: int|
            0 <= i < self.scopes.len() && 0 <= a < b < self.scopes@[i].len() ==> (
            #[trigger] self.scopes@[i]@[a]).0@ != (#[trigger] self.scopes@[i]@[b]).0@
    }

    /// A well-formed store has at least one scope.
    pub proof fn lemma_well_formed_depth(&self)
        requires
            self.well_formed(),
        ensures
            self@.len() > 0,
    {
    }
}

impl View for VarManager {
    type V = Seq<Map<Seq<char>, ValueView>>;

    closed spec fn view(&self) -> Seq<Map<Seq<char>, ValueView>> {
        self.scopes@.map_values(|s: Vec<(String, Variable)>| scope_map(s@))
    }
}


proof fn lemma_scope_found(e: Seq<(String, Variable)>, j: int, name: Seq<char>)
    requires
        0 <= j < e.len(),
        e[j].0@ == name,
        forall|m: int| j < m < e.len() ==> (#[trigger] e[m]).0@ != name,
    ensures
        scope_map(e).contains_key(name),
        scope_map(e)[name] == e[j].1.value@,
    decreases e.len(),
{
    if j < e.len() - 1 {
        lemma_scope_found(e.drop_last(), j, name);
    }
}

proof fn lemma_scope_absent(e: Seq<(String, Variable)>, name: Seq<char>)
    requires
        forall|m: int| 0 <= m < e.len() ==> (#[trigger] e[m]).0@ != name,
    ensures
        !scope_map(e).contains_key(name),
    decreases e.len(),
{
    if e.len() > 0 {
        lemma_scope_absent(e.drop_last(), name);
    }
}

proof fn lemma_scope_replace(e: Seq<(String, Variable)>, j: int, entry: (String, Variable))
    requires
        0 <= j < e.len(),
        e[j].0@ == entry.0@,
        forall|m: int| j < m < e.len() ==> (#[trigger] e[m]).0@ != entry.0@,
    ensures
        scope_map(e.update(j, entry)) == scope_map(e).insert(entry.0@, entry.1.value@),
    decreases e.len(),
{
    let u = e.update(j, entry);
    if j == e.len() - 1 {
        assert(u.drop_last() =~= e.drop_last());
        assert(scope_map(u) =~= scope_map(e).insert(entry.0@, entry.1.value@));
    } else {
        lemma_scope_replace(e.drop_last(), j, entry);
        assert(u.drop_last() =~= e.drop_last().update(j, entry));
        assert(scope_map(u) =~= scope_map(e).insert(entry.0@, entry.1.value@));
    }
}

proof fn lemma_lookup_at(scopes: Seq<Map<Seq<char>, ValueView>>, i: int, name: Seq<char>, v: ValueView)
    requires
        0 <= i < scopes.len(),
        scopes[i].contains_key(name),
        forall|m: int| i < m < scopes.len() ==> !(#[trigger] scopes[m]).contains_key(name),
    ensures
        lookup(scopes, name) == Some(scopes[i][name]),
        store(scopes, name, v) == scopes.update(i, scopes[i].insert(name, v)),
    decreases scopes.len(),
{
    if i < scopes.len() - 1 {
        lemma_lookup_at(scopes.drop_last(), i, name, v);
        assert(scopes.drop_last().update(i, scopes[i].insert(name, v)).push(scopes.last())
            =~= scopes.update(i, scopes[i].insert(name, v)));
    }
}

proof fn lemma_lookup_none(scopes: Seq<Map<Seq<char>, ValueView>>, name: Seq<char>)
    requires
        forall|m: int| 0 <= m < scopes.len() ==> !(#[trigger] scopes[m]).contains_key(name),
    ensures
        lookup(scopes, name) is None,
    decreases scopes.len(),
{
    if scopes.len() > 0 {
        lemma_lookup_none(scopes.drop_last(), name);
    }
}

/// The index of the last entry of `scope` bound to `name`.
fn find_in_scope(scope: &Vec<(String, Variable)>, name: &String) -> (r: Option<usize>)
    ensures
        match r {
            Some(j) => j < scope.len() && scope@[j as int].0@ == name@ && forall|m: int|
                j < m < scope.len() ==> (#[trigger] scope@[m]).0@ != name@,
            None => forall|m: int| 0 <= m < scope.len() ==> (#[trigger] scope@[m]).0@ != name@,
        },
{
    let mut j: usize = scope.len();
    while j > 0
        invariant
            j <= scope.len(),
            forall|m: int| j <= m < scope.len() ==> (#[trigger] scope@[m]).0@ != name@,
        decreases j,
    {
        if scope[j - 1].0 == *name {
            return Some(j - 1);
        }
        j = j - 1;
    }
    None
}

/// Where `name` is bound: the innermost scope that holds it and its entry there.
fn locate(scopes: &Vec<Vec<(String, Variable)>>, name: &String) -> (r: Option<(usize, usize)>)
    ensures
        match r {
            Some((i, j)) => i < scopes.len() && j < scopes@[i as int].len()
                && scopes@[i as int]@[j as int].0@ == name@
                && (forall|m: int| j < m < scopes@[i as int].len() ==> (#[trigger] scopes@[i as int]@[m]).0@ != name@)
                && (forall|k: int, m: int| i < k < scopes.len() && 0 <= m < scopes@[k].len() ==> (#[trigger] scopes@[k]@[m]).0@ != name@),
            None => forall|k: int, m: int| 0 <= k < scopes.len() && 0 <= m < scopes@[k].len() ==> (#[trigger] scopes@[k]@[m]).0@ != name@,
        },
{
    let mut i: usize = scopes.len();
    while i > 0
        invariant
            i <= scopes.len(),
            forall|k: int, m: int| i <= k < scopes.len() && 0 <= m < scopes@[k].len() ==> (#[trigger] scopes@[k]@[m]).0@ != name@,
        decreases i,
    {
        match find_in_scope(&scopes[i - 1], name) {
            Some(j) => {
                return Some((i - 1, j));
            },
            None => {},
        }
        i = i - 1;
    }
    None
}

impl VarManager {
    proof fn lemma_view_located(&self, name: Seq<char>, i: int, j: int)
        requires
            0 <= i < self.scopes.len(),
            0 <= j < self.scopes@[i].len(),
            self.scopes@[i]@[j].0@ == name,
            forall|m: int| j < m < self.scopes@[i].len() ==> (#[trigger] self.scopes@[i]@[m]).0@ != name,
            forall|k: int, m: int| i < k < self.scopes.len() && 0 <= m < self.scopes@[k].len() ==> (#[trigger] self.scopes@[k]@[m]).0@ != name,
        ensures
            self@[i].contains_key(name),
            self@[i][name] == self.scopes@[i]@[j].1.value@,
            forall|m: int| i < m < self@.len() ==> !(#[trigger] self@[m]).contains_key(name),
    {
        lemma_scope_found(self.scopes@[i]@, j, name);
        assert forall|m: int| i < m < self@.len() implies !(#[trigger] self@[m]).contains_key(name) by {
            lemma_scope_absent(self.scopes@[m]@, name);
        }
    }

    proof fn lemma_view_absent(&self, name: Seq<char>)
        requires
            forall|k: int, m: int| 0 <= k < self.scopes.len() && 0 <= m < self.scopes@[k].len() ==> (#[trigger] self.scopes@[k]@[m]).0@ != name,
        ensures
            lookup(self@, name) is None,
    {
        assert forall|m: int| 0 <= m < self@.len() implies !(#[trigger] self@[m]).contains_key(name) by {
            lemma_scope_absent(self.scopes@[m]@, name);
        }
        lemma_lookup_none(self@, name);
    }

    /// A store with the global scope alone, empty.
    pub fn new() -> (r: Self)
        ensures
            r.well_formed(),
            r@ == seq![Map::<Seq<char>, ValueView>::empty()],
    {
        let r = VarManager { scopes: vec![Vec::new()] };
        assert(r@ =~= seq![Map::<Seq<char>, ValueView>::empty()]);
        r
    }

    /// The number of scopes.
    pub fn depth(&self) -> (r: usize)
        ensures
            r == self@.len(),
    {
        self.scopes.len()
    }

    /// The variable that `name` resolves to, searching from the innermost scope out.
    pub fn get(&self, name: &str) -> (r: Option<&Variable>)
        ensures
            match r {
                Some(v) => lookup(self@, name@) == Some(v.value@),
                None => lookup(self@, name@) is None,
            },
    {
        let key = String::from_str(name);
        match locate(&self.scopes, &key) {
            Some((i, j)) => {
                proof {
                    self.lemma_view_located(name@, i as int, j as int);
                    lemma_lookup_at(self@, i as int, name@, ValueView::Boolean(true));
                }
                Some(&self.scopes[i][j].1)
            },
            None => {
                proof {
                    self.lemma_view_absent(name@);
                }
                None
            },
        }
    }

    /// Binds `name` to `value` in the innermost scope, replacing a binding of
    /// that name there.
    pub fn define(&mut self, name: String, value: Variable)
        requires
            old(self).well_formed(),
        ensures
            final(self).well_formed(),
            final(self)@ == old(self)@.update(
                old(self)@.len() - 1,
                old(self)@.last().insert(name@, value.value@),
            ),
    {
        let last = self.scopes.len() - 1;
        let mut scope: Vec<(String, Variable)> = Vec::new();
        self.scopes.set_and_swap(last, &mut scope);
        let ghost before = scope@;
        let ghost key = name@;
        let ghost val = value.value@;
        match find_in_scope(&scope, &name) {
            Some(j) => {
                proof {
                    lemma_scope_replace(scope@, j as int, (name, value));
                }
                scope.set(j, (name, value));
            },
            None => {
                proof {
                    lemma_scope_absent(scope@, name@);
                    assert(scope@.push((name, value)).drop_last() =~= scope@);
                }
                scope.push((name, value));
            },
        }
        assert(scope_map(scope@) == scope_map(before).insert(key, val));
        self.scopes.set(last, scope);
        assert(self@ =~= old(self)@.update(
            old(self)@.len() - 1,
            old(self)@.last().insert(key, val),
        ));
    }
}


/// The value that `text` gives a variable now holding `old`.
fn reparse_value(old: &Value, text: &str) -> (r: Value)
    ensures
        r@ == reparse(old@, text@),
{
    let cs = chars_of(text);
    match old {
        Value::Integer(i) => match parse_int_text(&cs) {
            Some(v) => Value::Integer(v),
            None => Value::Integer(*i),
        },
        Value::Float(f) => if float_text_ok(&cs) {
            Value::Float(String::from_str(text))
        } else {
            Value::Float(f.clone())
        },
        Value::Boolean(b) => if chars_eq(&cs, "true") {
            Value::Boolean(true)
        } else if chars_eq(&cs, "false") {
            Value::Boolean(false)
        } else {
            Value::Boolean(*b)
        },
        Value::String(_) => Value::String(String::from_str(text)),
    }
}

impl VarManager {
    /// Sets `name`, in the innermost scope that binds it, to `new_value` read
    /// under the variable's tag. Where the text does not read as a value of
    /// that tag the variable keeps its value, and the call still succeeds.
    pub fn assign(&mut self, name: &str, new_value: &str) -> (r: Result<(), Error>)
        requires
            old(self).well_formed(),
        ensures
            final(self).well_formed(),
            match lookup(old(self)@, name@) {
                Some(v) => r is Ok && final(self)@ == store(
                    old(self)@,
                    name@,
                    reparse(v, new_value@),
                ),
                None => r is Err && r->Err_0 is UndefinedVariable
                    && r->Err_0->UndefinedVariable_0@ == name@ && final(self)@ == old(self)@,
            },
    {
        let key = String::from_str(name);
        match locate(&self.scopes, &key) {
            Some((i, j)) => {
                proof {
                    self.lemma_view_located(name@, i as int, j as int);
                }
                let nv = reparse_value(&self.scopes[i][j].1.value, new_value);
                let ghost nvv = nv@;
                proof {
                    lemma_lookup_at(self@, i as int, name@, nvv);
                }
                let mut scope: Vec<(String, Variable)> = Vec::new();
                self.scopes.set_and_swap(i, &mut scope);
                let ghost before = scope@;
                proof {
                    lemma_scope_replace(scope@, j as int, (key, Variable { value: nv }));
                }
                scope.set(j, (key, Variable { value: nv }));
                assert(scope_map(scope@) == scope_map(before).insert(name@, nvv));
                self.scopes.set(i, scope);
                assert(self@ =~= old(self)@.update(i as int, old(self)@[i as int].insert(name@, nvv)));
                Ok(())
            },
            None => {
                proof {
                    self.lemma_view_absent(name@);
                }
                Err(Error::UndefinedVariable(key))
            },
        }
    }

    /// The value that a literal's text stands for; see `classify`.
    pub fn parse_value(&self, input: &str) -> (r: Option<Value>)
        ensures
            r is Some && r->0@ == classify(input@),
    {
        let cs = chars_of(input);
        match parse_int_text(&cs) {
            Some(v) => Some(Value::Integer(v)),
            None => if float_text_ok(&cs) {
                Some(Value::Float(String::from_str(input)))
            } else if eq_ignoring_case(&cs, "true") {
                Some(Value::Boolean(true))
            } else if eq_ignoring_case(&cs, "false") {
                Some(Value::Boolean(false))
            } else {
                Some(Value::String(String::from_str(input)))
            },
        }
    }

    /// Opens a new innermost scope, empty.
    pub fn push_scope(&mut self)
        requires
            old(self).well_formed(),
        ensures
            final(self).well_formed(),
            final(self)@ == old(self)@.push(Map::<Seq<char>, ValueView>::empty()),
    {
        self.scopes.push(Vec::new());
        assert(final(self)@ =~= old(self)@.push(Map::<Seq<char>, ValueView>::empty()));
    }

    /// Closes the innermost scope; the global scope is never closed.
    pub fn pop_scope(&mut self)
        requires
            old(self).well_formed(),
            old(self)@.len() > 1,
        ensures
            final(self).well_formed(),
            final(self)@ == old(self)@.drop_last(),
    {
        let _ = self.scopes.pop();
        assert(final(self)@ =~= old(self)@.drop_last());
    }
}


/// A declaration of `name` with the literal text `text`: where some scope
/// binds `name`, that binding is assigned; otherwise the classified text is
/// bound in the innermost scope.
pub open spec fn declare(scopes: Seq<Map<Seq<char>, ValueView>>, name: Seq<char>, text: Seq<char>) -> Seq<
    Map<Seq<char>, ValueView>,
> {
    match lookup(scopes, name) {
        Some(v) => store(scopes, name, reparse(v, text)),
        None => scopes.update(scopes.len() - 1, scopes.last().insert(name, classify(text))),
    }
}


/// After a store the name resolves to the stored value, the stack keeps its
/// depth, and a tag-preserving store preserves the tag of what it replaces.
pub proof fn lemma_store_lookup(scopes: Seq<Map<Seq<char>, ValueView>>, name: Seq<char>, v: ValueView)
    requires
        lookup(scopes, name) is Some,
    ensures
        lookup(store(scopes, name, v), name) == Some(v),
        store(scopes, name, v).len() == scopes.len(),
    decreases scopes.len(),
{
    if !scopes.last().contains_key(name) {
        lemma_store_lookup(scopes.drop_last(), name, v);
        let st = store(scopes.drop_last(), name, v).push(scopes.last());
        assert(st.drop_last() =~= store(scopes.drop_last(), name, v));
    }
}

/// Assigning never changes a variable's tag: after `assign`, the name
/// resolves to a value with the tag it had; and where the text does not read
/// under a non-string tag, the name keeps its value.
pub proof fn lemma_assign_keeps_tag(scopes: Seq<Map<Seq<char>, ValueView>>, name: Seq<char>, text: Seq<char>)
    requires
        lookup(scopes, name) is Some,
    ensures
        ({
            let v = lookup(scopes, name)->0;
            let after = lookup(store(scopes, name, reparse(v, text)), name);
            &&& after == Some(reparse(v, text))
            &&& same_tag(after->0, v)
            &&& v is Integer && parse_int(text) is None ==> after == Some(v)
            &&& v is Float && !is_float_text(text) ==> after == Some(v)
            &&& v is Boolean && parse_bool(text) is None ==> after == Some(v)
        }),
{
    lemma_store_lookup(scopes, name, reparse(lookup(scopes, name)->0, text));
}

/// Declaring a name that an outer scope binds, while no inner scope exists,
/// updates that binding in place: no new binding appears, and the value is
/// the text read under the binding's tag.
pub proof fn lemma_declare_existing_updates(
    scopes: Seq<Map<Seq<char>, ValueView>>,
    name: Seq<char>,
    text: Seq<char>,
)
    requires
        scopes.len() == 1,
        scopes[0].contains_key(name),
    ensures
        declare(scopes, name, text) == seq![scopes[0].insert(name, reparse(scopes[0][name], text))],
        lookup(declare(scopes, name, text), name) == Some(reparse(scopes[0][name], text)),
        same_tag(reparse(scopes[0][name], text), scopes[0][name]),
{
    assert(scopes.update(0, scopes[0].insert(name, reparse(scopes[0][name], text))) =~= seq![
        scopes[0].insert(name, reparse(scopes[0][name], text)),
    ]);
    lemma_store_lookup(scopes, name, reparse(scopes[0][name], text));
}

} // verus!
