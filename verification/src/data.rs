use vstd::prelude::*;

verus! {

/// A symbol: the index under which its name stands in a [`crate::package::Package`].
/// Two symbols read from the same package are the same symbol exactly when
/// their names are equal.
#[derive(PartialEq, Eq, Structural, Clone, Copy, Debug)]
pub struct Symbol(pub usize);

/// A handle to an environment frame held by an [`crate::env::Interp`].
#[derive(PartialEq, Eq, Structural, Clone, Copy, Debug)]
pub struct Env(pub usize);

/// The operators that evaluate their operands themselves.
#[derive(PartialEq, Eq, Structural, Clone, Copy, Debug)]
pub enum SpecialOperator {
    Quote,
    If,
    Let,
    Do,
    Lambda,
    Assign,
}

/// Something that can be applied to evaluated arguments.
#[derive(Debug)]
pub enum NativeFn {
    /// A function supplied by the embedding program, known by its number.
    Host(u64),
    /// A function made by `lambda`: it closes over `env`.
    Closure { env: Env, params: Vec<Val>, body: Vec<Val> },
}

/// Something that rewrites a form before it is evaluated.
#[derive(Debug)]
pub enum Macro {
    /// A macro supplied by the embedding program, known by its number.
    Host(u64),
    /// The `defmacro` operator.
    Defmacro,
    /// The `quasiquote` operator.
    Quasiquote,
    /// A macro made by `defmacro`.
    Defined { params: Vec<Val>, body: Vec<Val> },
}

/// A value of the language.
#[derive(Debug)]
pub enum Val {
    Symbol(Symbol),
    Vec(Vec<Val>),
    Fn(NativeFn),
    SpecialOp(SpecialOperator),
    Macro(Macro),
    Int(i64),
    True,
    False,
    Str(String),
}

/// The mathematical value of a [`Val`]: lists become sequences and strings
/// become sequences of characters.
pub enum Value {
    Symbol(nat),
    List(Seq<Value>),
    HostFn(u64),
    Closure { env: nat, params: Seq<Value>, body: Seq<Value> },
    Special(SpecialOperator),
    HostMacro(u64),
    Defmacro,
    Quasiquote,
    DefinedMacro { params: Seq<Value>, body: Seq<Value> },
    Int(int),
    True,
    False,
    Str(Seq<char>),
}

pub open spec fn seq_view(s: Seq<Val>) -> Seq<Value>
    decreases s,
{
    Seq::new(s.len(), |i: int| if 0 <= i < s.len() { s[i].view() } else { Value::True })
}

/// The view of a list has its length and the views of its elements.
pub broadcast proof fn lemma_seq_view(s: Seq<Val>)
    ensures
        #[trigger] seq_view(s).len() == s.len(),
        forall|i: int| 0 <= i < s.len() ==> #[trigger] seq_view(s)[i] == s[i]@,
{
}

impl View for Val {
    type V = Value;

    open spec fn view(&self) -> Value
        decreases self,
    {
        match self {
            Val::Symbol(s) => Value::Symbol(s.0 as nat),
            Val::Vec(v) => Value::List(seq_view(v@)),
            Val::Fn(NativeFn::Host(n)) => Value::HostFn(*n),
            Val::Fn(NativeFn::Closure { env, params, body }) => Value::Closure {
                env: env.0 as nat,
                params: seq_view(params@),
                body: seq_view(body@),
            },
            Val::SpecialOp(op) => Value::Special(*op),
            Val::Macro(Macro::Host(n)) => Value::HostMacro(*n),
            Val::Macro(Macro::Defmacro) => Value::Defmacro,
            Val::Macro(Macro::Quasiquote) => Value::Quasiquote,
            Val::Macro(Macro::Defined { params, body }) => Value::DefinedMacro {
                params: seq_view(params@),
                body: seq_view(body@),
            },
            Val::Int(i) => Value::Int(*i as int),
            Val::True => Value::True,
            Val::False => Value::False,
            Val::Str(s) => Value::Str(s@),
        }
    }
}


impl Val {
    /// A copy of the value, equal to it as a mathematical value.
    pub fn duplicate(&self) -> (r: Val)
        ensures
            r@ == self@,
        decreases self, 0nat,
    {
        match self {
            Val::Symbol(s) => Val::Symbol(*s),
            Val::Vec(v) => Val::Vec(duplicate_vec(v)),
            Val::Fn(NativeFn::Host(n)) => Val::Fn(NativeFn::Host(*n)),
            Val::Fn(NativeFn::Closure { env, params, body }) => Val::Fn(
                NativeFn::Closure { env: *env, params: duplicate_vec(params), body: duplicate_vec(body) },
            ),
            Val::SpecialOp(op) => Val::SpecialOp(*op),
            Val::Macro(Macro::Host(n)) => Val::Macro(Macro::Host(*n)),
            Val::Macro(Macro::Defmacro) => Val::Macro(Macro::Defmacro),
            Val::Macro(Macro::Quasiquote) => Val::Macro(Macro::Quasiquote),
            Val::Macro(Macro::Defined { params, body }) => Val::Macro(
                Macro::Defined { params: duplicate_vec(params), body: duplicate_vec(body) },
            ),
            Val::Int(i) => Val::Int(*i),
            Val::True => Val::True,
            Val::False => Val::False,
            Val::Str(s) => Val::Str(s.clone()),
        }
    }
}

/// A copy of a list of values, equal to it as a sequence of mathematical values.
pub fn duplicate_vec(v: &Vec<Val>) -> (r: Vec<Val>)
    ensures
        seq_view(r@) == seq_view(v@),
    decreases v, 1nat,
{
    let mut r: Vec<Val> = Vec::new();
    let mut i: usize = 0;
    while i < v.len()
        invariant
            i <= v.len(),
            r@.len() == i,
            forall|j: int| 0 <= j < i ==> #[trigger] r@[j]@ == v@[j]@,
        decreases v.len() - i,
    {
        proof {
            vstd::std_specs::vec::axiom_vec_index_decreases(*v, i as int);
        }
        let x = v[i].duplicate();
        r.push(x);
        i += 1;
    }
    assert(seq_view(r@) =~= seq_view(v@)) by {
        assert forall|j: int| 0 <= j < r@.len() implies seq_view(r@)[j] == seq_view(v@)[j] by {
            assert(r@[j]@ == v@[j]@);
        }
    }
    r
}

} // verus!

verus! {

/// How a value is shown for debugging: a symbol with its quoted name, an
/// integer in decimal, and a mark for each other kind of value.
pub open spec fn val_debug(names: Seq<Seq<char>>, v: Value) -> Seq<char> {
    match v {
        Value::Symbol(i) => if i < names.len() {
            "Symbol("@ + crate::chars::str_debug(names[i as int]) + ")"@
        } else {
            "Symbol("@ + "#"@ + crate::chars::decimal(i) + ")"@
        },
        Value::List(_) => "vec#"@,
        Value::HostFn(_) => "fn#"@,
        Value::Closure { .. } => "fn#"@,
        Value::Special(_) => "special-operator#"@,
        Value::HostMacro(_) => "macro#"@,
        Value::Defmacro => "macro#"@,
        Value::Quasiquote => "macro#"@,
        Value::DefinedMacro { .. } => "macro#"@,
        Value::Int(i) => crate::chars::int_text(i),
        Value::True => "true"@,
        Value::False => "false"@,
        Value::Str(_) => "any#"@,
    }
}

impl Val {
    /// The value as shown for debugging; symbols are named from `package`.
    pub fn debug_string(&self, package: &crate::package::Package) -> (r: String)
        ensures
            r@ == val_debug(package@, self@),
    {
        match self {
            Val::Symbol(s) => {
                let mut out = String::from_str("Symbol(");
                let ghost start = out@;
                if s.0 < package.len() {
                    let shown = crate::chars::debug_str(package.name(*s));
                    out.append(shown.as_str());
                    out.append(")");
                    assert(out@ =~= start + shown@ + ")"@);
                } else {
                    out.append("#");
                    crate::chars::push_decimal(s.0 as u128, &mut out);
                    out.append(")");
                    assert(out@ =~= start + "#"@ + crate::chars::decimal(s.0 as nat) + ")"@);
                }
                out
            },
            Val::Vec(_) => String::from_str("vec#"),
            Val::Fn(_) => String::from_str("fn#"),
            Val::SpecialOp(_) => String::from_str("special-operator#"),
            Val::Macro(_) => String::from_str("macro#"),
            Val::Int(i) => {
                let mut out = String::new();
                crate::chars::push_int(*i, &mut out);
                out
            },
            Val::True => String::from_str("true"),
            Val::False => String::from_str("false"),
            Val::Str(_) => String::from_str("any#"),
        }
    }
}

} // verus!
