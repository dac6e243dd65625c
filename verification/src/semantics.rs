use vstd::prelude::*;
use crate::data::{SpecialOperator, Value};
use crate::error::Error;
use crate::package::spec_intern;

verus! {

// ---------------------------------------------------------------------------
// The meaning of expansion and evaluation.
//
// The interpreter's state is its symbol names and its environment frames.
// Functions and macros supplied by the embedding program are not known to the
// library: what they return comes from a list of exchanges, consumed in order,
// and an outcome is faithful when each exchange was a call of the function or
// macro that evaluation called, with the arguments it passed.
// ---------------------------------------------------------------------------

/// An environment frame: its bindings and the frame it extends.
pub struct Frame {
    pub vars: Map<nat, Value>,
    pub parent: Option<nat>,
}

/// What expansion and evaluation read and change.
pub struct State {
    pub names: Seq<Seq<char>>,
    pub frames: Seq<Frame>,
}

/// A call of something the embedding program supplies.
pub enum HostCall {
    Fn(u64, Seq<Value>),
    Macro(u64, Seq<Value>),
}

/// A call made to the embedding program and what came back: the result and,
/// for a macro, the symbol names afterwards.
pub struct Exchange {
    pub call: HostCall,
    pub result: Result<Value, Error>,
    pub names: Seq<Seq<char>>,
}

/// The outcome of a step: its result, the state afterwards, the exchanges not
/// consumed, and whether every exchange consumed matched the call made.
pub struct Out {
    pub result: Result<Value, Error>,
    pub state: State,
    pub rest: Seq<Exchange>,
    pub faithful: bool,
}

/// Frames are only ever added after the frames they extend.
pub open spec fn frames_wf(frames: Seq<Frame>) -> bool {
    forall|i: int| 0 <= i < frames.len() ==> match #[trigger] frames[i].parent {
        Some(p) => p < i,
        None => true,
    }
}

/// The value bound to `sym` in the frame `env` or the frames it extends.
pub open spec fn lookup(frames: Seq<Frame>, env: int, sym: nat) -> Option<Value>
    decreases env,
{
    if env < 0 || env >= frames.len() {
        None
    } else if frames[env].vars.contains_key(sym) {
        Some(frames[env].vars[sym])
    } else {
        match frames[env].parent {
            Some(p) => if p < env {
                lookup(frames, p as int, sym)
            } else {
                None
            },
            None => None,
        }
    }
}

/// The state with `sym` bound to `v` in the frame `env`.
pub open spec fn bind(st: State, env: nat, sym: nat, v: Value) -> State {
    State {
        names: st.names,
        frames: st.frames.update(
            env as int,
            Frame { vars: st.frames[env as int].vars.insert(sym, v), parent: st.frames[env as int].parent },
        ),
    }
}

/// The state with a new empty frame extending `env`; it is frame `st.frames.len()`.
pub open spec fn push_frame(st: State, env: nat) -> State {
    State { names: st.names, frames: st.frames.push(Frame { vars: Map::empty(), parent: Some(env) }) }
}

/// `(quote v)` with the quote operator itself at its head.
pub open spec fn spec_quote_val(v: Value) -> Value {
    Value::List(seq![Value::Special(SpecialOperator::Quote), v])
}

/// The continuation of a call whose argument `i` froze with continuation
/// `cont`: the function and the arguments already evaluated, quoted, the
/// quoted continuation, and the argument forms not yet evaluated.
pub open spec fn freeze_continuation(first: Value, args: Seq<Value>, cont: Value, form: Seq<Value>, i: int) -> Value {
    Value::List(
        seq![spec_quote_val(first)] + args.map_values(|a: Value| spec_quote_val(a)) + seq![spec_quote_val(cont)]
            + form.skip(i + 1),
    )
}

/// The name under which an error inside the application of `head` is reported.
pub open spec fn head_name(names: Seq<Seq<char>>, head: Value) -> Seq<char> {
    match head {
        Value::Symbol(i) => if i < names.len() {
            names[i as int]
        } else {
            "#UNKNOWN"@
        },
        _ => "#UNKNOWN"@,
    }
}

/// An error from applying `head`, as it is reported: frozen evaluations pass
/// through, every other error is stacked under the name of `head`.
pub open spec fn stack_error(names: Seq<Seq<char>>, head: Value, e: Error) -> Error {
    match e {
        Error::Frozen(v, k) => Error::Frozen(v, k),
        _ => Error::Stacked(head_name(names, head), Box::new(e)),
    }
}

/// The outcome with its error, if any, stacked under `head`.
pub open spec fn stacked(o: Out, head: Value) -> Out {
    match o.result {
        Ok(v) => o,
        Err(e) => Out { result: Err(stack_error(o.state.names, head, e)), ..o },
    }
}

/// A failed outcome that changes nothing.
pub open spec fn fail(st: State, xs: Seq<Exchange>, e: Error) -> Out {
    Out { result: Err(e), state: st, rest: xs, faithful: true }
}

/// A successful outcome that changes nothing.
pub open spec fn done(st: State, xs: Seq<Exchange>, v: Value) -> Out {
    Out { result: Ok(v), state: st, rest: xs, faithful: true }
}

/// `o` after a step that was already taken faithfully or not.
pub open spec fn after(faithful: bool, o: Out) -> Out {
    Out { faithful: faithful && o.faithful, ..o }
}

/// Consuming the next exchange for `call`.
pub open spec fn host_step(st: State, xs: Seq<Exchange>, call: HostCall, is_macro: bool) -> Out {
    if xs.len() == 0 {
        Out { result: Err(Error::DepthExceeded), state: st, rest: xs, faithful: false }
    } else {
        Out {
            result: xs[0].result,
            state: if is_macro { State { names: xs[0].names, frames: st.frames } } else { st },
            rest: xs.drop_first(),
            faithful: xs[0].call == call,
        }
    }
}

/// Binding `params[j]` to `args[j]` in turn for `i <= j < min(len)`: the
/// bindings made, and `false` if it stopped at a parameter that is not a symbol.
pub open spec fn bind_params(vars: Map<nat, Value>, params: Seq<Value>, args: Seq<Value>, i: int) -> (Map<nat, Value>, bool)
    decreases params.len() - i,
{
    if i < 0 || i >= params.len() || i >= args.len() {
        (vars, true)
    } else {
        match params[i] {
            Value::Symbol(s) => bind_params(vars.insert(s, args[i]), params, args, i + 1),
            _ => (vars, false),
        }
    }
}

/// The state with a frame extending `env` that binds `params` to `args`, and
/// whether every parameter bound was a symbol.
pub open spec fn call_frame(st: State, env: nat, params: Seq<Value>, args: Seq<Value>) -> (State, bool) {
    let (vars, ok) = bind_params(Map::empty(), params, args, 0);
    (State { names: st.names, frames: st.frames.push(Frame { vars, parent: Some(env) }) }, ok)
}

/// Evaluating `form` in the frame `env`, with `d` levels of nesting allowed.
pub open spec fn eval_s(st: State, env: nat, form: Value, d: nat, xs: Seq<Exchange>) -> Out
    decreases d, 0nat, 0nat,
{
    if d == 0 {
        fail(st, xs, Error::DepthExceeded)
    } else {
        match form {
            Value::Symbol(s) => match lookup(st.frames, env as int, s) {
                Some(v) => done(st, xs, v),
                None => fail(st, xs, Error::Unbound(s)),
            },
            Value::List(v) => if v.len() == 0 {
                fail(st, xs, Error::Str("empty form"@))
            } else {
                let o1 = eval_s(st, env, v[0], (d - 1) as nat, xs);
                match o1.result {
                    Err(e) => o1,
                    Ok(first) => match first {
                        Value::HostFn(_) => after(
                            o1.faithful,
                            eval_args(o1.state, env, v, 1, first, (d - 1) as nat, o1.rest, Seq::empty()),
                        ),
                        Value::Closure { .. } => after(
                            o1.faithful,
                            eval_args(o1.state, env, v, 1, first, (d - 1) as nat, o1.rest, Seq::empty()),
                        ),
                        Value::Special(op) => after(
                            o1.faithful,
                            stacked(special_s(o1.state, env, op, v, (d - 1) as nat, o1.rest), v[0]),
                        ),
                        _ => Out { result: Err(Error::NotFunction(v[0])), ..o1 },
                    },
                }
            },
            _ => done(st, xs, form),
        }
    }
}

/// Evaluating the forms `forms[i..]` in turn; the value is that of the last,
/// or `last` when there are none.
pub open spec fn eval_iter_s(st: State, env: nat, forms: Seq<Value>, i: int, d: nat, xs: Seq<Exchange>, last: Value) -> Out
    decreases d, 1nat, forms.len() - i,
{
    if i < 0 || i >= forms.len() {
        done(st, xs, last)
    } else {
        let o = eval_s(st, env, forms[i], d, xs);
        match o.result {
            Err(_) => o,
            Ok(v) => after(o.faithful, eval_iter_s(o.state, env, forms, i + 1, d, o.rest, v)),
        }
    }
}

/// Evaluating the arguments `form[i..]` of a call of `first`, after `args`,
/// then applying `first`.
pub open spec fn eval_args(st: State, env: nat, form: Seq<Value>, i: int, first: Value, d: nat, xs: Seq<Exchange>, args: Seq<Value>) -> Out
    decreases d, 3nat, form.len() - i,
{
    if i < 1 || i >= form.len() {
        stacked(apply_s(st, first, args, d, xs), form[0])
    } else {
        let o = eval_s(st, env, form[i], d, xs);
        match o.result {
            Ok(a) => after(o.faithful, eval_args(o.state, env, form, i + 1, first, d, o.rest, args.push(a))),
            Err(Error::Frozen(val, cont)) => Out {
                result: Err(Error::Frozen(val, freeze_continuation(first, args, cont, form, i))),
                ..o
            },
            Err(_) => o,
        }
    }
}

/// Applying the function `f` to evaluated arguments.
pub open spec fn apply_s(st: State, f: Value, args: Seq<Value>, d: nat, xs: Seq<Exchange>) -> Out
    decreases d, 2nat, 0nat,
{
    match f {
        Value::HostFn(id) => host_step(st, xs, HostCall::Fn(id, args), false),
        Value::Closure { env, params, body } => if env >= st.frames.len() {
            fail(st, xs, Error::Str("invalid environment"@))
        } else {
            let (st2, ok) = call_frame(st, env, params, args);
            if ok {
                eval_iter_s(st2, st.frames.len(), body, 0, d, xs, Value::List(Seq::empty()))
            } else {
                fail(st2, xs, Error::Str("illegal lambda"@))
            }
        },
        _ => fail(st, xs, Error::NotFunction(f)),
    }
}

/// The bindings of a `let`, `bs[i..]`, each evaluated in the frame `env` and
/// bound there in turn.
pub open spec fn let_bindings_s(st: State, env: nat, bs: Seq<Value>, i: int, d: nat, xs: Seq<Exchange>) -> Out
    decreases d, 2nat, bs.len() - i,
{
    if i < 0 || i >= bs.len() {
        done(st, xs, Value::True)
    } else {
        match bs[i] {
            Value::List(b) => if b.len() >= 2 && b[0] is Symbol {
                let o = eval_s(st, env, b[1], d, xs);
                match o.result {
                    Err(_) => o,
                    Ok(v) => after(
                        o.faithful,
                        let_bindings_s(bind(o.state, env, b[0]->Symbol_0, v), env, bs, i + 1, d, o.rest),
                    ),
                }
            } else {
                fail(st, xs, Error::Str("illegal let"@))
            },
            _ => fail(st, xs, Error::Str("illegal let"@)),
        }
    }
}

/// Applying the special operator `op` to the whole form `form`.
pub open spec fn special_s(st: State, env: nat, op: SpecialOperator, form: Seq<Value>, d: nat, xs: Seq<Exchange>) -> Out
    decreases d, 3nat, 0nat,
{
    match op {
        SpecialOperator::Quote => if form.len() == 2 {
            done(st, xs, form[1])
        } else {
            fail(st, xs, Error::Str("invalid arguments"@))
        },
        SpecialOperator::If => if form.len() == 4 {
            let o = eval_s(st, env, form[1], d, xs);
            match o.result {
                Err(_) => o,
                Ok(c) => after(
                    o.faithful,
                    eval_s(o.state, env, if c == Value::False { form[3] } else { form[2] }, d, o.rest),
                ),
            }
        } else {
            fail(st, xs, Error::Str("invalid arguments"@))
        },
        SpecialOperator::Let => if form.len() >= 2 && form[1] is List && env < st.frames.len() {
            let st1 = push_frame(st, env);
            let child = st.frames.len();
            let o = let_bindings_s(st1, child, form[1]->List_0, 0, d, xs);
            match o.result {
                Err(_) => o,
                Ok(_) => after(
                    o.faithful,
                    eval_iter_s(o.state, child, form, 2, d, o.rest, Value::List(Seq::empty())),
                ),
            }
        } else {
            fail(st, xs, Error::Str("invalid arguments"@))
        },
        SpecialOperator::Do => eval_iter_s(st, env, form, 1, d, xs, Value::List(Seq::empty())),
        SpecialOperator::Lambda => if form.len() >= 2 && form[1] is List {
            done(st, xs, Value::Closure { env, params: form[1]->List_0, body: form.skip(2) })
        } else {
            fail(st, xs, Error::Str("illegal lambda params"@))
        },
        SpecialOperator::Assign => if form.len() == 3 && form[1] is Symbol {
            let o = eval_s(st, env, form[2], d, xs);
            match o.result {
                Err(_) => o,
                Ok(v) => Out { state: bind(o.state, env, form[1]->Symbol_0, v), ..o },
            }
        } else {
            fail(st, xs, Error::Str("illegal set"@))
        },
    }
}


/// Whether `v` is a symbol named `name`.
pub open spec fn is_symbol_named(names: Seq<Seq<char>>, v: Value, name: Seq<char>) -> bool {
    match v {
        Value::Symbol(i) => i < names.len() && names[i as int] == name,
        _ => false,
    }
}

/// `Some((false, x))` for `(unquote x)`, `Some((true, x))` for
/// `(unquote-splicing x)`, `None` for any other form.
pub open spec fn unquoted(names: Seq<Seq<char>>, v: Value) -> Option<(bool, Value)> {
    match v {
        Value::List(w) => if w.len() == 2 && is_symbol_named(names, w[0], "unquote"@) {
            Some((false, w[1]))
        } else if w.len() == 2 && is_symbol_named(names, w[0], "unquote-splicing"@) {
            Some((true, w[1]))
        } else {
            None
        },
        _ => None,
    }
}

/// Whether one of `v[i..]` is `(unquote-splicing x)`.
pub open spec fn any_splicing(names: Seq<Seq<char>>, v: Seq<Value>, i: int) -> bool
    decreases v.len() - i,
{
    if i < 0 || i >= v.len() {
        false
    } else {
        (unquoted(names, v[i]) matches Some((true, _))) || any_splicing(names, v, i + 1)
    }
}

/// The quasiquotation of `val`: the form that builds `val`, with unquoted parts
/// evaluated, out of calls of `vec` and `append`. Interning the symbols it
/// needs changes the names, which come back first.
pub open spec fn qq_s(names: Seq<Seq<char>>, val: Value) -> (Seq<Seq<char>>, Value)
    decreases val, 0nat,
{
    match val {
        Value::List(v) => {
            let app = any_splicing(names, v, 0);
            let (n1, vec_id) = spec_intern(names, "vec"@);
            if app {
                let (n2, app_id) = spec_intern(n1, "append"@);
                let (n3, items) = qq_items(names, n2, v, 0, true, vec_id, seq![Value::Symbol(app_id)]);
                (n3, Value::List(items))
            } else {
                let (n3, items) = qq_items(names, n1, v, 0, false, vec_id, seq![Value::Symbol(vec_id)]);
                (n3, Value::List(items))
            }
        },
        _ => {
            let (n1, q) = spec_intern(names, "quote"@);
            (n1, Value::List(seq![Value::Symbol(q), val]))
        },
    }
}

/// The elements `v[i..]` of a quasiquoted list, after `acc`; `names0` are the
/// names against which `unquote` is recognised.
pub open spec fn qq_items(
    names0: Seq<Seq<char>>,
    names: Seq<Seq<char>>,
    v: Seq<Value>,
    i: int,
    app: bool,
    vec_id: nat,
    acc: Seq<Value>,
) -> (Seq<Seq<char>>, Seq<Value>)
    decreases v, v.len() - i,
{
    if i < 0 || i >= v.len() {
        (names, acc)
    } else {
        match unquoted(names0, v[i]) {
            Some((true, x)) => qq_items(names0, names, v, i + 1, app, vec_id, acc.push(x)),
            Some((false, x)) => qq_items(
                names0,
                names,
                v,
                i + 1,
                app,
                vec_id,
                acc.push(if app { Value::List(seq![Value::Symbol(vec_id), x]) } else { x }),
            ),
            None => {
                let (n1, y) = qq_s(names, v[i]);
                qq_items(
                    names0,
                    n1,
                    v,
                    i + 1,
                    app,
                    vec_id,
                    acc.push(if app { Value::List(seq![Value::Symbol(vec_id), y]) } else { y }),
                )
            },
        }
    }
}

/// Whether `v` is a macro.
pub open spec fn is_macro(v: Value) -> bool {
    match v {
        Value::HostMacro(_) => true,
        Value::Defmacro => true,
        Value::Quasiquote => true,
        Value::DefinedMacro { .. } => true,
        _ => false,
    }
}

/// The macro that the expanded head `head` names in the frame `env`, if any.
pub open spec fn macro_at(st: State, env: nat, head: Value) -> Option<Value> {
    match head {
        Value::Symbol(s) => match lookup(st.frames, env as int, s) {
            Some(m) => if is_macro(m) {
                Some(m)
            } else {
                None
            },
            None => None,
        },
        _ => None,
    }
}

/// `defmacro` applied to `args`: binds a macro in the frame `env`.
pub open spec fn defmacro_s(st: State, env: nat, args: Seq<Value>, xs: Seq<Exchange>) -> Out {
    if args.len() == 0 || !(args[0] is Symbol) {
        fail(st, xs, Error::Str("macro name must be a symbol"@))
    } else if args.len() < 2 || !(args[1] is List) {
        fail(st, xs, Error::Str("illegal macro params"@))
    } else {
        let mac = Value::DefinedMacro { params: args[1]->List_0, body: args.skip(2) };
        done(bind(st, env, args[0]->Symbol_0, mac), xs, mac)
    }
}

/// `quasiquote` applied to `args`.
pub open spec fn quasiquote_s(st: State, args: Seq<Value>, xs: Seq<Exchange>) -> Out {
    if args.len() == 0 {
        fail(st, xs, Error::Str("invalid arguments"@))
    } else {
        let (n, r) = qq_s(st.names, args[0]);
        done(State { names: n, frames: st.frames }, xs, r)
    }
}

/// Applying the macro `m` to the unevaluated arguments `args` in the frame `env`.
pub open spec fn call_macro_s(st: State, env: nat, m: Value, args: Seq<Value>, d: nat, xs: Seq<Exchange>) -> Out {
    match m {
        Value::HostMacro(id) => host_step(st, xs, HostCall::Macro(id, args), true),
        Value::Defmacro => defmacro_s(st, env, args, xs),
        Value::Quasiquote => quasiquote_s(st, args, xs),
        Value::DefinedMacro { params, body } => if env >= st.frames.len() {
            fail(st, xs, Error::Str("invalid environment"@))
        } else {
            let (st2, ok) = call_frame(st, env, params, args);
            if ok {
                eval_iter_s(st2, st.frames.len(), body, 0, d, xs, Value::List(Seq::empty()))
            } else {
                fail(st2, xs, Error::Str("illegal macro"@))
            }
        },
        _ => fail(st, xs, Error::NotFunction(m)),
    }
}

/// Expanding the macros in `val`, in the frame `env`, with `d` levels of nesting allowed.
pub open spec fn mexpand_s(st: State, env: nat, val: Value, d: nat, xs: Seq<Exchange>) -> Out
    decreases d, 0nat, 0nat,
{
    if d == 0 {
        fail(st, xs, Error::DepthExceeded)
    } else {
        match val {
            Value::List(v) => if v.len() == 0 {
                fail(st, xs, Error::Str("empty form"@))
            } else {
                let o1 = mexpand_s(st, env, v[0], (d - 1) as nat, xs);
                match o1.result {
                    Err(_) => o1,
                    Ok(head) => match macro_at(o1.state, env, head) {
                        Some(m) => {
                            let o2 = call_macro_s(o1.state, env, m, v.skip(1), (d - 1) as nat, o1.rest);
                            match o2.result {
                                Err(_) => after(o1.faithful, o2),
                                Ok(expanded) => after(
                                    o1.faithful && o2.faithful,
                                    mexpand_s(o2.state, env, expanded, (d - 1) as nat, o2.rest),
                                ),
                            }
                        },
                        None => after(
                            o1.faithful,
                            mexpand_items(o1.state, env, v, 1, (d - 1) as nat, o1.rest, seq![head]),
                        ),
                    },
                }
            },
            _ => done(st, xs, val),
        }
    }
}

/// Expanding the elements `v[i..]` of a list whose head is not a macro, after `acc`.
pub open spec fn mexpand_items(st: State, env: nat, v: Seq<Value>, i: int, d: nat, xs: Seq<Exchange>, acc: Seq<Value>) -> Out
    decreases d, 1nat, v.len() - i,
{
    if i < 0 || i >= v.len() {
        done(st, xs, Value::List(acc))
    } else {
        let o = mexpand_s(st, env, v[i], d, xs);
        match o.result {
            Err(_) => o,
            Ok(x) => after(o.faithful, mexpand_items(o.state, env, v, i + 1, d, o.rest, acc.push(x))),
        }
    }
}

} // verus!
