use vstd::prelude::*;
use crate::chars::spec_is_whitespace;
use crate::data::{SpecialOperator, Value};
use crate::error::Error;
use crate::package::spec_intern;
use crate::reader::{
    is_atom_char, read_whole, read_value, read_all, skip_ws, atom_end, read_string_from, ReadMacro, table_get,
    lemma_read_value_pos, lemma_skip_ws, read_items, read_list_from,
};
use crate::parse::{parse_form, parse_list_rest, skip_blank, word_end, is_word_char};
use crate::semantics::{
    State, Frame, Exchange, frames_wf, lookup, bind, push_frame, eval_s, mexpand_s, done, special_s, eval_args,
    apply_s, eval_iter_s, call_frame, bind_params, stacked, after, fail, defmacro_s, call_macro_s, macro_at,
    HostCall, unquoted, any_splicing, qq_s, qq_items, quasiquote_s, host_step, let_bindings_s, is_symbol_named,
};
use crate::string_pool::{distinct_names, index_of_name, lemma_index_unique};

verus! {

// ---------------------------------------------------------------------------
// Interning.
// ---------------------------------------------------------------------------

/// Interning a name gives a symbol of that name; interning it again changes
/// nothing and gives the same symbol.
pub proof fn law_intern_idempotent(names: Seq<Seq<char>>, name: Seq<char>)
    requires
        distinct_names(names),
    ensures
        ({
            let (n1, i) = spec_intern(names, name);
            &&& i < n1.len()
            &&& n1[i as int] == name
            &&& distinct_names(n1)
            &&& spec_intern(n1, name) == (n1, i)
        }),
{
    let (n1, i) = spec_intern(names, name);
    if names.contains(name) {
        let k = choose|k: nat| k < names.len() && names[k as int] == name;
        lemma_index_unique(names, k as int, name);
    } else {
        assert(n1 == names.push(name));
        assert(n1[names.len() as int] == name);
        assert forall|a: int, b: int| 0 <= a < b < n1.len() implies n1[a] != n1[b] by {
            if b == names.len() {
                assert(names.contains(names[a]));
            }
        }
        lemma_index_unique(n1, names.len() as int, name);
    }
}

/// Interning never changes the symbols already made.
pub proof fn law_intern_keeps_symbols(names: Seq<Seq<char>>, name: Seq<char>)
    ensures
        spec_intern(names, name).0.len() >= names.len(),
        forall|j: int| 0 <= j < names.len() ==> #[trigger] spec_intern(names, name).0[j] == names[j],
{
}

/// Two names give the same symbol exactly when they are equal.
pub proof fn law_intern_injective(names: Seq<Seq<char>>, a: Seq<char>, b: Seq<char>)
    requires
        distinct_names(names),
    ensures
        ({
            let (n1, i) = spec_intern(names, a);
            let (n2, j) = spec_intern(n1, b);
            i == j <==> a == b
        }),
{
    law_intern_idempotent(names, a);
    let (n1, i) = spec_intern(names, a);
    law_intern_idempotent(n1, b);
    law_intern_keeps_symbols(n1, b);
}

/// A symbol made in one table keeps its name in every later table of a
/// package or string pool, since interning only appends; interning in the
/// later table gives that symbol back, and looking a name up there finds it,
/// exactly for its own name, whatever was interned in between.
pub proof fn law_intern_across_calls(
    earlier: Seq<Seq<char>>,
    later: Seq<Seq<char>>,
    i: nat,
    a: Seq<char>,
    b: Seq<char>,
)
    requires
        distinct_names(later),
        earlier.len() <= later.len(),
        forall|j: int| 0 <= j < earlier.len() ==> #[trigger] later[j] == earlier[j],
        i < earlier.len(),
        earlier[i as int] == a,
    ensures
        later[i as int] == a,
        spec_intern(later, b).1 == i <==> a == b,
        a == b ==> spec_intern(later, b) == (later, i),
        index_of_name(later, b) == Some(i) <==> a == b,
{
    assert(later[i as int] == a);
    if a == b {
        lemma_index_unique(later, i as int, b);
    } else if later.contains(b) {
        let k = choose|k: int| 0 <= k < later.len() && later[k] == b;
        lemma_index_unique(later, k, b);
    }
}

// ---------------------------------------------------------------------------
// Environments.
// ---------------------------------------------------------------------------

/// Binding a symbol adds no frame, and each frame still extends only frames
/// made before it.
pub proof fn law_bind_keeps_frames_wf(st: State, env: nat, sym: nat, v: Value)
    requires
        frames_wf(st.frames),
        env < st.frames.len(),
    ensures
        frames_wf(bind(st, env, sym, v).frames),
        bind(st, env, sym, v).frames.len() == st.frames.len(),
{
    let fs = bind(st, env, sym, v).frames;
    assert forall|i: int| 0 <= i < fs.len() implies match #[trigger] fs[i].parent {
        Some(p) => p < i,
        None => true,
    } by {
        assert(fs[i].parent == st.frames[i].parent);
    }
}

/// What was bound in an environment is what a read there gives back.
pub proof fn law_get_after_insert(st: State, env: nat, sym: nat, v: Value)
    requires
        frames_wf(st.frames),
        env < st.frames.len(),
    ensures
        lookup(bind(st, env, sym, v).frames, env as int, sym) == Some(v),
{
}

/// Binding a symbol changes no read of another symbol, in any environment.
pub proof fn law_insert_keeps_other_symbols(st: State, env: nat, sym: nat, v: Value, at: int, other: nat)
    requires
        frames_wf(st.frames),
        env < st.frames.len(),
        other != sym,
    ensures
        lookup(bind(st, env, sym, v).frames, at, other) == lookup(st.frames, at, other),
    decreases at,
{
    let fs = bind(st, env, sym, v).frames;
    if 0 <= at < st.frames.len() {
        assert(fs[at].parent == st.frames[at].parent);
        if at == env {
            assert(fs[at].vars.contains_key(other) == st.frames[at].vars.contains_key(other));
        }
        if !st.frames[at].vars.contains_key(other) {
            match st.frames[at].parent {
                Some(p) => {
                    if p < at {
                        law_insert_keeps_other_symbols(st, env, sym, v, p as int, other);
                    }
                },
                None => {},
            }
        }
    }
}

/// Binding in an environment changes no read in an environment that does not
/// extend it, such as the environment it extends.
pub proof fn law_insert_keeps_older_frames(st: State, env: nat, sym: nat, v: Value, at: int, s: nat)
    requires
        frames_wf(st.frames),
        env < st.frames.len(),
        at < env,
    ensures
        lookup(bind(st, env, sym, v).frames, at, s) == lookup(st.frames, at, s),
    decreases at,
{
    let fs = bind(st, env, sym, v).frames;
    if 0 <= at < st.frames.len() {
        assert(fs[at] == st.frames[at]);
        if !st.frames[at].vars.contains_key(s) {
            match st.frames[at].parent {
                Some(p) => {
                    if p < at {
                        law_insert_keeps_older_frames(st, env, sym, v, p as int, s);
                    }
                },
                None => {},
            }
        }
    }
}

/// A new environment sees every binding of the environment it extends, and
/// making it changes no read elsewhere.
pub proof fn law_child_sees_parent(st: State, env: nat, s: nat, at: int)
    requires
        frames_wf(st.frames),
        env < st.frames.len(),
        0 <= at < st.frames.len(),
    ensures
        lookup(push_frame(st, env).frames, st.frames.len() as int, s) == lookup(st.frames, env as int, s),
        lookup(push_frame(st, env).frames, at, s) == lookup(st.frames, at, s),
    decreases at,
{
    let fs = push_frame(st, env).frames;
    assert(fs[st.frames.len() as int].vars == Map::<nat, Value>::empty());
    lemma_push_keeps(st, env, s, env as int);
    lemma_push_keeps(st, env, s, at);
}

proof fn lemma_push_keeps(st: State, env: nat, s: nat, at: int)
    requires
        frames_wf(st.frames),
        0 <= at < st.frames.len(),
    ensures
        lookup(push_frame(st, env).frames, at, s) == lookup(st.frames, at, s),
    decreases at,
{
    let fs = push_frame(st, env).frames;
    assert(fs[at] == st.frames[at]);
    if !st.frames[at].vars.contains_key(s) {
        match st.frames[at].parent {
            Some(p) => {
                if p < at {
                    lemma_push_keeps(st, env, s, p as int);
                }
            },
            None => {},
        }
    }
}

proof fn lemma_lookup_push(frames: Seq<Frame>, f: Frame, s: nat, at: int)
    requires
        0 <= at < frames.len(),
    ensures
        lookup(frames.push(f), at, s) == lookup(frames, at, s),
    decreases at,
{
    assert(frames.push(f)[at] == frames[at]);
    if !frames[at].vars.contains_key(s) {
        match frames[at].parent {
            Some(p) => {
                if p < at {
                    lemma_lookup_push(frames, f, s, p as int);
                }
            },
            None => {},
        }
    }
}

/// Whether parameter `j` is the last of `params[..n]` that is the symbol `s`.
pub open spec fn last_param(params: Seq<Value>, s: nat, j: int, n: int) -> bool {
    &&& 0 <= j < n
    &&& params[j] == Value::Symbol(s)
    &&& forall|k: int| j < k < n ==> params[k] != Value::Symbol(s)
}

/// Whether no parameter of `params[..n]` is the symbol `s`.
pub open spec fn not_a_param(params: Seq<Value>, s: nat, n: int) -> bool {
    forall|j: int| 0 <= j < n ==> params[j] != Value::Symbol(s)
}

/// The number of parameters that a call binds.
pub open spec fn bound_count(params: Seq<Value>, args: Seq<Value>) -> int {
    if params.len() < args.len() {
        params.len() as int
    } else {
        args.len() as int
    }
}

/// Whether none of `params[i..n]` is the symbol `s`.
pub open spec fn absent_from(params: Seq<Value>, s: nat, i: int, n: int) -> bool {
    forall|j: int| i <= j < n ==> params[j] != Value::Symbol(s)
}

proof fn lemma_bind_params(vars: Map<nat, Value>, params: Seq<Value>, args: Seq<Value>, i: int)
    requires
        0 <= i,
    ensures
        bind_params(vars, params, args, i).1 <==> (forall|j: int|
            i <= j < bound_count(params, args) ==> #[trigger] params[j] is Symbol),
        bind_params(vars, params, args, i).1 ==> forall|s: nat|
            #![trigger bind_params(vars, params, args, i).0.contains_key(s)]
            absent_from(params, s, i, bound_count(params, args))
                ==> bind_params(vars, params, args, i).0.contains_key(s) == vars.contains_key(s)
                && (vars.contains_key(s) ==> bind_params(vars, params, args, i).0[s] == vars[s]),
        bind_params(vars, params, args, i).1 ==> forall|s: nat, j: int|
            i <= j && #[trigger] last_param(params, s, j, bound_count(params, args))
                ==> bind_params(vars, params, args, i).0.contains_key(s)
                && bind_params(vars, params, args, i).0[s] == args[j],
    decreases params.len() - i,
{
    let n = bound_count(params, args);
    if i < n {
        match params[i] {
            Value::Symbol(si) => {
                let v2 = vars.insert(si, args[i]);
                lemma_bind_params(v2, params, args, i + 1);
                let r = bind_params(vars, params, args, i);
                assert(r == bind_params(v2, params, args, i + 1));
                assert(r.1 <==> (forall|j: int| i <= j < n ==> #[trigger] params[j] is Symbol)) by {
                    if r.1 {
                        assert forall|j: int| i <= j < n implies #[trigger] params[j] is Symbol by {
                            if j > i {
                                assert(i + 1 <= j < n);
                            }
                        }
                    }
                    if forall|j: int| i <= j < n ==> #[trigger] params[j] is Symbol {
                        assert forall|j: int| i + 1 <= j < n implies #[trigger] params[j] is Symbol by {
                            assert(i <= j < n);
                        }
                    }
                }
                if r.1 {
                    assert forall|s: nat|
                        #![trigger bind_params(vars, params, args, i).0.contains_key(s)]
                        absent_from(params, s, i, n) implies
                        r.0.contains_key(s) == vars.contains_key(s) && (vars.contains_key(s) ==> r.0[s] == vars[s]) by {
                        assert(params[i] != Value::Symbol(s));
                        assert(absent_from(params, s, i + 1, n));
                        assert(bind_params(v2, params, args, i + 1).0.contains_key(s) == v2.contains_key(s));
                    }
                    assert forall|s: nat, j: int| i <= j && #[trigger] last_param(params, s, j, n) implies
                        r.0.contains_key(s) && r.0[s] == args[j] by {
                        if j == i {
                            assert(absent_from(params, s, i + 1, n)) by {
                                assert forall|k: int| i + 1 <= k < n implies params[k] != Value::Symbol(s) by {
                                    assert(j < k < n);
                                }
                            }
                            assert(bind_params(v2, params, args, i + 1).0.contains_key(s) == v2.contains_key(s));
                            assert(v2.contains_key(s) && v2[s] == args[i]);
                        } else {
                            assert(last_param(params, s, j, n));
                        }
                    }
                }
            },
            _ => {
                assert(!(params[i] is Symbol));
            },
        }
    }
}

// ---------------------------------------------------------------------------
// Evaluation and expansion.
// ---------------------------------------------------------------------------

/// Values other than symbols and lists evaluate to themselves and change nothing.
pub proof fn law_self_evaluating(st: State, env: nat, v: Value, d: nat, xs: Seq<Exchange>)
    requires
        d > 0,
        !(v is Symbol),
        !(v is List),
    ensures
        eval_s(st, env, v, d, xs) == done(st, xs, v),
{
}

/// A bound symbol evaluates to its value; an unbound one to an `Unbound` error.
pub proof fn law_symbol_evaluation(st: State, env: nat, s: nat, d: nat, xs: Seq<Exchange>)
    requires
        d > 0,
    ensures
        eval_s(st, env, Value::Symbol(s), d, xs).state == st,
        eval_s(st, env, Value::Symbol(s), d, xs).rest == xs,
        eval_s(st, env, Value::Symbol(s), d, xs).result == (match lookup(st.frames, env as int, s) {
            Some(v) => Ok(v),
            None => Err(Error::Unbound(s)),
        }),
{
}

/// `(quote x)`, with `quote` bound to the quote operator, evaluates to `x`,
/// unevaluated, and changes nothing.
pub proof fn law_quote(st: State, env: nat, q: nat, x: Value, d: nat, xs: Seq<Exchange>)
    requires
        d >= 2,
        lookup(st.frames, env as int, q) == Some(Value::Special(SpecialOperator::Quote)),
    ensures
        eval_s(st, env, Value::List(seq![Value::Symbol(q), x]), d, xs) == done(st, xs, x),
{
    let form = seq![Value::Symbol(q), x];
    assert(eval_s(st, env, form[0], (d - 1) as nat, xs) == done(st, xs, Value::Special(SpecialOperator::Quote)));
    assert(special_s(st, env, SpecialOperator::Quote, form, (d - 1) as nat, xs) == done(st, xs, x));
}

/// `((lambda (x) x) (quote v))`, with `lambda` and `quote` bound to their
/// operators, evaluates to `v`; the only change is the frame of the call, which
/// extends the environment and binds `x` to `v`.
pub proof fn law_identity_function(st: State, env: nat, lam: nat, q: nat, x: nat, v: Value, d: nat, xs: Seq<Exchange>)
    requires
        d >= 4,
        env < st.frames.len(),
        lookup(st.frames, env as int, lam) == Some(Value::Special(SpecialOperator::Lambda)),
        lookup(st.frames, env as int, q) == Some(Value::Special(SpecialOperator::Quote)),
    ensures
        ({
            let lambda_form = Value::List(seq![Value::Symbol(lam), Value::List(seq![Value::Symbol(x)]), Value::Symbol(x)]);
            let form = Value::List(seq![lambda_form, Value::List(seq![Value::Symbol(q), v])]);
            let o = eval_s(st, env, form, d, xs);
            &&& o.result == Ok::<Value, Error>(v)
            &&& o.rest == xs
            &&& o.faithful
            &&& o.state.names == st.names
            &&& o.state.frames == st.frames.push(Frame { vars: Map::empty().insert(x, v), parent: Some(env) })
        }),
{
    let lam_items = seq![Value::Symbol(lam), Value::List(seq![Value::Symbol(x)]), Value::Symbol(x)];
    let lambda_form = Value::List(lam_items);
    let arg_form = Value::List(seq![Value::Symbol(q), v]);
    let items = seq![lambda_form, arg_form];
    let closure = Value::Closure { env, params: seq![Value::Symbol(x)], body: seq![Value::Symbol(x)] };
    assert(eval_s(st, env, Value::Symbol(lam), (d - 2) as nat, xs) == done(st, xs, Value::Special(SpecialOperator::Lambda)));
    assert(lam_items.skip(2) =~= seq![Value::Symbol(x)]);
    assert(special_s(st, env, SpecialOperator::Lambda, lam_items, (d - 2) as nat, xs) == done(st, xs, closure));
    assert(eval_s(st, env, lambda_form, (d - 1) as nat, xs) == done(st, xs, closure));
    law_quote(st, env, q, v, (d - 1) as nat, xs);
    assert(eval_s(st, env, items[1], (d - 1) as nat, xs) == done(st, xs, v));
    let args = Seq::<Value>::empty().push(v);
    let vars = Map::<nat, Value>::empty().insert(x, v);
    assert(bind_params(Map::empty(), seq![Value::Symbol(x)], args, 0) == (vars, true)) by {
        assert(bind_params(vars, seq![Value::Symbol(x)], args, 1) == (vars, true));
    }
    let st2 = State { names: st.names, frames: st.frames.push(Frame { vars, parent: Some(env) }) };
    assert(call_frame(st, env, seq![Value::Symbol(x)], args) == (st2, true));
    let child = st.frames.len();
    assert(st2.frames[child as int].vars.contains_key(x));
    assert(lookup(st2.frames, child as int, x) == Some(v));
    assert(eval_s(st2, child, Value::Symbol(x), (d - 1) as nat, xs) == done(st2, xs, v));
    assert(eval_iter_s(st2, child, seq![Value::Symbol(x)], 1, (d - 1) as nat, xs, v) == done(st2, xs, v));
    assert(eval_iter_s(st2, child, seq![Value::Symbol(x)], 0, (d - 1) as nat, xs, Value::List(Seq::empty())) == done(st2, xs, v));
    assert(apply_s(st, closure, args, (d - 1) as nat, xs) == done(st2, xs, v));
    assert(eval_args(st, env, items, 2, closure, (d - 1) as nat, xs, args) == done(st2, xs, v));
    assert(eval_args(st, env, items, 1, closure, (d - 1) as nat, xs, Seq::empty()) == done(st2, xs, v));
}

/// The frame of a call: a new last frame, extending `env`, in which each
/// parameter is bound to its argument (the last one, if a parameter repeats)
/// and every other symbol reads as in `env`; no other frame changes.
proof fn lemma_call_frame(st: State, env: nat, params: Seq<Value>, args: Seq<Value>)
    requires
        frames_wf(st.frames),
        env < st.frames.len(),
        bind_params(Map::empty(), params, args, 0).1,
    ensures
        ({
            let (st2, ok) = call_frame(st, env, params, args);
            let c = st.frames.len() as int;
            let n = bound_count(params, args);
            &&& ok
            &&& st2.names == st.names
            &&& st2.frames.len() == c + 1
            &&& frames_wf(st2.frames)
            &&& st2.frames[c].parent == Some(env)
            &&& forall|at: int, s: nat| 0 <= at < c ==> #[trigger] lookup(st2.frames, at, s) == lookup(st.frames, at, s)
            &&& forall|s: nat| absent_from(params, s, 0, n) ==> #[trigger] lookup(st2.frames, c, s) == lookup(st.frames, env as int, s)
            &&& forall|s: nat, j: int| #[trigger] last_param(params, s, j, n) ==> lookup(st2.frames, c, s) == Some(args[j])
        }),
{
    let (st2, ok) = call_frame(st, env, params, args);
    let c = st.frames.len() as int;
    let n = bound_count(params, args);
    let (vars, _) = bind_params(Map::empty(), params, args, 0);
    let f = Frame { vars, parent: Some(env) };
    lemma_bind_params(Map::empty(), params, args, 0);
    assert(st2.frames == st.frames.push(f));
    assert forall|i: int| 0 <= i < st2.frames.len() implies match #[trigger] st2.frames[i].parent {
        Some(p) => p < i,
        None => true,
    } by {
        if i < c {
            assert(st2.frames[i] == st.frames[i]);
        }
    }
    assert forall|at: int, s: nat| 0 <= at < c implies #[trigger] lookup(st2.frames, at, s) == lookup(st.frames, at, s) by {
        lemma_lookup_push(st.frames, f, s, at);
    }
    assert forall|s: nat| absent_from(params, s, 0, n) implies #[trigger] lookup(st2.frames, c, s) == lookup(st.frames, env as int, s) by {
        assert(bind_params(Map::empty(), params, args, 0).0.contains_key(s) == Map::<nat, Value>::empty().contains_key(s));
        lemma_lookup_push(st.frames, f, s, env as int);
    }
    assert forall|s: nat, j: int| #[trigger] last_param(params, s, j, n) implies lookup(st2.frames, c, s) == Some(args[j]) by {
        assert(0 <= j && last_param(params, s, j, n));
    }
}

/// `lambda` makes, changing nothing, a closure over the environment where it
/// is evaluated, or fails when its parameters are not a list. Applying that
/// closure later, to arguments for parameters that are symbols, evaluates its
/// body in turn in a new frame that extends the defining environment and binds
/// each parameter to its argument; the value is that of the last form, or the
/// empty list. Every other symbol reads there as in the defining environment,
/// and no older frame changes.
pub proof fn law_lambda_application(
    st: State,
    env: nat,
    form: Seq<Value>,
    d: nat,
    xs: Seq<Exchange>,
    st1: State,
    args: Seq<Value>,
    d1: nat,
    ys: Seq<Exchange>,
)
    requires
        form.len() >= 2,
        frames_wf(st1.frames),
        env < st1.frames.len(),
        form[1] is List ==> bind_params(Map::empty(), form[1]->List_0, args, 0).1,
    ensures
        !(form[1] is List) ==> special_s(st, env, SpecialOperator::Lambda, form, d, xs)
            == fail(st, xs, Error::Str("illegal lambda params"@)),
        form[1] is List ==> ({
            let params = form[1]->List_0;
            let body = form.skip(2);
            let clo = Value::Closure { env, params, body };
            let (st2, ok) = call_frame(st1, env, params, args);
            let c = st1.frames.len() as int;
            let n = bound_count(params, args);
            &&& special_s(st, env, SpecialOperator::Lambda, form, d, xs) == done(st, xs, clo)
            &&& apply_s(st1, clo, args, d1, ys) == eval_iter_s(st2, c as nat, body, 0, d1, ys, Value::List(Seq::empty()))
            &&& body.len() == 0 ==> apply_s(st1, clo, args, d1, ys) == done(st2, ys, Value::List(Seq::empty()))
            &&& st2.names == st1.names
            &&& st2.frames.len() == c + 1
            &&& frames_wf(st2.frames)
            &&& st2.frames[c].parent == Some(env)
            &&& forall|at: int, s: nat| 0 <= at < c ==> #[trigger] lookup(st2.frames, at, s) == lookup(st1.frames, at, s)
            &&& forall|s: nat| absent_from(params, s, 0, n) ==> #[trigger] lookup(st2.frames, c, s) == lookup(st1.frames, env as int, s)
            &&& forall|s: nat, j: int| #[trigger] last_param(params, s, j, n) ==> lookup(st2.frames, c, s) == Some(args[j])
        }),
{
    if form[1] is List {
        lemma_call_frame(st1, env, form[1]->List_0, args);
    }
}

/// `defmacro` binds, in the environment where it is expanded, a macro with the
/// given parameters and body under the given name, which then names that macro
/// there. Calling the macro later, from any environment and with arguments for
/// parameters that are symbols, evaluates its body in turn, unexpanded
/// arguments bound to the parameters, in a new frame that extends the calling
/// environment; the value is that of the last form, or the empty list.
pub proof fn law_defined_macro(
    st: State,
    env: nat,
    margs: Seq<Value>,
    xs: Seq<Exchange>,
    st1: State,
    e: nat,
    args: Seq<Value>,
    d: nat,
    ys: Seq<Exchange>,
)
    requires
        frames_wf(st.frames),
        env < st.frames.len(),
        margs.len() >= 2,
        margs[0] is Symbol,
        margs[1] is List,
        frames_wf(st1.frames),
        e < st1.frames.len(),
        bind_params(Map::empty(), margs[1]->List_0, args, 0).1,
    ensures
        ({
            let name = margs[0]->Symbol_0;
            let params = margs[1]->List_0;
            let body = margs.skip(2);
            let mac = Value::DefinedMacro { params, body };
            let st_def = bind(st, env, name, mac);
            let (st2, ok) = call_frame(st1, e, params, args);
            let c = st1.frames.len() as int;
            let n = bound_count(params, args);
            &&& defmacro_s(st, env, margs, xs) == done(st_def, xs, mac)
            &&& lookup(st_def.frames, env as int, name) == Some(mac)
            &&& macro_at(st_def, env, Value::Symbol(name)) == Some(mac)
            &&& call_macro_s(st1, e, mac, args, d, ys) == eval_iter_s(st2, c as nat, body, 0, d, ys, Value::List(Seq::empty()))
            &&& st2.frames.len() == c + 1
            &&& frames_wf(st2.frames)
            &&& st2.frames[c].parent == Some(e)
            &&& forall|at: int, s: nat| 0 <= at < c ==> #[trigger] lookup(st2.frames, at, s) == lookup(st1.frames, at, s)
            &&& forall|s: nat| absent_from(params, s, 0, n) ==> #[trigger] lookup(st2.frames, c, s) == lookup(st1.frames, e as int, s)
            &&& forall|s: nat, j: int| #[trigger] last_param(params, s, j, n) ==> lookup(st2.frames, c, s) == Some(args[j])
        }),
{
    let name = margs[0]->Symbol_0;
    let mac = Value::DefinedMacro { params: margs[1]->List_0, body: margs.skip(2) };
    law_get_after_insert(st, env, name, mac);
    lemma_call_frame(st1, e, margs[1]->List_0, args);
}

/// A child environment reads every symbol as its parent does until it binds
/// that symbol itself; a binding in the child is read back there and leaves
/// the parent's reads unchanged; and a later binding in the parent is seen by
/// the child wherever the child does not bind that symbol.
pub proof fn law_child_environment(st: State, e: nat, k: nat, v: Value, st3: State, k2: nat, v2: Value)
    requires
        frames_wf(st.frames),
        e < st.frames.len(),
        frames_wf(st3.frames),
        st.frames.len() < st3.frames.len(),
        st3.frames[st.frames.len() as int].parent == Some(e),
        !st3.frames[st.frames.len() as int].vars.contains_key(k2),
    ensures
        ({
            let c = st.frames.len();
            let st1 = push_frame(st, e);
            let st2 = bind(st1, c, k, v);
            &&& forall|s: nat| #[trigger] lookup(st1.frames, c as int, s) == lookup(st.frames, e as int, s)
            &&& lookup(st2.frames, c as int, k) == Some(v)
            &&& forall|s: nat| #[trigger] lookup(st2.frames, e as int, s) == lookup(st.frames, e as int, s)
            &&& lookup(bind(st3, e, k2, v2).frames, c as int, k2) == Some(v2)
        }),
{
    let c = st.frames.len();
    let st1 = push_frame(st, e);
    assert(frames_wf(st1.frames)) by {
        assert forall|i: int| 0 <= i < st1.frames.len() implies match #[trigger] st1.frames[i].parent {
            Some(p) => p < i,
            None => true,
        } by {
            if i < c {
                assert(st1.frames[i] == st.frames[i]);
            }
        }
    }
    assert forall|s: nat| #[trigger] lookup(st1.frames, c as int, s) == lookup(st.frames, e as int, s) by {
        law_child_sees_parent(st, e, s, e as int);
    }
    law_get_after_insert(st1, c, k, v);
    assert forall|s: nat| #[trigger] lookup(bind(st1, c, k, v).frames, e as int, s) == lookup(st.frames, e as int, s) by {
        law_insert_keeps_older_frames(st1, c, k, v, e as int, s);
        law_child_sees_parent(st, e, s, e as int);
    }
    let fs = bind(st3, e, k2, v2).frames;
    assert(fs[c as int].parent == Some(e));
    assert(fs[c as int].vars == st3.frames[c as int].vars);
    law_get_after_insert(st3, e, k2, v2);
}

/// How deeply lists nest in `x`; 0 for a value that is not a list.
pub open spec fn height(x: Value) -> nat
    decreases x, 0nat,
{
    match x {
        Value::List(v) => 1 + items_height(v, 0),
        _ => 0,
    }
}

/// The greatest height among `v[i..]`, or 0.
pub open spec fn items_height(v: Seq<Value>, i: int) -> nat
    decreases v, v.len() - i,
{
    if i < 0 || i >= v.len() {
        0
    } else {
        let a = height(v[i]);
        let b = items_height(v, i + 1);
        if a > b {
            a
        } else {
            b
        }
    }
}

/// Whether `x` holds, at no depth, a list `(unquote y)` or `(unquote-splicing y)`.
pub open spec fn plain(names: Seq<Seq<char>>, x: Value) -> bool
    decreases x, 0nat,
{
    match x {
        Value::List(v) => plain_items(names, v, 0),
        _ => true,
    }
}

/// Whether each of `v[i..]` is plain and is itself no unquoted form.
pub open spec fn plain_items(names: Seq<Seq<char>>, v: Seq<Value>, i: int) -> bool
    decreases v, v.len() - i,
{
    if i < 0 || i >= v.len() {
        true
    } else {
        unquoted(names, v[i]) is None && plain(names, v[i]) && plain_items(names, v, i + 1)
    }
}

/// Whether an exchange, if it was a call of host function `n`, answered with
/// the list of its arguments.
pub open spec fn answers_with_list(e: Exchange, n: u64) -> bool {
    match e.call {
        HostCall::Fn(m, a) => m == n ==> e.result == Ok::<Value, Error>(Value::List(a)),
        _ => true,
    }
}

/// Whether every exchange of `xs` that was a call of host function `n`
/// answered with the list of its arguments.
pub open spec fn lists_its_arguments(xs: Seq<Exchange>, n: u64) -> bool {
    forall|k: int| 0 <= k < xs.len() ==> answers_with_list(#[trigger] xs[k], n)
}

/// The forms that build the elements of `v`.
pub open spec fn qq_forms(names: Seq<Seq<char>>, v: Seq<Value>) -> Seq<Value> {
    Seq::new(v.len(), |j: int| qq_s(names, v[j]).1)
}

proof fn lemma_plain_no_splicing(names: Seq<Seq<char>>, v: Seq<Value>, i: int)
    requires
        plain_items(names, v, i),
    ensures
        !any_splicing(names, v, i),
    decreases v.len() - i,
{
    if 0 <= i < v.len() {
        lemma_plain_no_splicing(names, v, i + 1);
    }
}

proof fn lemma_plain_item(names: Seq<Seq<char>>, v: Seq<Value>, i: int, j: int)
    requires
        plain_items(names, v, i),
        0 <= i <= j < v.len(),
    ensures
        plain(names, v[j]),
        unquoted(names, v[j]) is None,
        items_height(v, i) >= height(v[j]),
    decreases j - i,
{
    if i < j {
        lemma_plain_item(names, v, i + 1, j);
    }
}

proof fn lemma_qq_plain(names: Seq<Seq<char>>, vi: nat, qi: nat, x: Value)
    requires
        index_of_name(names, "vec"@) == Some(vi),
        index_of_name(names, "quote"@) == Some(qi),
        plain(names, x),
    ensures
        qq_s(names, x).0 == names,
        x is List ==> qq_s(names, x).1 == Value::List(seq![Value::Symbol(vi)] + qq_forms(names, x->List_0)),
        !(x is List) ==> qq_s(names, x).1 == Value::List(seq![Value::Symbol(qi), x]),
    decreases x, 0nat,
{
    match x {
        Value::List(v) => {
            lemma_plain_no_splicing(names, v, 0);
            lemma_qq_plain_items(names, vi, qi, v, 0, seq![Value::Symbol(vi)]);
            assert(qq_forms(names, v).skip(0) =~= qq_forms(names, v));
        },
        _ => {},
    }
}

proof fn lemma_qq_plain_items(names: Seq<Seq<char>>, vi: nat, qi: nat, v: Seq<Value>, i: int, acc: Seq<Value>)
    requires
        index_of_name(names, "vec"@) == Some(vi),
        index_of_name(names, "quote"@) == Some(qi),
        plain_items(names, v, i),
        0 <= i <= v.len(),
    ensures
        qq_items(names, names, v, i, false, vi, acc) == (names, acc + qq_forms(names, v).skip(i)),
    decreases v, v.len() - i,
{
    if i < v.len() {
        lemma_qq_plain(names, vi, qi, v[i]);
        let y = qq_s(names, v[i]).1;
        lemma_qq_plain_items(names, vi, qi, v, i + 1, acc.push(y));
        assert(acc.push(y) + qq_forms(names, v).skip(i + 1) =~= acc + qq_forms(names, v).skip(i));
    } else {
        assert(acc + qq_forms(names, v).skip(i) =~= acc);
    }
}

proof fn lemma_qq_eval(st: State, env: nat, vi: nat, qi: nat, n: u64, x: Value, d: nat, xs: Seq<Exchange>)
    requires
        index_of_name(st.names, "vec"@) == Some(vi),
        index_of_name(st.names, "quote"@) == Some(qi),
        lookup(st.frames, env as int, vi) == Some(Value::HostFn(n)),
        lookup(st.frames, env as int, qi) == Some(Value::Special(SpecialOperator::Quote)),
        plain(st.names, x),
        d >= height(x) + 2,
        lists_its_arguments(xs, n),
    ensures
        ({
            let o = eval_s(st, env, qq_s(st.names, x).1, d, xs);
            o.faithful ==> o.result == Ok::<Value, Error>(x) && o.state == st && lists_its_arguments(o.rest, n)
        }),
    decreases x, 0nat,
{
    lemma_qq_plain(st.names, vi, qi, x);
    match x {
        Value::List(v) => {
            let form = seq![Value::Symbol(vi)] + qq_forms(st.names, v);
            assert(eval_s(st, env, Value::Symbol(vi), (d - 1) as nat, xs) == done(st, xs, Value::HostFn(n)));
            assert(v.take(0) =~= Seq::<Value>::empty());
            lemma_qq_eval_args(st, env, vi, qi, n, v, 0, (d - 1) as nat, xs);
            assert(eval_s(st, env, Value::List(form), d, xs) == after(
                true,
                eval_args(st, env, form, 1, Value::HostFn(n), (d - 1) as nat, xs, Seq::empty()),
            ));
        },
        _ => {
            law_quote(st, env, qi, x, d, xs);
        },
    }
}

proof fn lemma_qq_eval_args(st: State, env: nat, vi: nat, qi: nat, n: u64, v: Seq<Value>, j: int, d: nat, xs: Seq<Exchange>)
    requires
        index_of_name(st.names, "vec"@) == Some(vi),
        index_of_name(st.names, "quote"@) == Some(qi),
        lookup(st.frames, env as int, vi) == Some(Value::HostFn(n)),
        lookup(st.frames, env as int, qi) == Some(Value::Special(SpecialOperator::Quote)),
        plain_items(st.names, v, j),
        0 <= j <= v.len(),
        d >= items_height(v, j) + 2,
        lists_its_arguments(xs, n),
    ensures
        ({
            let form = seq![Value::Symbol(vi)] + qq_forms(st.names, v);
            let o = eval_args(st, env, form, j + 1, Value::HostFn(n), d, xs, v.take(j));
            o.faithful ==> o.result == Ok::<Value, Error>(Value::List(v)) && o.state == st && lists_its_arguments(o.rest, n)
        }),
    decreases v, v.len() - j,
{
    let form = seq![Value::Symbol(vi)] + qq_forms(st.names, v);
    if j < v.len() {
        lemma_plain_item(st.names, v, j, j);
        assert(form[j + 1] == qq_s(st.names, v[j]).1);
        lemma_qq_eval(st, env, vi, qi, n, v[j], d, xs);
        let o = eval_s(st, env, form[j + 1], d, xs);
        assert(form.len() == v.len() + 1);
        if o.faithful && o.result is Ok {
            assert(o.result == Ok::<Value, Error>(v[j]));
            assert(v.take(j).push(v[j]) =~= v.take(j + 1));
            assert(items_height(v, j) >= items_height(v, j + 1));
            lemma_qq_eval_args(st, env, vi, qi, n, v, j + 1, d, o.rest);
            assert(o.state == st);
            assert(eval_args(st, env, form, j + 1, Value::HostFn(n), d, xs, v.take(j))
                == after(o.faithful, eval_args(o.state, env, form, j + 2, Value::HostFn(n), d, o.rest, v.take(j + 1))));
        }
    } else {
        assert(v.take(j) =~= v);
        assert(form.len() == v.len() + 1);
        let fin = eval_args(st, env, form, j + 1, Value::HostFn(n), d, xs, v.take(j));
        assert(fin == stacked(apply_s(st, Value::HostFn(n), v, d, xs), form[0]));
        if xs.len() > 0 {
            assert(answers_with_list(xs[0], n));
            assert forall|k: int| 0 <= k < xs.drop_first().len() implies answers_with_list(#[trigger] xs.drop_first()[k], n) by {
                assert(xs.drop_first()[k] == xs[k + 1]);
            }
        }
    }
}

/// Quasiquoting a value that holds no unquoted form changes nothing, and
/// evaluating the quasiquotation, where `vec` names a host function that
/// answers with the list of its arguments and `quote` the quote operator,
/// gives the value back and changes nothing, whenever the calls recorded are
/// the calls made. Evaluation needs two levels of nesting more than the
/// value's lists nest.
pub proof fn law_quasiquote_round_trip(
    st: State,
    env: nat,
    vi: nat,
    qi: nat,
    n: u64,
    x: Value,
    d: nat,
    xs: Seq<Exchange>,
    ys: Seq<Exchange>,
)
    requires
        index_of_name(st.names, "vec"@) == Some(vi),
        index_of_name(st.names, "quote"@) == Some(qi),
        lookup(st.frames, env as int, vi) == Some(Value::HostFn(n)),
        lookup(st.frames, env as int, qi) == Some(Value::Special(SpecialOperator::Quote)),
        plain(st.names, x),
        d >= height(x) + 2,
        lists_its_arguments(xs, n),
    ensures
        quasiquote_s(st, seq![x], ys) == done(st, ys, qq_s(st.names, x).1),
        ({
            let o = eval_s(st, env, qq_s(st.names, x).1, d, xs);
            o.faithful ==> o.result == Ok::<Value, Error>(x) && o.state == st
        }),
{
    lemma_qq_plain(st.names, vi, qi, x);
    lemma_qq_eval(st, env, vi, qi, n, x, d, xs);
}

/// Expansion leaves a value that is not a list as it is.
pub proof fn law_expand_non_list(st: State, env: nat, v: Value, d: nat, xs: Seq<Exchange>)
    requires
        d > 0,
        !(v is List),
    ensures
        mexpand_s(st, env, v, d, xs) == done(st, xs, v),
{
}

// ---------------------------------------------------------------------------
// Reading.
// ---------------------------------------------------------------------------

proof fn lemma_atom_end_all(s: Seq<char>, q: int)
    requires
        0 <= q <= s.len(),
        forall|i: int| q <= i < s.len() ==> is_atom_char(#[trigger] s[i]),
    ensures
        atom_end(s, q) == s.len(),
    decreases s.len() - q,
{
    if q < s.len() {
        lemma_atom_end_all(s, q + 1);
    }
}

/// A text that is one atom, whose first character starts no read macro,
/// reads as the symbol of that name.
pub proof fn law_read_atom(t: Seq<(char, ReadMacro)>, s: Seq<char>, pkg: Seq<Seq<char>>)
    requires
        s.len() > 0,
        table_get(t, s[0]) is None,
        forall|i: int| 0 <= i < s.len() ==> is_atom_char(#[trigger] s[i]),
    ensures
        read_whole(t, s, pkg) == ({
            let (n, id) = spec_intern(pkg, s);
            (Ok::<Value, Error>(Value::Symbol(id)), n)
        }),
{
    assert(is_atom_char(s[0]));
    assert(skip_ws(s, 0) == 0);
    lemma_atom_end_all(s, 0);
    assert(s.subrange(0, s.len() as int) =~= s);
    assert(skip_ws(s, s.len() as int) == s.len());
}

proof fn lemma_read_plain_string(s: Seq<char>, p: int, acc: Seq<char>, end: int)
    requires
        0 <= p <= end < s.len(),
        s[end] == '"',
        forall|i: int| p <= i < end ==> #[trigger] s[i] != '"' && s[i] != '\\',
    ensures
        read_string_from(s, p, acc) == (Ok::<Value, Error>(Value::Str(acc + s.subrange(p, end))), end + 1),
    decreases end - p,
{
    if p < end {
        lemma_read_plain_string(s, p + 1, acc.push(s[p]), end);
        assert(acc.push(s[p]) + s.subrange(p + 1, end) =~= acc + s.subrange(p, end));
    } else {
        assert(acc + s.subrange(p, end) =~= acc);
    }
}

/// Where `"` starts strings, a string literal without quotes or backslashes
/// inside reads as its contents, and interns nothing.
pub proof fn law_read_plain_string(t: Seq<(char, ReadMacro)>, c: Seq<char>, pkg: Seq<Seq<char>>)
    requires
        table_get(t, '"') == Some(ReadMacro::Str),
        forall|i: int| 0 <= i < c.len() ==> #[trigger] c[i] != '"' && c[i] != '\\',
    ensures
        read_whole(t, seq!['"'] + c + seq!['"'], pkg) == (Ok::<Value, Error>(Value::Str(c)), pkg),
{
    let s = seq!['"'] + c + seq!['"'];
    assert(s[0] == '"');
    assert(!spec_is_whitespace('"'));
    assert(skip_ws(s, 0) == 0);
    assert forall|i: int| 1 <= i < c.len() + 1 implies #[trigger] s[i] != '"' && s[i] != '\\' by {
        assert(s[i] == c[i - 1]);
    }
    lemma_read_plain_string(s, 1, Seq::empty(), (c.len() + 1) as int);
    assert(Seq::<char>::empty() + s.subrange(1, (c.len() + 1) as int) =~= c);
    assert(skip_ws(s, s.len() as int) == s.len());
}

/// A text that reads whole as one form reads at top level as that form alone,
/// with the same package afterwards.
pub proof fn law_top_level_of_one_form(t: Seq<(char, ReadMacro)>, s: Seq<char>, pkg: Seq<Seq<char>>)
    requires
        read_whole(t, s, pkg).0 is Ok,
    ensures
        read_all(t, s, 0, pkg, Seq::empty()) == (
            Ok::<Seq<Value>, Error>(seq![read_whole(t, s, pkg).0->Ok_0]),
            read_whole(t, s, pkg).1,
        ),
{
    let (r, q, pkg2) = read_value(t, s, 0, pkg);
    assert(s.len() > 0);
    lemma_read_value_pos(t, s, 0, pkg);
    lemma_skip_ws(s, q);
    assert(skip_ws(s, q) == s.len());
    let one = Seq::<Value>::empty().push(r->Ok_0);
    assert(one =~= seq![r->Ok_0]);
    assert(read_all(t, s, s.len() as int, pkg2, one) == (Ok::<Seq<Value>, Error>(one), pkg2));
    assert(read_all(t, s, 0, pkg, Seq::empty()) == read_all(t, s, s.len() as int, pkg2, one));
}

// ---------------------------------------------------------------------------
// Whitespace.
// ---------------------------------------------------------------------------

/// The characters that have the Unicode `White_Space` property, as the
/// documentation of `char::is_whitespace` lists them: tab, line feed,
/// vertical tab, form feed, carriage return, space, next line, no-break space,
/// ogham space mark, the spaces from en quad to hair space, line and paragraph
/// separators, narrow no-break space, medium mathematical space and
/// ideographic space.
pub open spec fn unicode_white_space(c: char) -> bool {
    ||| c == '\t'
    ||| c == '\n'
    ||| c == '\u{0B}'
    ||| c == '\u{0C}'
    ||| c == '\r'
    ||| c == ' '
    ||| c == '\u{85}'
    ||| c == '\u{A0}'
    ||| c == '\u{1680}'
    ||| ('\u{2000}' as u32 <= c as u32 && c as u32 <= '\u{200A}' as u32)
    ||| c == '\u{2028}'
    ||| c == '\u{2029}'
    ||| c == '\u{202F}'
    ||| c == '\u{205F}'
    ||| c == '\u{3000}'
}

/// A character counts as whitespace exactly when it has the Unicode
/// `White_Space` property.
pub proof fn law_white_space_is_whitespace(c: char)
    ensures
        spec_is_whitespace(c) <==> unicode_white_space(c),
{
}

proof fn lemma_atom_end_at(s: Seq<char>, q: int, e: int)
    requires
        0 <= q <= e <= s.len(),
        forall|i: int| q <= i < e ==> is_atom_char(#[trigger] s[i]),
        e < s.len() ==> !is_atom_char(s[e]),
    ensures
        atom_end(s, q) == e,
    decreases e - q,
{
    if q < e {
        lemma_atom_end_at(s, q + 1, e);
    }
}

/// Any whitespace character separates two atoms in a list: `(x w y)`, with
/// `w` whitespace and `x` and `y` atoms whose first characters start no read
/// macro, reads as the list of the two symbols, interned in turn.
pub proof fn law_whitespace_separates_atoms(
    t: Seq<(char, ReadMacro)>,
    x: Seq<char>,
    w: char,
    y: Seq<char>,
    pkg: Seq<Seq<char>>,
)
    requires
        unicode_white_space(w),
        x.len() > 0,
        y.len() > 0,
        forall|i: int| 0 <= i < x.len() ==> is_atom_char(#[trigger] x[i]),
        forall|i: int| 0 <= i < y.len() ==> is_atom_char(#[trigger] y[i]),
        table_get(t, '(') == Some(ReadMacro::List),
        table_get(t, ')') is None,
        table_get(t, x[0]) is None,
        table_get(t, y[0]) is None,
    ensures
        ({
            let s = seq!['('] + x + seq![w] + y + seq![')'];
            let (pkg1, ix) = spec_intern(pkg, x);
            let (pkg2, iy) = spec_intern(pkg1, y);
            read_whole(t, s, pkg) == (
                Ok::<Value, Error>(Value::List(seq![Value::Symbol(ix), Value::Symbol(iy)])),
                pkg2,
            )
        }),
{
    let s = seq!['('] + x + seq![w] + y + seq![')'];
    let e1: int = 1 + x.len() as int;
    let e2: int = e1 + 1 + y.len();
    let (pkg1, ix) = spec_intern(pkg, x);
    let (pkg2, iy) = spec_intern(pkg1, y);
    assert(s.len() == e2 + 1);
    assert(s[0] == '(');
    assert(s[e1] == w);
    assert(s[e2] == ')');
    assert forall|i: int| 1 <= i < e1 implies is_atom_char(#[trigger] s[i]) by {
        assert(s[i] == x[i - 1]);
    }
    assert forall|i: int| e1 + 1 <= i < e2 implies is_atom_char(#[trigger] s[i]) by {
        assert(s[i] == y[i - e1 - 1]);
    }
    assert(spec_is_whitespace(w));
    assert(!is_atom_char(w));
    assert(!is_atom_char(')'));
    assert(!spec_is_whitespace('('));
    assert(!spec_is_whitespace(')'));
    assert(s[1] == x[0]);
    assert(s[e1 + 1] == y[0]);
    lemma_atom_end_at(s, 1, e1);
    lemma_atom_end_at(s, e1 + 1, e2);
    assert(s.subrange(1, e1) =~= x);
    assert(s.subrange(e1 + 1, e2) =~= y);
    // Where whitespace skipping stops.
    assert(skip_ws(s, 0) == 0);
    assert(skip_ws(s, 1) == 1);
    assert(skip_ws(s, e1 + 1) == e1 + 1);
    assert(skip_ws(s, e1) == e1 + 1);
    assert(skip_ws(s, e2) == e2);
    assert(skip_ws(s, e2 + 1) == e2 + 1);
    // The elements.
    assert(read_value(t, s, 1, pkg) == (Ok::<Value, Error>(Value::Symbol(ix)), e1, pkg1));
    assert(read_value(t, s, e1, pkg1) == (Ok::<Value, Error>(Value::Symbol(iy)), e2, pkg2));
    assert(read_value(t, s, e2, pkg2).0 is Err);
    assert(read_value(t, s, e2, pkg2).1 == e2);
    assert(read_value(t, s, e2, pkg2).2 == pkg2);
    let acc1 = Seq::<Value>::empty().push(Value::Symbol(ix));
    let acc2 = acc1.push(Value::Symbol(iy));
    assert(read_items(t, s, e2, pkg2, acc2) == (acc2, e2, pkg2));
    assert(read_items(t, s, e1, pkg1, acc1) == (acc2, e2, pkg2));
    assert(read_items(t, s, 1, pkg, Seq::empty()) == (acc2, e2, pkg2));
    assert(acc2 =~= seq![Value::Symbol(ix), Value::Symbol(iy)]);
    assert(read_list_from(t, s, 1, pkg) == (
        Ok::<Value, Error>(Value::List(acc2)),
        e2 + 1,
        pkg2,
    ));
    assert(read_value(t, s, 0, pkg) == read_list_from(t, s, 1, pkg));
}

proof fn lemma_word_end_at(s: Seq<char>, q: int, e: int)
    requires
        0 <= q <= e < s.len(),
        forall|i: int| q <= i < e ==> is_word_char(#[trigger] s[i]),
        !is_word_char(s[e]),
    ensures
        word_end(s, q) == e,
    decreases e - q,
{
    if q < e {
        lemma_word_end_at(s, q + 1, e);
    }
}

/// In the simple parser too, any whitespace character separates two words in
/// a list: `(x w y)`, with `w` whitespace and `x` and `y` words, reads as the
/// list of the two words. That std counts neither `w` nor `)` a letter or
/// digit is assumed, since which characters it counts is not stated here.
pub proof fn law_parser_whitespace_separates_words(x: Seq<char>, w: char, y: Seq<char>)
    requires
        unicode_white_space(w),
        !is_word_char(w),
        !is_word_char(')'),
        x.len() > 0,
        y.len() > 0,
        forall|i: int| 0 <= i < x.len() ==> is_word_char(#[trigger] x[i]),
        forall|i: int| 0 <= i < y.len() ==> is_word_char(#[trigger] y[i]),
        x[0] != '(' && x[0] != '\'' && !unicode_white_space(x[0]),
        y[0] != '(' && y[0] != '\'' && !unicode_white_space(y[0]),
    ensures
        ({
            let s = seq!['('] + x + seq![w] + y + seq![')'];
            parse_form(s, 0) == Ok::<(Value, int), Seq<char>>(
                (Value::List(seq![Value::Str(x), Value::Str(y)]), s.len() as int),
            )
        }),
{
    let s = seq!['('] + x + seq![w] + y + seq![')'];
    let e1: int = 1 + x.len() as int;
    let e2: int = e1 + 1 + y.len();
    assert(s.len() == e2 + 1);
    assert(s[0] == '(');
    assert(s[e1] == w);
    assert(s[e2] == ')');
    assert(s[1] == x[0]);
    assert(s[e1 + 1] == y[0]);
    assert forall|i: int| 1 <= i < e1 implies is_word_char(#[trigger] s[i]) by {
        assert(s[i] == x[i - 1]);
    }
    assert forall|i: int| e1 + 1 <= i < e2 implies is_word_char(#[trigger] s[i]) by {
        assert(s[i] == y[i - e1 - 1]);
    }
    assert(spec_is_whitespace(w));
    assert(!spec_is_whitespace('('));
    assert(!spec_is_whitespace(')'));
    law_white_space_is_whitespace(x[0]);
    law_white_space_is_whitespace(y[0]);
    lemma_word_end_at(s, 2, e1);
    lemma_word_end_at(s, e1 + 2, e2);
    assert(s.subrange(1, e1) =~= x);
    assert(s.subrange(e1 + 1, e2) =~= y);
    assert(skip_blank(s, 0) == 0);
    assert(skip_blank(s, 1) == 1);
    assert(skip_blank(s, e1 + 1) == e1 + 1);
    assert(skip_blank(s, e1) == e1 + 1);
    assert(skip_blank(s, e2) == e2);
    assert(parse_form(s, 1) == Ok::<(Value, int), Seq<char>>((Value::Str(x), e1)));
    assert(parse_form(s, e1) == Ok::<(Value, int), Seq<char>>((Value::Str(y), e2)));
    assert(parse_form(s, e2) is Err);
    let acc1 = Seq::<Value>::empty().push(Value::Str(x));
    let acc2 = acc1.push(Value::Str(y));
    assert(parse_list_rest(s, e2, acc2) == Ok::<(Value, int), Seq<char>>((Value::List(acc2), e2 + 1)));
    assert(parse_list_rest(s, e1, acc1) == parse_list_rest(s, e2, acc2));
    assert(parse_list_rest(s, 1, Seq::empty()) == parse_list_rest(s, e1, acc1));
    assert(acc2 =~= seq![Value::Str(x), Value::Str(y)]);
}

// ---------------------------------------------------------------------------
// Evaluation never removes a frame.
// ---------------------------------------------------------------------------

proof fn lemma_eval_grows(st: State, env: nat, form: Value, d: nat, xs: Seq<Exchange>)
    requires
        env < st.frames.len(),
    ensures
        st.frames.len() <= eval_s(st, env, form, d, xs).state.frames.len(),
    decreases d, 0nat, 0nat,
{
    if d > 0 {
        match form {
            Value::List(v) => if v.len() > 0 {
                lemma_eval_grows(st, env, v[0], (d - 1) as nat, xs);
                let o1 = eval_s(st, env, v[0], (d - 1) as nat, xs);
                match o1.result {
                    Ok(first) => match first {
                        Value::HostFn(_) => lemma_args_grows(o1.state, env, v, 1, first, (d - 1) as nat, o1.rest, Seq::empty()),
                        Value::Closure { .. } => lemma_args_grows(o1.state, env, v, 1, first, (d - 1) as nat, o1.rest, Seq::empty()),
                        Value::Special(op) => lemma_special_grows(o1.state, env, op, v, (d - 1) as nat, o1.rest),
                        _ => {},
                    },
                    Err(_) => {},
                }
            },
            _ => {},
        }
    }
}

proof fn lemma_iter_grows(st: State, env: nat, forms: Seq<Value>, i: int, d: nat, xs: Seq<Exchange>, last: Value)
    requires
        env < st.frames.len(),
    ensures
        st.frames.len() <= eval_iter_s(st, env, forms, i, d, xs, last).state.frames.len(),
    decreases d, 1nat, forms.len() - i,
{
    if 0 <= i < forms.len() {
        lemma_eval_grows(st, env, forms[i], d, xs);
        let o = eval_s(st, env, forms[i], d, xs);
        if let Ok(v) = o.result {
            lemma_iter_grows(o.state, env, forms, i + 1, d, o.rest, v);
        }
    }
}

proof fn lemma_args_grows(st: State, env: nat, form: Seq<Value>, i: int, first: Value, d: nat, xs: Seq<Exchange>, args: Seq<Value>)
    requires
        env < st.frames.len(),
    ensures
        st.frames.len() <= eval_args(st, env, form, i, first, d, xs, args).state.frames.len(),
    decreases d, 3nat, form.len() - i,
{
    if i < 1 || i >= form.len() {
        lemma_apply_grows(st, first, args, d, xs);
    } else {
        lemma_eval_grows(st, env, form[i], d, xs);
        let o = eval_s(st, env, form[i], d, xs);
        if let Ok(a) = o.result {
            lemma_args_grows(o.state, env, form, i + 1, first, d, o.rest, args.push(a));
        }
    }
}

proof fn lemma_apply_grows(st: State, f: Value, args: Seq<Value>, d: nat, xs: Seq<Exchange>)
    ensures
        st.frames.len() <= apply_s(st, f, args, d, xs).state.frames.len(),
    decreases d, 2nat, 0nat,
{
    match f {
        Value::Closure { env, params, body } => if env < st.frames.len() {
            let (st2, ok) = call_frame(st, env, params, args);
            if ok {
                lemma_iter_grows(st2, st.frames.len(), body, 0, d, xs, Value::List(Seq::empty()));
            }
        },
        _ => {},
    }
}

proof fn lemma_let_grows(st: State, env: nat, bs: Seq<Value>, i: int, d: nat, xs: Seq<Exchange>)
    requires
        env < st.frames.len(),
    ensures
        st.frames.len() <= let_bindings_s(st, env, bs, i, d, xs).state.frames.len(),
    decreases d, 2nat, bs.len() - i,
{
    if 0 <= i < bs.len() {
        match bs[i] {
            Value::List(b) => if b.len() >= 2 && b[0] is Symbol {
                lemma_eval_grows(st, env, b[1], d, xs);
                let o = eval_s(st, env, b[1], d, xs);
                if let Ok(v) = o.result {
                    lemma_let_grows(bind(o.state, env, b[0]->Symbol_0, v), env, bs, i + 1, d, o.rest);
                }
            },
            _ => {},
        }
    }
}

proof fn lemma_special_grows(st: State, env: nat, op: SpecialOperator, form: Seq<Value>, d: nat, xs: Seq<Exchange>)
    requires
        env < st.frames.len(),
    ensures
        st.frames.len() <= special_s(st, env, op, form, d, xs).state.frames.len(),
    decreases d, 3nat, 0nat,
{
    match op {
        SpecialOperator::If => if form.len() == 4 {
            lemma_eval_grows(st, env, form[1], d, xs);
            let o = eval_s(st, env, form[1], d, xs);
            if let Ok(c) = o.result {
                lemma_eval_grows(o.state, env, if c == Value::False { form[3] } else { form[2] }, d, o.rest);
            }
        },
        SpecialOperator::Let => if form.len() >= 2 && form[1] is List && env < st.frames.len() {
            let st1 = push_frame(st, env);
            let child = st.frames.len();
            lemma_let_grows(st1, child, form[1]->List_0, 0, d, xs);
            let o = let_bindings_s(st1, child, form[1]->List_0, 0, d, xs);
            if o.result is Ok {
                lemma_iter_grows(o.state, child, form, 2, d, o.rest, Value::List(Seq::empty()));
            }
        },
        SpecialOperator::Do => lemma_iter_grows(st, env, form, 1, d, xs, Value::List(Seq::empty())),
        SpecialOperator::Assign => if form.len() == 3 && form[1] is Symbol {
            lemma_eval_grows(st, env, form[2], d, xs);
        },
        _ => {},
    }
}

/// `(set s e)`, with `set` bound to the assignment operator, binds `s` in the
/// environment where it is evaluated: when it succeeds with a value, `s`
/// reads that value there afterwards.
pub proof fn law_set_binds_where_evaluated(st: State, env: nat, op: nat, s: nat, e: Value, d: nat, xs: Seq<Exchange>)
    requires
        env < st.frames.len(),
        lookup(st.frames, env as int, op) == Some(Value::Special(SpecialOperator::Assign)),
    ensures
        ({
            let o = eval_s(st, env, Value::List(seq![Value::Symbol(op), Value::Symbol(s), e]), d, xs);
            o.result is Ok ==> lookup(o.state.frames, env as int, s) == Some(o.result->Ok_0)
        }),
{
    let form = seq![Value::Symbol(op), Value::Symbol(s), e];
    if d >= 2 {
        assert(eval_s(st, env, form[0], (d - 1) as nat, xs) == done(st, xs, Value::Special(SpecialOperator::Assign)));
        lemma_eval_grows(st, env, e, (d - 1) as nat, xs);
        let o = eval_s(st, env, e, (d - 1) as nat, xs);
        let sp = special_s(st, env, SpecialOperator::Assign, form, (d - 1) as nat, xs);
        assert(eval_s(st, env, Value::List(form), d, xs) == after(true, stacked(sp, form[0])));
        if let Ok(v) = o.result {
            let st2 = bind(o.state, env, s, v);
            assert(sp == (crate::semantics::Out { state: st2, ..o }));
            assert(st2.frames[env as int].vars.contains_key(s));
            assert(lookup(st2.frames, env as int, s) == Some(v));
        } else {
            assert(sp == o);
        }
    } else if d == 1 {
        assert(eval_s(st, env, form[0], 0, xs).result is Err);
    }
}

/// `(quote x)` with the quote operator at its head.
pub open spec fn quoted(x: Value) -> Value {
    Value::List(seq![Value::Special(SpecialOperator::Quote), x])
}

/// When argument `i` of a call freezes with a continuation, the call freezes
/// with the same value and a continuation that redoes the call: the function
/// quoted, then the arguments already evaluated, quoted, in the order they
/// were written, then the quoted continuation of the frozen argument, then
/// the argument forms not yet evaluated.
pub proof fn law_freeze_continuation(
    st: State,
    env: nat,
    form: Seq<Value>,
    i: int,
    first: Value,
    d: nat,
    xs: Seq<Exchange>,
    args: Seq<Value>,
    val: Value,
    cont: Value,
)
    requires
        1 <= i < form.len(),
        eval_s(st, env, form[i], d, xs).result == Err::<Value, Error>(Error::Frozen(val, cont)),
    ensures
        ({
            let o = eval_args(st, env, form, i, first, d, xs, args);
            let n = args.len() as int;
            &&& o.result matches Err(Error::Frozen(v, Value::List(k)))
            &&& v == val
            &&& k.len() == n + 2 + (form.len() - i - 1)
            &&& k[0] == quoted(first)
            &&& forall|m: int| 0 <= m < n ==> #[trigger] k[m + 1] == quoted(args[m])
            &&& k[n + 1] == quoted(cont)
            &&& forall|m: int| 0 <= m < form.len() - i - 1 ==> #[trigger] k[n + 2 + m] == form[i + 1 + m]
        }),
{
    let o = eval_args(st, env, form, i, first, d, xs, args);
    let n = args.len() as int;
    let k = crate::semantics::freeze_continuation(first, args, cont, form, i);
    assert(o.result == Err::<Value, Error>(Error::Frozen(val, k)));
    let ks = k->List_0;
    let qa = args.map_values(|a: Value| crate::semantics::spec_quote_val(a));
    assert(ks == seq![crate::semantics::spec_quote_val(first)] + qa + seq![crate::semantics::spec_quote_val(cont)]
        + form.skip(i + 1));
    assert(ks.len() == n + 2 + (form.len() - i - 1));
    assert(ks[0] == quoted(first));
    assert forall|m: int| 0 <= m < n implies #[trigger] ks[m + 1] == quoted(args[m]) by {
        assert(qa[m] == crate::semantics::spec_quote_val(args[m]));
    }
    assert(ks[n + 1] == quoted(cont));
    assert forall|m: int| 0 <= m < form.len() - i - 1 implies #[trigger] ks[n + 2 + m] == form[i + 1 + m] by {
        assert(form.skip(i + 1)[m] == form[i + 1 + m]);
    }
}

// ---------------------------------------------------------------------------
// Splicing in quasiquotation.
// ---------------------------------------------------------------------------

/// `later` keeps every name of `earlier` where it stood.
pub open spec fn extends_names(earlier: Seq<Seq<char>>, later: Seq<Seq<char>>) -> bool {
    &&& earlier.len() <= later.len()
    &&& forall|j: int| 0 <= j < earlier.len() ==> #[trigger] later[j] == earlier[j]
}

proof fn lemma_intern_names(names: Seq<Seq<char>>, name: Seq<char>)
    ensures
        extends_names(names, spec_intern(names, name).0),
        spec_intern(names, name).1 < spec_intern(names, name).0.len(),
        spec_intern(names, name).0[spec_intern(names, name).1 as int] == name,
{
    if names.contains(name) {
        let k = choose|k: int| 0 <= k < names.len() && names[k] == name;
        assert(names[k] == name);
    }
}

proof fn lemma_qq_names_grow(names: Seq<Seq<char>>, x: Value)
    ensures
        extends_names(names, qq_s(names, x).0),
    decreases x, 0nat,
{
    match x {
        Value::List(v) => {
            let (n1, vid) = spec_intern(names, "vec"@);
            lemma_intern_names(names, "vec"@);
            if any_splicing(names, v, 0) {
                let (n2, aid) = spec_intern(n1, "append"@);
                lemma_intern_names(n1, "append"@);
                lemma_qq_items_names_grow(names, n2, v, 0, true, vid, seq![Value::Symbol(aid)]);
            } else {
                lemma_qq_items_names_grow(names, n1, v, 0, false, vid, seq![Value::Symbol(vid)]);
            }
        },
        _ => {
            lemma_intern_names(names, "quote"@);
        },
    }
}

proof fn lemma_qq_items_names_grow(
    names0: Seq<Seq<char>>,
    names: Seq<Seq<char>>,
    v: Seq<Value>,
    i: int,
    app: bool,
    vid: nat,
    acc: Seq<Value>,
)
    ensures
        extends_names(names, qq_items(names0, names, v, i, app, vid, acc).0),
    decreases v, v.len() - i,
{
    if 0 <= i < v.len() {
        match unquoted(names0, v[i]) {
            Some((true, x)) => lemma_qq_items_names_grow(names0, names, v, i + 1, app, vid, acc.push(x)),
            Some((false, x)) => lemma_qq_items_names_grow(
                names0,
                names,
                v,
                i + 1,
                app,
                vid,
                acc.push(if app { Value::List(seq![Value::Symbol(vid), x]) } else { x }),
            ),
            None => {
                let (n1, y) = qq_s(names, v[i]);
                lemma_qq_names_grow(names, v[i]);
                lemma_qq_items_names_grow(
                    names0,
                    n1,
                    v,
                    i + 1,
                    app,
                    vid,
                    acc.push(if app { Value::List(seq![Value::Symbol(vid), y]) } else { y }),
                );
            },
        }
    }
}

/// What element `vj` of a list becomes where the list is built with
/// `append`: a spliced form stands as it is, every other element is wrapped
/// in a call of `vid`.
pub open spec fn appended_item(names0: Seq<Seq<char>>, vid: nat, vj: Value, item: Value) -> bool {
    match unquoted(names0, vj) {
        Some((true, y)) => item == y,
        Some((false, y)) => item == Value::List(seq![Value::Symbol(vid), y]),
        None => item matches Value::List(p) && p.len() == 2 && p[0] == Value::Symbol(vid),
    }
}

proof fn lemma_qq_items_appended(
    names0: Seq<Seq<char>>,
    names: Seq<Seq<char>>,
    v: Seq<Value>,
    i: int,
    vid: nat,
    acc: Seq<Value>,
)
    requires
        0 <= i <= v.len(),
    ensures
        ({
            let items = qq_items(names0, names, v, i, true, vid, acc).1;
            &&& items.len() == acc.len() + v.len() - i
            &&& forall|m: int| 0 <= m < acc.len() ==> #[trigger] items[m] == acc[m]
            &&& forall|j: int| i <= j < v.len() ==> appended_item(names0, vid, v[j], #[trigger] items[acc.len() + j - i])
        }),
    decreases v.len() - i,
{
    if i < v.len() {
        let item = match unquoted(names0, v[i]) {
            Some((true, x)) => x,
            Some((false, x)) => Value::List(seq![Value::Symbol(vid), x]),
            None => Value::List(seq![Value::Symbol(vid), qq_s(names, v[i]).1]),
        };
        let n1 = match unquoted(names0, v[i]) {
            Some(_) => names,
            None => qq_s(names, v[i]).0,
        };
        assert(qq_items(names0, names, v, i, true, vid, acc) == qq_items(names0, n1, v, i + 1, true, vid, acc.push(item)));
        lemma_qq_items_appended(names0, n1, v, i + 1, vid, acc.push(item));
        let items = qq_items(names0, names, v, i, true, vid, acc).1;
        assert(appended_item(names0, vid, v[i], item));
        assert(items[acc.len() as int] == acc.push(item)[acc.len() as int]);
        assert forall|j: int| i <= j < v.len() implies appended_item(names0, vid, v[j], #[trigger] items[acc.len() + j - i]) by {
            if j > i {
                assert(acc.push(item).len() + j - (i + 1) == acc.len() + j - i);
            }
        }
    }
}

/// Whether `item` is a call, of one argument, of a symbol named `vec` in `names`.
pub open spec fn vec_call(names: Seq<Seq<char>>, item: Value) -> bool {
    &&& item is List
    &&& item->List_0.len() == 2
    &&& is_symbol_named(names, item->List_0[0], "vec"@)
}

proof fn lemma_splicing_at(names: Seq<Seq<char>>, v: Seq<Value>, i: int, k: int)
    requires
        0 <= i <= k < v.len(),
        unquoted(names, v[k]) matches Some((true, _)),
    ensures
        any_splicing(names, v, i),
    decreases k - i,
{
    if i < k {
        lemma_splicing_at(names, v, i + 1, k);
    }
}

/// A quasiquoted list that holds `(unquote-splicing x)` at any position, the
/// first included, is built with `append`: the result calls a symbol named
/// `append`, with `x` itself at that position, each other spliced form as it
/// stands, and every other element wrapped in a call of a symbol named `vec`.
pub proof fn law_quasiquote_splices_anywhere(names: Seq<Seq<char>>, v: Seq<Value>, k: int, x: Value)
    requires
        0 <= k < v.len(),
        unquoted(names, v[k]) == Some((true, x)),
    ensures
        ({
            let (n, r) = qq_s(names, Value::List(v));
            &&& r matches Value::List(rs)
            &&& rs.len() == v.len() + 1
            &&& is_symbol_named(n, rs[0], "append"@)
            &&& rs[k + 1] == x
            &&& forall|j: int| 0 <= j < v.len() ==> (#[trigger] unquoted(names, v[j]) matches Some((true, y)) ==> rs[j + 1] == y)
            &&& forall|j: int| 0 <= j < v.len() ==> (#[trigger] unquoted(names, v[j]) matches Some((false, y)) ==>
                vec_call(n, rs[j + 1]) && rs[j + 1]->List_0[1] == y)
            &&& forall|j: int| 0 <= j < v.len() ==> (#[trigger] unquoted(names, v[j]) is None ==> vec_call(n, rs[j + 1]))
        }),
{
    lemma_splicing_at(names, v, 0, k);
    let (n1, vid) = spec_intern(names, "vec"@);
    let (n2, aid) = spec_intern(n1, "append"@);
    lemma_intern_names(names, "vec"@);
    lemma_intern_names(n1, "append"@);
    let acc = seq![Value::Symbol(aid)];
    lemma_qq_items_appended(names, n2, v, 0, vid, acc);
    lemma_qq_items_names_grow(names, n2, v, 0, true, vid, acc);
    let (n, rs) = qq_items(names, n2, v, 0, true, vid, acc);
    assert(qq_s(names, Value::List(v)) == (n, Value::List(rs)));
    assert(n2[vid as int] == "vec"@);
    assert(n[vid as int] == "vec"@);
    assert(n[aid as int] == "append"@);
    assert(rs[0] == Value::Symbol(aid));
    assert(appended_item(names, vid, v[k], rs[1 + k - 0]));
    assert forall|j: int| 0 <= j < v.len() implies appended_item(names, vid, v[j], rs[j + 1]) by {
        assert(appended_item(names, vid, v[j], rs[acc.len() + j - 0]));
    }
}

// ---------------------------------------------------------------------------
// Control forms on values that evaluate to themselves.
// ---------------------------------------------------------------------------

/// Whether `v` evaluates to itself: neither a symbol nor a list.
pub open spec fn self_evaluating(v: Value) -> bool {
    !(v is Symbol) && !(v is List)
}

/// `(if c a b)` gives `b` when `c` is false and `a` for any other condition,
/// for branches that evaluate to themselves, and changes nothing.
pub proof fn law_if_picks_branch(st: State, env: nat, op: nat, c: Value, a: Value, b: Value, d: nat, xs: Seq<Exchange>)
    requires
        d >= 2,
        lookup(st.frames, env as int, op) == Some(Value::Special(SpecialOperator::If)),
        self_evaluating(c),
        self_evaluating(a),
        self_evaluating(b),
    ensures
        eval_s(st, env, Value::List(seq![Value::Symbol(op), c, a, b]), d, xs)
            == done(st, xs, if c == Value::False { b } else { a }),
{
    let form = seq![Value::Symbol(op), c, a, b];
    assert(eval_s(st, env, form[0], (d - 1) as nat, xs) == done(st, xs, Value::Special(SpecialOperator::If)));
    assert(eval_s(st, env, c, (d - 1) as nat, xs) == done(st, xs, c));
    let chosen = if c == Value::False { b } else { a };
    assert(eval_s(st, env, chosen, (d - 1) as nat, xs) == done(st, xs, chosen));
    assert(special_s(st, env, SpecialOperator::If, form, (d - 1) as nat, xs) == done(st, xs, chosen));
}

/// `(do a b)` gives `b`, the value of its last form, and `(do)` gives the
/// empty list, for forms that evaluate to themselves; nothing changes.
pub proof fn law_do_gives_last(st: State, env: nat, op: nat, a: Value, b: Value, d: nat, xs: Seq<Exchange>)
    requires
        d >= 2,
        lookup(st.frames, env as int, op) == Some(Value::Special(SpecialOperator::Do)),
        self_evaluating(a),
        self_evaluating(b),
    ensures
        eval_s(st, env, Value::List(seq![Value::Symbol(op), a, b]), d, xs) == done(st, xs, b),
        eval_s(st, env, Value::List(seq![Value::Symbol(op)]), d, xs) == done(st, xs, Value::List(Seq::empty())),
{
    let form = seq![Value::Symbol(op), a, b];
    let dd = (d - 1) as nat;
    assert(eval_s(st, env, form[0], dd, xs) == done(st, xs, Value::Special(SpecialOperator::Do)));
    assert(eval_s(st, env, a, dd, xs) == done(st, xs, a));
    assert(eval_s(st, env, b, dd, xs) == done(st, xs, b));
    assert(form[1] == a && form[2] == b);
    assert(eval_iter_s(st, env, form, 3, dd, xs, b) == done(st, xs, b));
    assert(eval_iter_s(st, env, form, 2, dd, xs, a) == done(st, xs, b));
    assert(eval_iter_s(st, env, form, 1, dd, xs, Value::List(Seq::empty())) == done(st, xs, b));
    assert(special_s(st, env, SpecialOperator::Do, form, dd, xs) == done(st, xs, b));
    assert(eval_s(st, env, Value::List(form), d, xs) == after(true, stacked(done(st, xs, b), form[0])));
    let form0 = seq![Value::Symbol(op)];
    assert(eval_s(st, env, form0[0], dd, xs) == done(st, xs, Value::Special(SpecialOperator::Do)));
    assert(eval_iter_s(st, env, form0, 1, dd, xs, Value::List(Seq::empty())) == done(st, xs, Value::List(Seq::empty())));
    assert(eval_s(st, env, Value::List(form0), d, xs) == after(
        true,
        stacked(special_s(st, env, SpecialOperator::Do, form0, dd, xs), form0[0]),
    ));
}

/// `(let ((x v)) x)` gives `v`, for `v` that evaluates to itself: the
/// binding is made in a new frame that extends the environment, which is all
/// that changes.
pub proof fn law_let_binds_in_new_frame(st: State, env: nat, op: nat, x: nat, v: Value, d: nat, xs: Seq<Exchange>)
    requires
        d >= 2,
        env < st.frames.len(),
        lookup(st.frames, env as int, op) == Some(Value::Special(SpecialOperator::Let)),
        self_evaluating(v),
    ensures
        ({
            let form = Value::List(seq![
                Value::Symbol(op),
                Value::List(seq![Value::List(seq![Value::Symbol(x), v])]),
                Value::Symbol(x),
            ]);
            let o = eval_s(st, env, form, d, xs);
            &&& o.result == Ok::<Value, Error>(v)
            &&& o.rest == xs
            &&& o.state.names == st.names
            &&& o.state.frames == st.frames.push(Frame { vars: Map::empty().insert(x, v), parent: Some(env) })
        }),
{
    let binding = Value::List(seq![Value::Symbol(x), v]);
    let bs = seq![binding];
    let form = seq![Value::Symbol(op), Value::List(bs), Value::Symbol(x)];
    let dd = (d - 1) as nat;
    let st1 = push_frame(st, env);
    let child = st.frames.len();
    let st2 = bind(st1, child, x, v);
    assert(eval_s(st, env, form[0], dd, xs) == done(st, xs, Value::Special(SpecialOperator::Let)));
    assert(eval_s(st1, child, v, dd, xs) == done(st1, xs, v));
    assert(bs[0] == binding);
    assert(binding->List_0.len() >= 2 && binding->List_0[0] is Symbol);
    assert(let_bindings_s(st2, child, bs, 1, dd, xs) == done(st2, xs, Value::True));
    assert(let_bindings_s(st1, child, bs, 0, dd, xs) == done(st2, xs, Value::True));
    assert(st2.frames[child as int].vars.contains_key(x));
    assert(eval_s(st2, child, Value::Symbol(x), dd, xs) == done(st2, xs, v));
    assert(eval_iter_s(st2, child, form, 3, dd, xs, v) == done(st2, xs, v));
    assert(eval_iter_s(st2, child, form, 2, dd, xs, Value::List(Seq::empty())) == done(st2, xs, v));
    assert(st2.frames =~= st.frames.push(Frame { vars: Map::empty().insert(x, v), parent: Some(env) }));
    assert(form[1] is List && form[1]->List_0 == bs);
    assert(special_s(st, env, SpecialOperator::Let, form, dd, xs) == done(st2, xs, v));
    assert(eval_s(st, env, Value::List(form), d, xs) == after(true, stacked(done(st2, xs, v), form[0])));
}

/// In a string, `\n`, `\r` and `\t` stand for a line feed, a carriage
/// return and a tab, and a backslash before any other character stands for
/// that character: where `"` starts strings, the literal of one escape reads
/// as the string of that one character, and interns nothing.
pub proof fn law_string_escapes(t: Seq<(char, ReadMacro)>, e: char, pkg: Seq<Seq<char>>)
    requires
        table_get(t, '"') == Some(ReadMacro::Str),
    ensures
        read_whole(t, seq!['"', '\\', e, '"'], pkg) == (
            Ok::<Value, Error>(Value::Str(seq![
                if e == 'n' {
                    '\n'
                } else if e == 'r' {
                    '\r'
                } else if e == 't' {
                    '\t'
                } else {
                    e
                },
            ])),
            pkg,
        ),
{
    let s = seq!['"', '\\', e, '"'];
    assert(!spec_is_whitespace('"'));
    assert(skip_ws(s, 0) == 0);
    let c = if e == 'n' { '\n' } else if e == 'r' { '\r' } else if e == 't' { '\t' } else { e };
    assert(read_string_from(s, 3, seq![c]) == (Ok::<Value, Error>(Value::Str(seq![c])), 4int));
    assert(Seq::<char>::empty().push(c) == seq![c]);
    assert(read_string_from(s, 1, Seq::empty()) == (Ok::<Value, Error>(Value::Str(seq![c])), 4int));
    assert(skip_ws(s, 4) == 4);
}

} // verus!
