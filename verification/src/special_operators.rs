use vstd::prelude::*;
use crate::data::{Env, Symbol, Val, Value, SpecialOperator, seq_view, duplicate_vec, NativeFn};
use crate::env::{Interp, Host, log_since, out, lemma_no_log, lemma_log_concat, lemma_assoc};
use crate::error::{GlutenError, Error, result_view, str_error};
use crate::package::spec_intern;
use crate::semantics::{Exchange, State, eval_s, eval_iter_s, let_bindings_s, special_s, push_frame, bind};

verus! {

broadcast use crate::data::lemma_seq_view, Interp::lemma_state_frames;

/// `(quote x)`: `x`, unevaluated.
pub fn quote(vec: &Vec<Val>) -> (r: Result<Val, GlutenError>)
    ensures
        result_view(r) == (if vec@.len() == 2 {
            Ok(vec@[1]@)
        } else {
            Err(Error::Str("invalid arguments"@))
        }),
{
    if vec.len() == 2 {
        Ok(vec[1].duplicate())
    } else {
        Err(str_error("invalid arguments"))
    }
}

/// `(if c a b)`: evaluates `c`, then `b` if it is false and `a` otherwise.
pub fn if_<H: Host>(interp: &mut Interp, host: &mut H, env: Env, vec: &Vec<Val>, depth: u64) -> (r: Result<Val, GlutenError>)
    requires
        old(interp).wf(),
        env.0 < old(interp).frames().len(),
    ensures
        final(interp).wf(),
        final(interp).extends(old(interp)),
        forall|k: Seq<Exchange>| #[trigger] special_s(old(interp).state(), env.0 as nat, SpecialOperator::If, seq_view(vec@), depth as nat, log_since(old(interp).history(), final(interp).history()) + k)
            == out(result_view(r), final(interp).state(), k),
    decreases depth, 3nat, 0nat,
{
    let ghost s0 = interp.state();
    let ghost h0 = interp.history();
    let ghost fv = seq_view(vec@);
    proof {
        lemma_no_log(h0);
    }
    if vec.len() != 4 {
        return Err(str_error("invalid arguments"));
    }
    let ghost c_form = vec@[1]@;
    match interp.eval_in(host, env.0, &vec[1], depth) {
        Ok(cond) => {
            let ghost s1 = interp.state();
            let ghost h1 = interp.history();
            let ghost cv = cond@;
            let body = match cond {
                Val::False => &vec[3],
                _ => &vec[2],
            };
            assert(cv == Value::False <==> cond is False);
            let ghost bf = body@;
            let r = interp.eval_in(host, env.0, body, depth);
            proof {
                let h2 = interp.history();
                lemma_log_concat(h0, h1, h2);
                assert forall|k: Seq<Exchange>| #[trigger] special_s(s0, env.0 as nat, SpecialOperator::If, fv, depth as nat, log_since(h0, h2) + k)
                    == out(result_view(r), interp.state(), k) by {
                    let l1 = log_since(h0, h1);
                    let l2 = log_since(h1, h2);
                    lemma_assoc(l1, l2, k);
                    assert(eval_s(s0, env.0 as nat, c_form, depth as nat, l1 + (l2 + k)) == out(Ok(cv), s1, l2 + k));
                    assert(eval_s(s1, env.0 as nat, bf, depth as nat, l2 + k) == out(result_view(r), interp.state(), k));
                }
            }
            r
        },
        Err(e) => {
            let r = Err(e);
            proof {
                let h1 = interp.history();
                assert forall|k: Seq<Exchange>| #[trigger] special_s(s0, env.0 as nat, SpecialOperator::If, fv, depth as nat, log_since(h0, h1) + k)
                    == out(result_view(r), interp.state(), k) by {
                    assert(eval_s(s0, env.0 as nat, c_form, depth as nat, log_since(h0, h1) + k) == out(result_view(r), interp.state(), k));
                }
            }
            r
        },
    }
}

/// `(let ((x e) ...) body ...)`: binds each `x` to the value of `e` in a new
/// frame, in turn, then evaluates the body there.
pub fn let_<H: Host>(interp: &mut Interp, host: &mut H, env: Env, vec: &Vec<Val>, depth: u64) -> (r: Result<Val, GlutenError>)
    requires
        old(interp).wf(),
        env.0 < old(interp).frames().len(),
    ensures
        final(interp).wf(),
        final(interp).extends(old(interp)),
        forall|k: Seq<Exchange>| #[trigger] special_s(old(interp).state(), env.0 as nat, SpecialOperator::Let, seq_view(vec@), depth as nat, log_since(old(interp).history(), final(interp).history()) + k)
            == out(result_view(r), final(interp).state(), k),
    decreases depth, 3nat, 0nat,
{
    let ghost s0 = interp.state();
    let ghost h0 = interp.history();
    let ghost fv = seq_view(vec@);
    proof {
        lemma_no_log(h0);
    }
    if vec.len() < 2 {
        return Err(str_error("invalid arguments"));
    }
    match &vec[1] {
        Val::Vec(bs) => {
            let child = interp.add_child(env.0);
            let ghost s1 = interp.state();
            proof {
                assert(s1 == push_frame(s0, env.0 as nat));
            }
            match interp.let_bindings_in(host, child, bs, 0, depth) {
                Ok(tv) => {
                    let ghost tvv = tv@;
                    let ghost s2 = interp.state();
                    let ghost h2 = interp.history();
                    let r = interp.eval_iter_in(host, child, vec, 2, depth, Val::Vec(Vec::new()));
                    proof {
                        let h3 = interp.history();
                        lemma_log_concat(h0, h2, h3);
                        assert(seq_view(Seq::<Val>::empty()) =~= Seq::<Value>::empty());
                        assert forall|k: Seq<Exchange>| #[trigger] special_s(s0, env.0 as nat, SpecialOperator::Let, fv, depth as nat, log_since(h0, h3) + k)
                            == out(result_view(r), interp.state(), k) by {
                            let l1 = log_since(h0, h2);
                            let l2 = log_since(h2, h3);
                            lemma_assoc(l1, l2, k);
                            assert(let_bindings_s(s1, child as nat, seq_view(bs@), 0, depth as nat, l1 + (l2 + k)) == out(Ok(tvv), s2, l2 + k));
                            assert(eval_iter_s(s2, child as nat, fv, 2, depth as nat, l2 + k, Value::List(Seq::empty())) == out(result_view(r), interp.state(), k));
                        }
                    }
                    r
                },
                Err(e) => {
                    let r = Err(e);
                    proof {
                        let h2 = interp.history();
                        assert forall|k: Seq<Exchange>| #[trigger] special_s(s0, env.0 as nat, SpecialOperator::Let, fv, depth as nat, log_since(h0, h2) + k)
                            == out(result_view(r), interp.state(), k) by {
                            assert(let_bindings_s(s1, child as nat, seq_view(bs@), 0, depth as nat, log_since(h0, h2) + k) == out(result_view(r), interp.state(), k));
                        }
                    }
                    r
                },
            }
        },
        _ => Err(str_error("invalid arguments")),
    }
}

/// `(do e ...)`: evaluates each `e` in turn; the value is the last one's.
pub fn do_<H: Host>(interp: &mut Interp, host: &mut H, env: Env, vec: &Vec<Val>, depth: u64) -> (r: Result<Val, GlutenError>)
    requires
        old(interp).wf(),
        env.0 < old(interp).frames().len(),
    ensures
        final(interp).wf(),
        final(interp).extends(old(interp)),
        forall|k: Seq<Exchange>| #[trigger] special_s(old(interp).state(), env.0 as nat, SpecialOperator::Do, seq_view(vec@), depth as nat, log_since(old(interp).history(), final(interp).history()) + k)
            == out(result_view(r), final(interp).state(), k),
    decreases depth, 3nat, 0nat,
{
    let ghost s0 = interp.state();
    let ghost h0 = interp.history();
    proof {
        assert(seq_view(Seq::<Val>::empty()) =~= Seq::<Value>::empty());
    }
    let r = interp.eval_iter_in(host, env.0, vec, 1, depth, Val::Vec(Vec::new()));
    proof {
        let h1 = interp.history();
        assert forall|k: Seq<Exchange>| #[trigger] special_s(s0, env.0 as nat, SpecialOperator::Do, seq_view(vec@), depth as nat, log_since(h0, h1) + k)
            == out(result_view(r), interp.state(), k) by {
            assert(eval_iter_s(s0, env.0 as nat, seq_view(vec@), 1, depth as nat, log_since(h0, h1) + k, Value::List(Seq::empty()))
                == out(result_view(r), interp.state(), k));
        }
    }
    r
}

/// `(lambda (x ...) body ...)`: a function closing over `env`.
pub fn lambda(env: Env, vec: &Vec<Val>) -> (r: Result<Val, GlutenError>)
    ensures
        result_view(r) == (if vec@.len() >= 2 && vec@[1]@ is List {
            Ok(Value::Closure { env: env.0 as nat, params: vec@[1]@->List_0, body: seq_view(vec@).skip(2) })
        } else {
            Err(Error::Str("illegal lambda params"@))
        }),
{
    if vec.len() < 2 {
        return Err(str_error("illegal lambda params"));
    }
    match &vec[1] {
        Val::Vec(params) => {
            let params = duplicate_vec(params);
            let mut body: Vec<Val> = Vec::new();
            let mut i: usize = 2;
            while i < vec.len()
                invariant
                    2 <= i <= vec@.len(),
                    seq_view(body@) =~= seq_view(vec@).subrange(2, i as int),
                decreases vec@.len() - i,
            {
                let ghost before = body@;
                body.push(vec[i].duplicate());
                proof {
                    assert(seq_view(body@) =~= seq_view(before).push(seq_view(vec@)[i as int]));
                }
                i += 1;
            }
            assert(seq_view(vec@).subrange(2, vec@.len() as int) =~= seq_view(vec@).skip(2));
            Ok(Val::Fn(NativeFn::Closure { env, params, body }))
        },
        _ => Err(str_error("illegal lambda params")),
    }
}

/// `(set x e)`: binds `x` to the value of `e` in `env`; the value is that value.
pub fn set<H: Host>(interp: &mut Interp, host: &mut H, env: Env, vec: &Vec<Val>, depth: u64) -> (r: Result<Val, GlutenError>)
    requires
        old(interp).wf(),
        env.0 < old(interp).frames().len(),
    ensures
        final(interp).wf(),
        final(interp).extends(old(interp)),
        forall|k: Seq<Exchange>| #[trigger] special_s(old(interp).state(), env.0 as nat, SpecialOperator::Assign, seq_view(vec@), depth as nat, log_since(old(interp).history(), final(interp).history()) + k)
            == out(result_view(r), final(interp).state(), k),
    decreases depth, 3nat, 0nat,
{
    let ghost s0 = interp.state();
    let ghost h0 = interp.history();
    let ghost fv = seq_view(vec@);
    proof {
        lemma_no_log(h0);
    }
    if vec.len() != 3 {
        return Err(str_error("illegal set"));
    }
    match &vec[1] {
        Val::Symbol(s) => {
            let ghost e_form = vec@[2]@;
            match interp.eval_in(host, env.0, &vec[2], depth) {
                Ok(val) => {
                    let ghost s1 = interp.state();
                    let ghost vv = val@;
                    let copy = val.duplicate();
                    interp.bind_var(env.0, *s, copy);
                    let r = Ok(val);
                    proof {
                        let h1 = interp.history();
                        assert forall|k: Seq<Exchange>| #[trigger] special_s(s0, env.0 as nat, SpecialOperator::Assign, fv, depth as nat, log_since(h0, h1) + k)
                            == out(result_view(r), interp.state(), k) by {
                            assert(eval_s(s0, env.0 as nat, e_form, depth as nat, log_since(h0, h1) + k) == out(Ok(vv), s1, k));
                        }
                    }
                    r
                },
                Err(e) => {
                    let r = Err(e);
                    proof {
                        let h1 = interp.history();
                        assert forall|k: Seq<Exchange>| #[trigger] special_s(s0, env.0 as nat, SpecialOperator::Assign, fv, depth as nat, log_since(h0, h1) + k)
                            == out(result_view(r), interp.state(), k) by {
                            assert(eval_s(s0, env.0 as nat, e_form, depth as nat, log_since(h0, h1) + k) == out(result_view(r), interp.state(), k));
                        }
                    }
                    r
                },
            }
        },
        _ => Err(str_error("illegal set")),
    }
}

} // verus!

verus! {

/// The state after interning `name` and binding it to `op` in frame `env`.
pub open spec fn define_special_s(st: State, env: nat, name: Seq<char>, op: SpecialOperator) -> State {
    let (names, id) = spec_intern(st.names, name);
    bind(State { names, frames: st.frames }, env, id, Value::Special(op))
}

/// The state after binding the six special operators in frame `env`.
pub open spec fn insert_all_s(st: State, env: nat) -> State {
    let s1 = define_special_s(st, env, "quote"@, SpecialOperator::Quote);
    let s2 = define_special_s(s1, env, "if"@, SpecialOperator::If);
    let s3 = define_special_s(s2, env, "let"@, SpecialOperator::Let);
    let s4 = define_special_s(s3, env, "do"@, SpecialOperator::Do);
    let s5 = define_special_s(s4, env, "lambda"@, SpecialOperator::Lambda);
    define_special_s(s5, env, "set"@, SpecialOperator::Assign)
}

fn define_special(interp: &mut Interp, env: Env, name: &str, op: SpecialOperator)
    requires
        old(interp).wf(),
        env.0 < old(interp).frames().len(),
    ensures
        final(interp).wf(),
        final(interp).frames().len() == old(interp).frames().len(),
        final(interp).history() == old(interp).history(),
        final(interp).depth_limit() == old(interp).depth_limit(),
        final(interp).state() == define_special_s(old(interp).state(), env.0 as nat, name@, op),
{
    let sym = interp.intern(&String::from_str(name));
    match sym {
        Val::Symbol(s) => {
            env.insert(interp, s, Val::SpecialOp(op));
        },
        _ => {},
    }
}

/// Binds `quote`, `if`, `let`, `do`, `lambda` and `set` in `env` to the special operators.
pub fn insert_all(interp: &mut Interp, env: Env)
    requires
        old(interp).wf(),
        env.0 < old(interp).frames().len(),
    ensures
        final(interp).wf(),
        final(interp).frames().len() == old(interp).frames().len(),
        final(interp).history() == old(interp).history(),
        final(interp).depth_limit() == old(interp).depth_limit(),
        final(interp).state() == insert_all_s(old(interp).state(), env.0 as nat),
{
    define_special(interp, env, "quote", SpecialOperator::Quote);
    define_special(interp, env, "if", SpecialOperator::If);
    define_special(interp, env, "let", SpecialOperator::Let);
    define_special(interp, env, "do", SpecialOperator::Do);
    define_special(interp, env, "lambda", SpecialOperator::Lambda);
    define_special(interp, env, "set", SpecialOperator::Assign);
}

} // verus!
