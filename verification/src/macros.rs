use vstd::prelude::*;
use crate::data::{Env, Val, Value, Macro, seq_view, duplicate_vec};
use crate::env::{Interp, Host, log_since, out, lemma_no_log};
use crate::error::{GlutenError, result_view, str_error};
use crate::semantics::{Exchange, defmacro_s, eval_iter_s};

verus! {

broadcast use crate::data::lemma_seq_view, Interp::lemma_state_frames;

/// `(defmacro name (param ...) body ...)`, applied to its arguments: binds
/// `name` in `env` to a macro whose expansion evaluates the body with the
/// parameters bound to the unevaluated arguments.
pub fn defmacro(interp: &mut Interp, env: Env, vec: Vec<Val>) -> (r: Result<Val, GlutenError>)
    requires
        old(interp).wf(),
        env.0 < old(interp).frames().len(),
    ensures
        final(interp).wf(),
        final(interp).extends(old(interp)),
        final(interp).history() == old(interp).history(),
        forall|k: Seq<Exchange>| #[trigger] defmacro_s(old(interp).state(), env.0 as nat, seq_view(vec@), log_since(old(interp).history(), final(interp).history()) + k)
            == out(result_view(r), final(interp).state(), k),
{
    let ghost h0 = interp.history();
    proof {
        lemma_no_log(h0);
    }
    let ghost vv = seq_view(vec@);
    if vec.len() == 0 {
        return Err(str_error("macro name must be a symbol"));
    }
    assert(vv[0] == vec@[0]@);
    let name = match &vec[0] {
        Val::Symbol(s) => *s,
        _ => {
            return Err(str_error("macro name must be a symbol"));
        },
    };
    if vec.len() < 2 {
        return Err(str_error("illegal macro params"));
    }
    assert(vv[1] == vec@[1]@);
    let params = match &vec[1] {
        Val::Vec(p) => duplicate_vec(p),
        _ => {
            return Err(str_error("illegal macro params"));
        },
    };
    let mut body: Vec<Val> = Vec::new();
    let mut i: usize = 2;
    let n = vec.len();
    while i < n
        invariant
            n == vec@.len(),
            2 <= i <= n,
            vv == seq_view(vec@),
            seq_view(body@) =~= vv.subrange(2, i as int),
        decreases n - i,
    {
        let ghost before = body@;
        body.push(vec[i].duplicate());
        proof {
            assert(seq_view(body@) =~= seq_view(before).push(vv[i as int]));
        }
        i += 1;
    }
    assert(vv.subrange(2, n as int) =~= vv.skip(2));
    let mac = Val::Macro(Macro::Defined { params, body });
    let copy = mac.duplicate();
    interp.bind_var(env.0, name, copy);
    Ok(mac)
}

/// Evaluates `forms` in turn in `env`; the value is the last one's, or the empty
/// list when there are none.
pub fn eval_iter<H: Host>(interp: &mut Interp, host: &mut H, env: Env, forms: &Vec<Val>, depth: u64) -> (r: Result<Val, GlutenError>)
    requires
        old(interp).wf(),
        env.0 < old(interp).frames().len(),
    ensures
        final(interp).wf(),
        final(interp).extends(old(interp)),
        forall|k: Seq<Exchange>| #[trigger] eval_iter_s(old(interp).state(), env.0 as nat, seq_view(forms@), 0, depth as nat, log_since(old(interp).history(), final(interp).history()) + k, Value::List(Seq::empty()))
            == out(result_view(r), final(interp).state(), k),
{
    proof {
        assert(seq_view(Seq::<Val>::empty()) =~= Seq::<Value>::empty());
    }
    interp.eval_iter_in(host, env.0, forms, 0, depth, Val::Vec(Vec::new()))
}

} // verus!
