use vstd::prelude::*;
use std::collections::HashMap;
use crate::data::{Env, Symbol, Val, Value, NativeFn, Macro, SpecialOperator, seq_view, duplicate_vec};
use crate::error::{GlutenError, Error, result_view, str_error};
use crate::package::Package;
use crate::reader::{Reader, ReadMacro};
use crate::semantics::{
    Frame, State, Exchange, HostCall, Out, frames_wf, lookup, bind, eval_s, eval_args, apply_s, eval_iter_s,
    let_bindings_s, special_s, stack_error, stacked, head_name, freeze_continuation, spec_quote_val,
    call_frame, bind_params, host_step, push_frame, mexpand_s, mexpand_items, call_macro_s, macro_at,
    quasiquote_s, defmacro_s, qq_s, is_macro,
};
use crate::quasiquote::qq;
use crate::macros::defmacro;
use crate::special_operators::{quote, if_, let_, do_, lambda};

verus! {

broadcast use vstd::std_specs::hash::group_hash_axioms, crate::data::lemma_seq_view;

/// Functions and macros that the embedding program supplies, known by number.
/// The library calls them and records each call and what came back.
pub trait Host {
    /// Applies function `id` to evaluated arguments.
    fn call_fn(&mut self, id: u64, args: Vec<Val>) -> Result<Val, GlutenError>;

    /// Applies macro `id` to unevaluated arguments; it may intern symbols.
    fn call_macro(&mut self, id: u64, package: &mut Package, args: Vec<Val>) -> Result<Val, GlutenError>;
}

/// The bindings of a frame as a map from symbol numbers to values.
pub open spec fn vars_view(m: Map<usize, Val>) -> Map<nat, Value> {
    Map::new(|k: nat| k <= usize::MAX && m.contains_key(k as usize), |k: nat| m[k as usize]@)
}

/// A frame without bindings extending `parent`, if any.
pub open spec fn new_frame(parent: Option<usize>) -> Frame {
    Frame {
        vars: Map::empty(),
        parent: match parent {
            Some(p) => Some(p as nat),
            None => None,
        },
    }
}

/// A step that succeeded or failed with `r`, leaving `st` and the exchanges `k`.
pub open spec fn out(r: Result<Value, Error>, st: State, k: Seq<Exchange>) -> Out {
    Out { result: r, state: st, rest: k, faithful: true }
}

pub proof fn lemma_no_log(h: Seq<Exchange>)
    ensures
        is_prefix(h, h),
        forall|k: Seq<Exchange>| #[trigger] (log_since(h, h) + k) == k,
{
    assert(h.take(h.len() as int) =~= h);
    assert forall|k: Seq<Exchange>| #[trigger] (log_since(h, h) + k) == k by {
        assert(log_since(h, h) + k =~= k);
    }
}

pub proof fn lemma_assoc(a: Seq<Exchange>, b: Seq<Exchange>, k: Seq<Exchange>)
    ensures
        (a + b) + k == a + (b + k),
{
    assert((a + b) + k =~= a + (b + k));
}

/// An environment frame.
struct Scope {
    vars: HashMap<usize, Val>,
    parent: Option<usize>,
}

spec fn scope_view(s: Scope) -> Frame {
    Frame {
        vars: vars_view(s.vars@),
        parent: match s.parent {
            Some(p) => Some(p as nat),
            None => None,
        },
    }
}

/// The log of a run: what was added to `b`'s log after `a`'s.
pub open spec fn log_since(a: Seq<Exchange>, b: Seq<Exchange>) -> Seq<Exchange> {
    b.skip(a.len() as int)
}

/// `a` is a prefix of `b`.
pub open spec fn is_prefix(a: Seq<Exchange>, b: Seq<Exchange>) -> bool {
    a.len() <= b.len() && b.take(a.len() as int) == a
}

pub proof fn lemma_log_concat(a: Seq<Exchange>, b: Seq<Exchange>, c: Seq<Exchange>)
    requires
        is_prefix(a, b),
        is_prefix(b, c),
    ensures
        is_prefix(a, c),
        log_since(a, c) == log_since(a, b) + log_since(b, c),
{
    assert(c.take(a.len() as int) =~= b.take(a.len() as int));
    assert(log_since(a, c) =~= log_since(a, b) + log_since(b, c));
}

/// The interpreter: its reader, its environment frames, and the log of every
/// call made to the embedding program.
pub struct Interp {
    reader: Reader,
    frames: Vec<Scope>,
    max_depth: u64,
    history: Ghost<Seq<Exchange>>,
}

impl Interp {
    /// The frames.
    pub closed spec fn frames(&self) -> Seq<Frame> {
        self.frames@.map_values(|s: Scope| scope_view(s))
    }

    /// The state that expansion and evaluation read and change.
    pub closed spec fn state(&self) -> State {
        State { names: self.reader.package@, frames: self.frames() }
    }

    /// The state's frames are the frames.
    pub broadcast proof fn lemma_state_frames(i: &Interp)
        ensures
            #[trigger] i.state().frames == i.frames(),
    {
    }

    /// The reader's table of read macros.
    pub closed spec fn read_table(&self) -> Seq<(char, ReadMacro)> {
        self.reader.read_table@
    }

    /// Every call made to the embedding program, in order, with what came back.
    pub closed spec fn history(&self) -> Seq<Exchange> {
        self.history@
    }

    /// How deeply expansion and evaluation may nest.
    pub closed spec fn depth_limit(&self) -> u64 {
        self.max_depth
    }

    /// Each frame extends only frames made before it.
    pub closed spec fn wf(&self) -> bool {
        frames_wf(self.frames())
    }

    /// `self` ran on from `old`: its log and frames extend `old`'s.
    pub open spec fn extends(&self, old: &Interp) -> bool {
        &&& is_prefix(old.history(), self.history())
        &&& old.frames().len() <= self.frames().len()
        &&& old.depth_limit() == self.depth_limit()
        &&& old.read_table() == self.read_table()
    }

    /// An interpreter with no frames, reading with `reader`. Its nesting
    /// limit is the largest `u64`, so that only the machine's stack bounds
    /// how deeply evaluation nests; `set_max_depth` lowers it.
    pub fn new(reader: Reader) -> (r: Interp)
        ensures
            r.wf(),
            r.state().names == reader.package@,
            r.read_table() == reader.read_table@,
            r.frames() == Seq::<Frame>::empty(),
            r.history() == Seq::<Exchange>::empty(),
            r.depth_limit() == u64::MAX,
    {
        let r = Interp { reader, frames: Vec::new(), max_depth: u64::MAX, history: Ghost(Seq::empty()) };
        assert(r.frames() =~= Seq::<Frame>::empty());
        r
    }

    /// Sets how deeply expansion and evaluation may nest.
    pub fn set_max_depth(&mut self, depth: u64)
        ensures
            final(self).depth_limit() == depth,
            final(self).state() == old(self).state(),
            final(self).history() == old(self).history(),
            final(self).read_table() == old(self).read_table(),
            final(self).wf() == old(self).wf(),
    {
        self.max_depth = depth;
    }

    /// How deeply expansion and evaluation may nest.
    pub fn max_depth(&self) -> (r: u64)
        ensures
            r == self.depth_limit(),
    {
        self.max_depth
    }

    /// The number of frames.
    pub fn frame_count(&self) -> (r: usize)
        ensures
            r == self.frames().len(),
    {
        self.frames.len()
    }

    /// Adds a frame extending `parent`, or a root frame; it is the last frame.
    pub(crate) fn add_frame(&mut self, parent: Option<usize>) -> (r: usize)
        requires
            old(self).wf(),
            (parent matches Some(p) ==> p < old(self).frames().len()),
        ensures
            final(self).wf(),
            r == old(self).frames().len(),
            final(self).state().names == old(self).state().names,
            final(self).frames() == old(self).frames().push(new_frame(parent)),
            final(self).history() == old(self).history(),
            final(self).read_table() == old(self).read_table(),
            final(self).depth_limit() == old(self).depth_limit(),
    {
        let r = self.frames.len();
        let vars: HashMap<usize, Val> = HashMap::new();
        let scope = Scope { vars, parent };
        proof {
            assert(vars_view(scope.vars@) =~= Map::<nat, Value>::empty());
        }
        self.frames.push(scope);
        proof {
            assert(self.frames() =~= old(self).frames().push(scope_view(scope)));
        }
        r
    }

    /// Adds a frame extending `env`; it is the last frame.
    pub(crate) fn add_child(&mut self, env: usize) -> (r: usize)
        requires
            old(self).wf(),
            env < old(self).frames().len(),
        ensures
            final(self).wf(),
            r == old(self).frames().len(),
            final(self).frames().len() == old(self).frames().len() + 1,
            final(self).state() == push_frame(old(self).state(), env as nat),
            final(self).history() == old(self).history(),
            final(self).read_table() == old(self).read_table(),
            final(self).depth_limit() == old(self).depth_limit(),
    {
        let r = self.add_frame(Some(env));
        proof {
            assert(self.frames() =~= push_frame(old(self).state(), env as nat).frames);
        }
        r
    }

    /// Binds `sym` to `val` in frame `env`.
    pub(crate) fn bind_var(&mut self, env: usize, sym: Symbol, val: Val)
        requires
            old(self).wf(),
            env < old(self).frames().len(),
        ensures
            final(self).wf(),
            final(self).state() == bind(old(self).state(), env as nat, sym.0 as nat, val@),
            final(self).frames().len() == old(self).frames().len(),
            final(self).history() == old(self).history(),
            final(self).read_table() == old(self).read_table(),
            final(self).depth_limit() == old(self).depth_limit(),
    {
        let ghost v = val@;
        let mut scope = Scope { vars: HashMap::new(), parent: None };
        std::mem::swap(&mut scope, &mut self.frames[env]);
        let ghost before = scope;
        scope.vars.insert(sym.0, val);
        proof {
            assert(vars_view(scope.vars@) =~= vars_view(before.vars@).insert(sym.0 as nat, v));
        }
        self.frames.set(env, scope);
        proof {
            assert(self.frames() =~= bind(old(self).state(), env as nat, sym.0 as nat, v).frames);
        }
    }

    /// The value bound to `sym` as seen from frame `env`.
    pub(crate) fn lookup_var(&self, env: usize, sym: Symbol) -> (r: Option<Val>)
        requires
            self.wf(),
            env < self.frames().len(),
        ensures
            match r {
                Some(v) => lookup(self.frames(), env as int, sym.0 as nat) == Some(v@),
                None => lookup(self.frames(), env as int, sym.0 as nat) is None,
            },
    {
        let mut e = env;
        loop
            invariant
                self.wf(),
                e < self.frames().len(),
                lookup(self.frames(), e as int, sym.0 as nat) == lookup(self.frames(), env as int, sym.0 as nat),
            decreases e,
        {
            let ghost fr = self.frames()[e as int];
            assert(fr == scope_view(self.frames@[e as int]));
            match self.frames[e].vars.get(&sym.0) {
                Some(v) => {
                    assert(fr.vars.contains_key(sym.0 as nat));
                    return Some(v.duplicate());
                },
                None => {
                    assert(!fr.vars.contains_key(sym.0 as nat));
                    match self.frames[e].parent {
                        Some(p) => {
                            assert(self.frames()[e as int].parent == Some(p as nat));
                            e = p;
                        },
                        None => {
                            return None;
                        },
                    }
                },
            }
        }
    }
}


impl Interp {
    /// Applies the stacking of errors under `head` to `r`.
    pub(crate) fn stack(&self, r: Result<Val, GlutenError>, head: &Val) -> (out: Result<Val, GlutenError>)
        ensures
            result_view(out) == (match result_view(r) {
                Ok(v) => Ok(v),
                Err(e) => Err(stack_error(self.state().names, head@, e)),
            }),
    {
        match r {
            Ok(v) => Ok(v),
            Err(GlutenError::Frozen(v, k)) => Err(GlutenError::Frozen(v, k)),
            Err(e) => {
                let name = match head {
                    Val::Symbol(s) => if s.0 < self.reader.package.len() {
                        self.reader.package.name(*s).clone()
                    } else {
                        String::from_str("#UNKNOWN")
                    },
                    _ => String::from_str("#UNKNOWN"),
                };
                Err(GlutenError::Stacked(name, Box::new(e)))
            },
        }
    }

    /// Evaluates `form` in frame `env` with `d` levels of nesting allowed.
    pub(crate) fn eval_in<H: Host>(&mut self, host: &mut H, env: usize, form: &Val, d: u64) -> (r: Result<Val, GlutenError>)
        requires
            old(self).wf(),
            env < old(self).frames().len(),
        ensures
            final(self).wf(),
            final(self).extends(old(self)),
            forall|k: Seq<Exchange>| #[trigger] eval_s(old(self).state(), env as nat, form@, d as nat, log_since(old(self).history(), final(self).history()) + k)
                == out(result_view(r), final(self).state(), k),
        decreases d, 0nat, 0nat,
    {
        let ghost s0 = self.state();
        let ghost h0 = self.history();
        proof {
            lemma_no_log(h0);
        }
        if d == 0 {
            return Err(GlutenError::DepthExceeded);
        }
        match form {
            Val::Symbol(s) => match self.lookup_var(env, *s) {
                Some(v) => Ok(v),
                None => Err(GlutenError::Unbound(*s)),
            },
            Val::Vec(v) => {
                if v.len() == 0 {
                    return Err(str_error("empty form"));
                }
                let ghost vv = seq_view(v@);
                proof {
                    assert(vv[0] == v@[0]@);
                }
                let first = match self.eval_in(host, env, &v[0], d - 1) {
                    Ok(f) => f,
                    Err(e) => {
                        let r = Err(e);
                        proof {
                            let h1 = self.history();
                            assert forall|k: Seq<Exchange>| #[trigger] eval_s(s0, env as nat, form@, d as nat, log_since(h0, h1) + k)
                                == out(result_view(r), self.state(), k) by {
                                assert(eval_s(s0, env as nat, vv[0], (d - 1) as nat, log_since(h0, h1) + k) == out(result_view(r), self.state(), k));
                            }
                        }
                        return r;
                    },
                };
                let ghost s1 = self.state();
                let ghost h1 = self.history();
                match &first {
                    Val::Fn(_) => {
                        let r = self.eval_args_in(host, env, v, 1, &first, d - 1, Vec::new());
                        proof {
                            let h2 = self.history();
                            lemma_log_concat(h0, h1, h2);
                            assert(seq_view(Seq::<Val>::empty()) =~= Seq::<Value>::empty());
                            assert forall|k: Seq<Exchange>| #[trigger] eval_s(s0, env as nat, form@, d as nat, log_since(h0, h2) + k)
                                == out(result_view(r), self.state(), k) by {
                                let l1 = log_since(h0, h1);
                                let l2 = log_since(h1, h2);
                                lemma_assoc(l1, l2, k);
                                assert(eval_s(s0, env as nat, vv[0], (d - 1) as nat, l1 + (l2 + k)) == out(Ok(first@), s1, l2 + k));
                                assert(eval_args(s1, env as nat, vv, 1, first@, (d - 1) as nat, l2 + k, Seq::empty()) == out(result_view(r), self.state(), k));
                            }
                        }
                        r
                    },
                    Val::SpecialOp(op) => {
                        let r0 = self.special_in(host, env, *op, v, d - 1);
                        let r = self.stack(r0, &v[0]);
                        proof {
                            let h2 = self.history();
                            lemma_log_concat(h0, h1, h2);
                            assert forall|k: Seq<Exchange>| #[trigger] eval_s(s0, env as nat, form@, d as nat, log_since(h0, h2) + k)
                                == out(result_view(r), self.state(), k) by {
                                let l1 = log_since(h0, h1);
                                let l2 = log_since(h1, h2);
                                lemma_assoc(l1, l2, k);
                                assert(eval_s(s0, env as nat, vv[0], (d - 1) as nat, l1 + (l2 + k)) == out(Ok(first@), s1, l2 + k));
                                assert(special_s(s1, env as nat, *op, vv, (d - 1) as nat, l2 + k) == out(result_view(r0), self.state(), k));
                            }
                        }
                        r
                    },
                    _ => {
                        let r = Err(GlutenError::NotFunction(v[0].duplicate()));
                        proof {
                            let h2 = self.history();
                            assert forall|k: Seq<Exchange>| #[trigger] eval_s(s0, env as nat, form@, d as nat, log_since(h0, h2) + k)
                                == out(result_view(r), self.state(), k) by {
                                assert(eval_s(s0, env as nat, vv[0], (d - 1) as nat, log_since(h0, h1) + k) == out(Ok(first@), s1, k));
                            }
                        }
                        r
                    },
                }
            },
            _ => Ok(form.duplicate()),
        }
    }

    /// Evaluates the arguments `form[i..]` after `args`, then applies `first`.
    pub(crate) fn eval_args_in<H: Host>(
        &mut self,
        host: &mut H,
        env: usize,
        form: &Vec<Val>,
        i: usize,
        first: &Val,
        d: u64,
        args: Vec<Val>,
    ) -> (r: Result<Val, GlutenError>)
        requires
            old(self).wf(),
            env < old(self).frames().len(),
            1 <= i <= form@.len(),
        ensures
            final(self).wf(),
            final(self).extends(old(self)),
            forall|k: Seq<Exchange>| #[trigger] eval_args(old(self).state(), env as nat, seq_view(form@), i as int, first@, d as nat, log_since(old(self).history(), final(self).history()) + k, seq_view(args@))
                == out(result_view(r), final(self).state(), k),
        decreases d, 3nat, form@.len() - i,
    {
        let ghost s0 = self.state();
        let ghost h0 = self.history();
        let ghost fv = seq_view(form@);
        let ghost av = seq_view(args@);
        if i >= form.len() {
            let r0 = self.apply_in(host, first, args, d);
            let r = self.stack(r0, &form[0]);
            proof {
                let h1 = self.history();
                assert(fv[0] == form@[0]@);
                assert forall|k: Seq<Exchange>| #[trigger] eval_args(s0, env as nat, fv, i as int, first@, d as nat, log_since(h0, h1) + k, av)
                    == out(result_view(r), self.state(), k) by {
                    assert(apply_s(s0, first@, av, d as nat, log_since(h0, h1) + k) == out(result_view(r0), self.state(), k));
                }
            }
            return r;
        }
        let ghost fi = form@[i as int]@;
        assert(fv[i as int] == fi);
        match self.eval_in(host, env, &form[i], d) {
            Ok(a) => {
                let ghost s1 = self.state();
                let ghost h1 = self.history();
                let ghost aview = a@;
                let mut args2 = args;
                args2.push(a);
                proof {
                    assert(seq_view(args2@) =~= av.push(aview));
                }
                let r = self.eval_args_in(host, env, form, i + 1, first, d, args2);
                proof {
                    let h2 = self.history();
                    lemma_log_concat(h0, h1, h2);
                    assert forall|k: Seq<Exchange>| #[trigger] eval_args(s0, env as nat, fv, i as int, first@, d as nat, log_since(h0, h2) + k, av)
                        == out(result_view(r), self.state(), k) by {
                        let l1 = log_since(h0, h1);
                        let l2 = log_since(h1, h2);
                        lemma_assoc(l1, l2, k);
                        assert(eval_s(s0, env as nat, fi, d as nat, l1 + (l2 + k)) == out(Ok(aview), s1, l2 + k));
                        assert(eval_args(s1, env as nat, fv, i + 1, first@, d as nat, l2 + k, av.push(aview)) == out(result_view(r), self.state(), k));
                    }
                }
                r
            },
            Err(GlutenError::Frozen(val, cont)) => {
                let ghost valv = val@;
                let ghost contv = cont@;
                let k2 = freeze(first, args, cont, form, i);
                let r = Err(GlutenError::Frozen(val, k2));
                proof {
                    let h1 = self.history();
                    assert forall|k: Seq<Exchange>| #[trigger] eval_args(s0, env as nat, fv, i as int, first@, d as nat, log_since(h0, h1) + k, av)
                        == out(result_view(r), self.state(), k) by {
                        assert(eval_s(s0, env as nat, fi, d as nat, log_since(h0, h1) + k) == out(Err(Error::Frozen(valv, contv)), self.state(), k));
                    }
                }
                r
            },
            Err(e) => {
                let r = Err(e);
                proof {
                    let h1 = self.history();
                    assert forall|k: Seq<Exchange>| #[trigger] eval_args(s0, env as nat, fv, i as int, first@, d as nat, log_since(h0, h1) + k, av)
                        == out(result_view(r), self.state(), k) by {
                        assert(eval_s(s0, env as nat, fi, d as nat, log_since(h0, h1) + k) == out(result_view(r), self.state(), k));
                    }
                }
                r
            },
        }
    }

    /// Applies `f` to evaluated arguments.
    pub(crate) fn apply_in<H: Host>(&mut self, host: &mut H, f: &Val, args: Vec<Val>, d: u64) -> (r: Result<Val, GlutenError>)
        requires
            old(self).wf(),
        ensures
            final(self).wf(),
            final(self).extends(old(self)),
            forall|k: Seq<Exchange>| #[trigger] apply_s(old(self).state(), f@, seq_view(args@), d as nat, log_since(old(self).history(), final(self).history()) + k)
                == out(result_view(r), final(self).state(), k),
        decreases d, 2nat, 0nat,
    {
        let ghost s0 = self.state();
        let ghost h0 = self.history();
        let ghost av = seq_view(args@);
        proof {
            lemma_no_log(h0);
        }
        match f {
            Val::Fn(NativeFn::Host(id)) => {
                let ghost call = HostCall::Fn(*id, av);
                let r = host.call_fn(*id, args);
                proof {
                    let ex = Exchange { call, result: result_view(r), names: self.state().names };
                    self.history@ = self.history@.push(ex);
                    assert(log_since(h0, self.history()) =~= seq![ex]);
                    assert(is_prefix(h0, self.history())) by {
                        assert(self.history().take(h0.len() as int) =~= h0);
                    }
                    assert forall|k: Seq<Exchange>| #[trigger] apply_s(s0, f@, av, d as nat, log_since(h0, self.history()) + k)
                        == out(result_view(r), self.state(), k) by {
                        assert((seq![ex] + k).drop_first() =~= k);
                        assert((seq![ex] + k)[0] == ex);
                    }
                }
                r
            },
            Val::Fn(NativeFn::Closure { env, params, body }) => {
                if env.0 >= self.frames.len() {
                    return Err(str_error("invalid environment"));
                }
                let (child, ok) = self.bind_call_frame(env.0, params, &args);
                let ghost pv = seq_view(params@);
                if !ok {
                    let r = Err(str_error("illegal lambda"));
                    proof {
                        assert(self.state() == call_frame(s0, env.0 as nat, pv, av).0);
                    }
                    return r;
                }
                let ghost s1 = self.state();
                proof {
                    assert(s1 == call_frame(s0, env.0 as nat, pv, av).0);
                    assert(seq_view(Seq::<Val>::empty()) =~= Seq::<Value>::empty());
                }
                let ghost bv = seq_view(body@);
                let r = self.eval_iter_in(host, child, body, 0, d, Val::Vec(Vec::new()));
                proof {
                    let h2 = self.history();
                    assert forall|k: Seq<Exchange>| #[trigger] apply_s(s0, f@, av, d as nat, log_since(h0, h2) + k)
                        == out(result_view(r), self.state(), k) by {
                        assert(eval_iter_s(s1, child as nat, bv, 0, d as nat, log_since(h0, h2) + k, Value::List(Seq::empty()))
                            == out(result_view(r), self.state(), k));
                    }
                }
                r
            },
            _ => Err(GlutenError::NotFunction(f.duplicate())),
        }
    }

    /// Adds a frame extending `env` that binds `params` to `args` in turn; stops
    /// at a parameter that is not a symbol, and then says `false`.
    pub(crate) fn bind_call_frame(&mut self, env: usize, params: &Vec<Val>, args: &Vec<Val>) -> (r: (usize, bool))
        requires
            old(self).wf(),
            env < old(self).frames().len(),
        ensures
            final(self).wf(),
            final(self).extends(old(self)),
            final(self).history() == old(self).history(),
            r.0 == old(self).frames().len(),
            final(self).frames().len() == old(self).frames().len() + 1,
            (final(self).state(), r.1) == call_frame(old(self).state(), env as nat, seq_view(params@), seq_view(args@)),
    {
        let ghost s0 = self.state();
        let ghost h0 = self.history();
        let ghost pv = seq_view(params@);
        let ghost av = seq_view(args@);
        let ghost base = s0.frames;
        let child = self.add_frame(Some(env));
        let mut j: usize = 0;
        let mut ok = true;
        proof {
            assert(self.frames().take(child as int) =~= base);
            lemma_no_log(h0);
        }
        loop
            invariant_except_break
                ok,
            invariant
                self.wf(),
                self.history() == h0,
                self.extends(old(self)),
                child == base.len(),
                env < base.len(),
                base == old(self).frames(),
                s0 == old(self).state(),
                self.state().names == s0.names,
                j <= params@.len(),
                j <= args@.len(),
                pv == seq_view(params@),
                av == seq_view(args@),
                self.frames().len() == base.len() + 1,
                self.frames().take(child as int) == base,
                self.frames()[child as int].parent == Some(env as nat),
                bind_params(Map::empty(), pv, av, 0) == bind_params(self.frames()[child as int].vars, pv, av, j as int),
            ensures
                self.wf(),
                self.history() == h0,
                self.extends(old(self)),
                self.state().names == s0.names,
                self.frames().len() == base.len() + 1,
                self.frames().take(child as int) == base,
                self.frames()[child as int].parent == Some(env as nat),
                bind_params(Map::empty(), pv, av, 0) == (self.frames()[child as int].vars, ok),
            decreases params@.len() - j,
        {
            if j >= params.len() || j >= args.len() {
                break;
            }
            match &params[j] {
                Val::Symbol(s) => {
                    let a = args[j].duplicate();
                    self.bind_var(child, *s, a);
                    proof {
                        assert(self.frames().take(child as int) =~= base);
                    }
                    j += 1;
                },
                _ => {
                    ok = false;
                    break;
                },
            }
        }
        proof {
            assert(self.frames() =~= call_frame(s0, env as nat, pv, av).0.frames);
        }
        (child, ok)
    }

    /// Evaluates `forms[i..]` in turn; the value is that of the last, or `last`.
    pub(crate) fn eval_iter_in<H: Host>(
        &mut self,
        host: &mut H,
        env: usize,
        forms: &Vec<Val>,
        i: usize,
        d: u64,
        last: Val,
    ) -> (r: Result<Val, GlutenError>)
        requires
            old(self).wf(),
            env < old(self).frames().len(),
        ensures
            final(self).wf(),
            final(self).extends(old(self)),
            forall|k: Seq<Exchange>| #[trigger] eval_iter_s(old(self).state(), env as nat, seq_view(forms@), i as int, d as nat, log_since(old(self).history(), final(self).history()) + k, last@)
                == out(result_view(r), final(self).state(), k),
        decreases d, 1nat, forms@.len() - i,
    {
        let ghost s0 = self.state();
        let ghost h0 = self.history();
        let ghost fv = seq_view(forms@);
        proof {
            lemma_no_log(h0);
        }
        if i >= forms.len() {
            return Ok(last);
        }
        let ghost fi = forms@[i as int]@;
        assert(fv[i as int] == fi);
        match self.eval_in(host, env, &forms[i], d) {
            Ok(v) => {
                let ghost s1 = self.state();
                let ghost h1 = self.history();
                let ghost vv = v@;
                let r = self.eval_iter_in(host, env, forms, i + 1, d, v);
                proof {
                    let h2 = self.history();
                    lemma_log_concat(h0, h1, h2);
                    assert forall|k: Seq<Exchange>| #[trigger] eval_iter_s(s0, env as nat, fv, i as int, d as nat, log_since(h0, h2) + k, last@)
                        == out(result_view(r), self.state(), k) by {
                        let l1 = log_since(h0, h1);
                        let l2 = log_since(h1, h2);
                        lemma_assoc(l1, l2, k);
                        assert(eval_s(s0, env as nat, fi, d as nat, l1 + (l2 + k)) == out(Ok(vv), s1, l2 + k));
                        assert(eval_iter_s(s1, env as nat, fv, i + 1, d as nat, l2 + k, vv) == out(result_view(r), self.state(), k));
                    }
                }
                r
            },
            Err(e) => {
                let r = Err(e);
                proof {
                    let h1 = self.history();
                    assert forall|k: Seq<Exchange>| #[trigger] eval_iter_s(s0, env as nat, fv, i as int, d as nat, log_since(h0, h1) + k, last@)
                        == out(result_view(r), self.state(), k) by {
                        assert(eval_s(s0, env as nat, fi, d as nat, log_since(h0, h1) + k) == out(result_view(r), self.state(), k));
                    }
                }
                r
            },
        }
    }

    /// Evaluates and binds the `let` bindings `bs[i..]` in frame `env`.
    pub(crate) fn let_bindings_in<H: Host>(&mut self, host: &mut H, env: usize, bs: &Vec<Val>, i: usize, d: u64) -> (r: Result<Val, GlutenError>)
        requires
            old(self).wf(),
            env < old(self).frames().len(),
        ensures
            final(self).wf(),
            final(self).extends(old(self)),
            forall|k: Seq<Exchange>| #[trigger] let_bindings_s(old(self).state(), env as nat, seq_view(bs@), i as int, d as nat, log_since(old(self).history(), final(self).history()) + k)
                == out(result_view(r), final(self).state(), k),
        decreases d, 2nat, bs@.len() - i,
    {
        let ghost s0 = self.state();
        let ghost h0 = self.history();
        let ghost bsv = seq_view(bs@);
        proof {
            lemma_no_log(h0);
        }
        if i >= bs.len() {
            return Ok(Val::True);
        }
        assert(bsv[i as int] == bs@[i as int]@);
        match &bs[i] {
            Val::Vec(b) => {
                if b.len() < 2 {
                    assert(seq_view(b@).len() == b@.len());
                    return Err(str_error("illegal let"));
                }
                let ghost bv = seq_view(b@);
                assert(bv[0] == b@[0]@ && bv[1] == b@[1]@);
                match &b[0] {
                    Val::Symbol(s) => {
                        let ghost b1 = b@[1]@;
                        match self.eval_in(host, env, &b[1], d) {
                            Ok(v) => {
                                let ghost s1 = self.state();
                                let ghost h1 = self.history();
                                let ghost vv = v@;
                                self.bind_var(env, *s, v);
                                let ghost s2 = self.state();
                                let r = self.let_bindings_in(host, env, bs, i + 1, d);
                                proof {
                                    let h3 = self.history();
                                    lemma_log_concat(h0, h1, h3);
                                    assert(s2 == bind(s1, env as nat, s.0 as nat, vv));
                                    assert forall|k: Seq<Exchange>| #[trigger] let_bindings_s(s0, env as nat, bsv, i as int, d as nat, log_since(h0, h3) + k)
                                        == out(result_view(r), self.state(), k) by {
                                        let l1 = log_since(h0, h1);
                                        let l2 = log_since(h1, h3);
                                        lemma_assoc(l1, l2, k);
                                        assert(eval_s(s0, env as nat, b1, d as nat, l1 + (l2 + k)) == out(Ok(vv), s1, l2 + k));
                                        assert(let_bindings_s(s2, env as nat, bsv, i + 1, d as nat, l2 + k) == out(result_view(r), self.state(), k));
                                    }
                                }
                                r
                            },
                            Err(e) => {
                                let r = Err(e);
                                proof {
                                    let h1 = self.history();
                                    assert forall|k: Seq<Exchange>| #[trigger] let_bindings_s(s0, env as nat, bsv, i as int, d as nat, log_since(h0, h1) + k)
                                        == out(result_view(r), self.state(), k) by {
                                        assert(eval_s(s0, env as nat, b1, d as nat, log_since(h0, h1) + k) == out(result_view(r), self.state(), k));
                                    }
                                }
                                r
                            },
                        }
                    },
                    _ => Err(str_error("illegal let")),
                }
            },
            _ => Err(str_error("illegal let")),
        }
    }

    /// Applies the special operator `op` to the whole form `form`.
    pub(crate) fn special_in<H: Host>(&mut self, host: &mut H, env: usize, op: SpecialOperator, form: &Vec<Val>, d: u64) -> (r: Result<Val, GlutenError>)
        requires
            old(self).wf(),
            env < old(self).frames().len(),
        ensures
            final(self).wf(),
            final(self).extends(old(self)),
            forall|k: Seq<Exchange>| #[trigger] special_s(old(self).state(), env as nat, op, seq_view(form@), d as nat, log_since(old(self).history(), final(self).history()) + k)
                == out(result_view(r), final(self).state(), k),
        decreases d, 4nat, 0nat,
    {
        let ghost h0 = self.history();
        proof {
            lemma_no_log(h0);
        }
        match op {
            SpecialOperator::Quote => quote(form),
            SpecialOperator::If => if_(self, host, Env(env), form, d),
            SpecialOperator::Let => let_(self, host, Env(env), form, d),
            SpecialOperator::Do => do_(self, host, Env(env), form, d),
            SpecialOperator::Lambda => lambda(Env(env), form),
            SpecialOperator::Assign => crate::special_operators::set(self, host, Env(env), form, d),
        }
    }
}

impl Interp {
    /// `quasiquote` applied to `args`.
    pub(crate) fn quasiquote_in(&mut self, args: &Vec<Val>) -> (r: Result<Val, GlutenError>)
        requires
            old(self).wf(),
        ensures
            final(self).wf(),
            final(self).history() == old(self).history(),
            final(self).frames() == old(self).frames(),
            final(self).depth_limit() == old(self).depth_limit(),
            final(self).read_table() == old(self).read_table(),
            forall|k: Seq<Exchange>| #[trigger] quasiquote_s(old(self).state(), seq_view(args@), k)
                == out(result_view(r), final(self).state(), k),
    {
        if args.len() == 0 {
            return Err(str_error("invalid arguments"));
        }
        let r = qq(&mut self.reader.package, &args[0]);
        Ok(r)
    }

    /// The macro that `head` names as seen from frame `env`, if any.
    fn macro_named(&self, env: usize, head: &Val) -> (r: Option<Val>)
        requires
            self.wf(),
            env < self.frames().len(),
        ensures
            match r {
                Some(m) => macro_at(self.state(), env as nat, head@) == Some(m@),
                None => macro_at(self.state(), env as nat, head@) is None,
            },
    {
        match head {
            Val::Symbol(s) => match self.lookup_var(env, *s) {
                Some(m) => match m {
                    Val::Macro(_) => Some(m),
                    _ => None,
                },
                None => None,
            },
            _ => None,
        }
    }

    /// Applies the macro `m` to the unevaluated arguments `args` in frame `env`.
    pub(crate) fn call_macro_in<H: Host>(&mut self, host: &mut H, env: usize, m: &Val, args: Vec<Val>, d: u64) -> (r: Result<Val, GlutenError>)
        requires
            old(self).wf(),
            env < old(self).frames().len(),
        ensures
            final(self).wf(),
            final(self).extends(old(self)),
            forall|k: Seq<Exchange>| #[trigger] call_macro_s(old(self).state(), env as nat, m@, seq_view(args@), d as nat, log_since(old(self).history(), final(self).history()) + k)
                == out(result_view(r), final(self).state(), k),
    {
        let ghost s0 = self.state();
        let ghost h0 = self.history();
        let ghost av = seq_view(args@);
        proof {
            lemma_no_log(h0);
        }
        match m {
            Val::Macro(Macro::Host(id)) => {
                let ghost call = HostCall::Macro(*id, av);
                let r = host.call_macro(*id, &mut self.reader.package, args);
                proof {
                    let ex = Exchange { call, result: result_view(r), names: self.state().names };
                    self.history@ = self.history@.push(ex);
                    assert(log_since(h0, self.history()) =~= seq![ex]);
                    assert(is_prefix(h0, self.history())) by {
                        assert(self.history().take(h0.len() as int) =~= h0);
                    }
                    assert forall|k: Seq<Exchange>| #[trigger] call_macro_s(s0, env as nat, m@, av, d as nat, log_since(h0, self.history()) + k)
                        == out(result_view(r), self.state(), k) by {
                        assert((seq![ex] + k).drop_first() =~= k);
                        assert((seq![ex] + k)[0] == ex);
                    }
                }
                r
            },
            Val::Macro(Macro::Defmacro) => defmacro(self, Env(env), args),
            Val::Macro(Macro::Quasiquote) => self.quasiquote_in(&args),
            Val::Macro(Macro::Defined { params, body }) => {
                let (child, ok) = self.bind_call_frame(env, params, &args);
                if !ok {
                    return Err(str_error("illegal macro"));
                }
                let ghost s1 = self.state();
                let ghost bv = seq_view(body@);
                proof {
                    assert(seq_view(Seq::<Val>::empty()) =~= Seq::<Value>::empty());
                }
                let r = self.eval_iter_in(host, child, body, 0, d, Val::Vec(Vec::new()));
                proof {
                    let h2 = self.history();
                    assert forall|k: Seq<Exchange>| #[trigger] call_macro_s(s0, env as nat, m@, av, d as nat, log_since(h0, h2) + k)
                        == out(result_view(r), self.state(), k) by {
                        assert(eval_iter_s(s1, child as nat, bv, 0, d as nat, log_since(h0, h2) + k, Value::List(Seq::empty()))
                            == out(result_view(r), self.state(), k));
                    }
                }
                r
            },
            _ => Err(GlutenError::NotFunction(m.duplicate())),
        }
    }

    /// Expands the macros in `val` as seen from frame `env`.
    pub(crate) fn mexpand_in<H: Host>(&mut self, host: &mut H, env: usize, val: &Val, d: u64) -> (r: Result<Val, GlutenError>)
        requires
            old(self).wf(),
            env < old(self).frames().len(),
        ensures
            final(self).wf(),
            final(self).extends(old(self)),
            forall|k: Seq<Exchange>| #[trigger] mexpand_s(old(self).state(), env as nat, val@, d as nat, log_since(old(self).history(), final(self).history()) + k)
                == out(result_view(r), final(self).state(), k),
        decreases d, 0nat, 0nat,
    {
        let ghost s0 = self.state();
        let ghost h0 = self.history();
        proof {
            lemma_no_log(h0);
        }
        if d == 0 {
            return Err(GlutenError::DepthExceeded);
        }
        match val {
            Val::Vec(v) => {
                if v.len() == 0 {
                    return Err(str_error("empty form"));
                }
                let ghost vv = seq_view(v@);
                assert(vv[0] == v@[0]@);
                let head = match self.mexpand_in(host, env, &v[0], d - 1) {
                    Ok(h) => h,
                    Err(e) => {
                        let r = Err(e);
                        proof {
                            let h1 = self.history();
                            assert forall|k: Seq<Exchange>| #[trigger] mexpand_s(s0, env as nat, val@, d as nat, log_since(h0, h1) + k)
                                == out(result_view(r), self.state(), k) by {
                                assert(mexpand_s(s0, env as nat, vv[0], (d - 1) as nat, log_since(h0, h1) + k) == out(result_view(r), self.state(), k));
                            }
                        }
                        return r;
                    },
                };
                let ghost s1 = self.state();
                let ghost h1 = self.history();
                let ghost hv = head@;
                match self.macro_named(env, &head) {
                    Some(m) => {
                        let ghost mv = m@;
                        let mut args: Vec<Val> = Vec::new();
                        let mut j: usize = 1;
                        let n = v.len();
                        while j < n
                            invariant
                                n == v@.len(),
                                1 <= j <= n,
                                vv == seq_view(v@),
                                seq_view(args@) =~= vv.subrange(1, j as int),
                            decreases n - j,
                        {
                            let ghost before = args@;
                            args.push(v[j].duplicate());
                            proof {
                                assert(seq_view(args@) =~= seq_view(before).push(vv[j as int]));
                            }
                            j += 1;
                        }
                        assert(vv.subrange(1, n as int) =~= vv.skip(1));
                        let ghost argv = seq_view(args@);
                        let expanded = match self.call_macro_in(host, env, &m, args, d - 1) {
                            Ok(x) => x,
                            Err(e) => {
                                let r = Err(e);
                                proof {
                                    let h2 = self.history();
                                    lemma_log_concat(h0, h1, h2);
                                    assert forall|k: Seq<Exchange>| #[trigger] mexpand_s(s0, env as nat, val@, d as nat, log_since(h0, h2) + k)
                                        == out(result_view(r), self.state(), k) by {
                                        let l1 = log_since(h0, h1);
                                        let l2 = log_since(h1, h2);
                                        lemma_assoc(l1, l2, k);
                                        assert(mexpand_s(s0, env as nat, vv[0], (d - 1) as nat, l1 + (l2 + k)) == out(Ok(hv), s1, l2 + k));
                                        assert(call_macro_s(s1, env as nat, mv, argv, (d - 1) as nat, l2 + k) == out(result_view(r), self.state(), k));
                                    }
                                }
                                return r;
                            },
                        };
                        let ghost s2 = self.state();
                        let ghost h2 = self.history();
                        let ghost ev = expanded@;
                        let r = self.mexpand_in(host, env, &expanded, d - 1);
                        proof {
                            let h3 = self.history();
                            lemma_log_concat(h0, h1, h2);
                            lemma_log_concat(h0, h2, h3);
                            assert forall|k: Seq<Exchange>| #[trigger] mexpand_s(s0, env as nat, val@, d as nat, log_since(h0, h3) + k)
                                == out(result_view(r), self.state(), k) by {
                                let l1 = log_since(h0, h1);
                                let l2 = log_since(h1, h2);
                                let l3 = log_since(h2, h3);
                                lemma_assoc(l1, l2, l3 + k);
                                lemma_assoc(l1 + l2, l3, k);
                                lemma_assoc(l2, l3, k);
                                assert(log_since(h0, h3) + k == l1 + (l2 + (l3 + k)));
                                assert(mexpand_s(s0, env as nat, vv[0], (d - 1) as nat, l1 + (l2 + (l3 + k))) == out(Ok(hv), s1, l2 + (l3 + k)));
                                assert(call_macro_s(s1, env as nat, mv, argv, (d - 1) as nat, l2 + (l3 + k)) == out(Ok(ev), s2, l3 + k));
                                assert(mexpand_s(s2, env as nat, ev, (d - 1) as nat, l3 + k) == out(result_view(r), self.state(), k));
                            }
                        }
                        r
                    },
                    None => {
                        let mut acc: Vec<Val> = Vec::new();
                        acc.push(head);
                        assert(seq_view(acc@) =~= seq![hv]);
                        let r = self.mexpand_items_in(host, env, v, 1, d - 1, acc);
                        proof {
                            let h2 = self.history();
                            lemma_log_concat(h0, h1, h2);
                            assert forall|k: Seq<Exchange>| #[trigger] mexpand_s(s0, env as nat, val@, d as nat, log_since(h0, h2) + k)
                                == out(result_view(r), self.state(), k) by {
                                let l1 = log_since(h0, h1);
                                let l2 = log_since(h1, h2);
                                lemma_assoc(l1, l2, k);
                                assert(mexpand_s(s0, env as nat, vv[0], (d - 1) as nat, l1 + (l2 + k)) == out(Ok(hv), s1, l2 + k));
                                assert(mexpand_items(s1, env as nat, vv, 1, (d - 1) as nat, l2 + k, seq![hv]) == out(result_view(r), self.state(), k));
                            }
                        }
                        r
                    },
                }
            },
            _ => Ok(val.duplicate()),
        }
    }

    /// Expands the elements `v[i..]` of a list whose head is not a macro, after `acc`.
    pub(crate) fn mexpand_items_in<H: Host>(&mut self, host: &mut H, env: usize, v: &Vec<Val>, i: usize, d: u64, acc: Vec<Val>) -> (r: Result<Val, GlutenError>)
        requires
            old(self).wf(),
            env < old(self).frames().len(),
        ensures
            final(self).wf(),
            final(self).extends(old(self)),
            forall|k: Seq<Exchange>| #[trigger] mexpand_items(old(self).state(), env as nat, seq_view(v@), i as int, d as nat, log_since(old(self).history(), final(self).history()) + k, seq_view(acc@))
                == out(result_view(r), final(self).state(), k),
        decreases d, 1nat, v@.len() - i,
    {
        let ghost s0 = self.state();
        let ghost h0 = self.history();
        let ghost vv = seq_view(v@);
        let ghost av = seq_view(acc@);
        proof {
            lemma_no_log(h0);
        }
        if i >= v.len() {
            return Ok(Val::Vec(acc));
        }
        assert(vv[i as int] == v@[i as int]@);
        match self.mexpand_in(host, env, &v[i], d) {
            Ok(x) => {
                let ghost s1 = self.state();
                let ghost h1 = self.history();
                let ghost xv = x@;
                let mut acc2 = acc;
                acc2.push(x);
                assert(seq_view(acc2@) =~= av.push(xv));
                let r = self.mexpand_items_in(host, env, v, i + 1, d, acc2);
                proof {
                    let h2 = self.history();
                    lemma_log_concat(h0, h1, h2);
                    assert forall|k: Seq<Exchange>| #[trigger] mexpand_items(s0, env as nat, vv, i as int, d as nat, log_since(h0, h2) + k, av)
                        == out(result_view(r), self.state(), k) by {
                        let l1 = log_since(h0, h1);
                        let l2 = log_since(h1, h2);
                        lemma_assoc(l1, l2, k);
                        assert(mexpand_s(s0, env as nat, vv[i as int], d as nat, l1 + (l2 + k)) == out(Ok(xv), s1, l2 + k));
                        assert(mexpand_items(s1, env as nat, vv, i + 1, d as nat, l2 + k, av.push(xv)) == out(result_view(r), self.state(), k));
                    }
                }
                r
            },
            Err(e) => {
                let r = Err(e);
                proof {
                    let h1 = self.history();
                    assert forall|k: Seq<Exchange>| #[trigger] mexpand_items(s0, env as nat, vv, i as int, d as nat, log_since(h0, h1) + k, av)
                        == out(result_view(r), self.state(), k) by {
                        assert(mexpand_s(s0, env as nat, vv[i as int], d as nat, log_since(h0, h1) + k) == out(result_view(r), self.state(), k));
                    }
                }
                r
            },
        }
    }
}

/// The continuation of a call of `first` whose argument `form[i]` froze with
/// continuation `cont`, after the arguments `args` were evaluated.
fn freeze(first: &Val, args: Vec<Val>, cont: Val, form: &Vec<Val>, i: usize) -> (r: Val)
    requires
        i < form@.len(),
    ensures
        r@ == freeze_continuation(first@, seq_view(args@), cont@, seq_view(form@), i as int),
{
    let ghost av = seq_view(args@);
    let ghost fv = seq_view(form@);
    let ghost qa = av.map_values(|a: Value| spec_quote_val(a));
    let mut out: Vec<Val> = Vec::new();
    out.push(quote_val(first.duplicate()));
    assert(seq_view(out@) =~= seq![spec_quote_val(first@)] + qa.take(0));
    let mut j: usize = 0;
    let n = args.len();
    while j < n
        invariant
            n == args@.len(),
            j <= n,
            av == seq_view(args@),
            qa == av.map_values(|a: Value| spec_quote_val(a)),
            seq_view(out@) =~= seq![spec_quote_val(first@)] + qa.take(j as int),
        decreases n - j,
    {
        let ghost before = out@;
        out.push(quote_val(args[j].duplicate()));
        proof {
            assert(seq_view(out@) =~= seq_view(before).push(spec_quote_val(av[j as int])));
            assert(qa.take(j + 1) =~= qa.take(j as int).push(qa[j as int]));
        }
        j += 1;
    }
    assert(qa.take(n as int) =~= qa);
    let ghost before = out@;
    out.push(quote_val(cont));
    assert(seq_view(out@) =~= seq_view(before).push(spec_quote_val(cont@)));
    let len = form.len();
    let mut m: usize = i + 1;
    let ghost prefix = seq_view(out@);
    assert(seq_view(out@) =~= prefix + fv.subrange(i + 1, m as int));
    while m < len
        invariant
            len == form@.len(),
            i + 1 <= m <= len,
            fv == seq_view(form@),
            seq_view(out@) =~= prefix + fv.subrange(i + 1, m as int),
        decreases len - m,
    {
        let ghost before = out@;
        out.push(form[m].duplicate());
        proof {
            assert(seq_view(out@) =~= seq_view(before).push(fv[m as int]));
        }
        m += 1;
    }
    assert(fv.subrange(i + 1, len as int) =~= fv.skip(i + 1));
    assert(seq_view(out@) =~= seq![spec_quote_val(first@)] + qa + seq![spec_quote_val(cont@)] + fv.skip(i + 1));
    Val::Vec(out)
}

/// `(quote val)` with the quote operator itself at its head.
pub fn quote_val(val: Val) -> (r: Val)
    ensures
        r@ == spec_quote_val(val@),
{
    let mut v: Vec<Val> = Vec::new();
    v.push(Val::SpecialOp(SpecialOperator::Quote));
    v.push(val);
    assert(seq_view(v@) =~= seq![Value::Special(SpecialOperator::Quote), v@[1]@]);
    Val::Vec(v)
}

} // verus!

verus! {


impl Interp {
    /// The reader, whose package names the symbols.
    pub fn reader(&self) -> (r: &Reader)
        ensures
            r.package@ == self.state().names,
    {
        &self.reader
    }

    /// The symbol named `name`, interned in the reader's package.
    pub fn intern(&mut self, name: &String) -> (r: Val)
        requires
            old(self).wf(),
        ensures
            final(self).wf(),
            final(self).frames() == old(self).frames(),
            final(self).history() == old(self).history(),
            final(self).read_table() == old(self).read_table(),
            final(self).depth_limit() == old(self).depth_limit(),
            (final(self).state().names, r@) == ({
                let (names, i) = crate::package::spec_intern(old(self).state().names, name@);
                (names, Value::Symbol(i))
            }),
    {
        self.reader.package.intern(name)
    }

    /// Reads the whole of `src` as one form with the reader.
    pub fn parse(&mut self, src: &str) -> (r: Result<Val, GlutenError>)
        requires
            old(self).wf(),
        ensures
            final(self).wf(),
            final(self).frames() == old(self).frames(),
            final(self).history() == old(self).history(),
            final(self).read_table() == old(self).read_table(),
            final(self).depth_limit() == old(self).depth_limit(),
            (result_view(r), final(self).state().names) == crate::reader::read_whole(old(self).read_table(), src@, old(self).state().names),
    {
        self.reader.parse(src)
    }

    /// Reads every form of `src` with the reader.
    pub fn parse_top_level(&mut self, src: &str) -> (r: Result<Vec<Val>, GlutenError>)
        requires
            old(self).wf(),
        ensures
            final(self).wf(),
            final(self).frames() == old(self).frames(),
            final(self).history() == old(self).history(),
            final(self).read_table() == old(self).read_table(),
            final(self).depth_limit() == old(self).depth_limit(),
            (match r {
                Ok(v) => Ok(seq_view(v@)),
                Err(e) => Err(e@),
            }, final(self).state().names) == crate::reader::read_all(old(self).read_table(), src@, 0, old(self).state().names, Seq::empty()),
    {
        self.reader.parse_top_level(src)
    }
}

impl Env {
    /// A new root environment: a frame that extends no other.
    pub fn new(interp: &mut Interp) -> (r: Env)
        requires
            old(interp).wf(),
        ensures
            final(interp).wf(),
            r.0 == old(interp).frames().len(),
            final(interp).frames() == old(interp).frames().push(new_frame(None)),
            final(interp).state().names == old(interp).state().names,
            final(interp).history() == old(interp).history(),
            final(interp).read_table() == old(interp).read_table(),
            final(interp).depth_limit() == old(interp).depth_limit(),
    {
        Env(interp.add_frame(None))
    }

    /// A new environment extending this one.
    pub fn child(&self, interp: &mut Interp) -> (r: Env)
        requires
            old(interp).wf(),
            self.0 < old(interp).frames().len(),
        ensures
            final(interp).wf(),
            r.0 == old(interp).frames().len(),
            final(interp).frames().len() == old(interp).frames().len() + 1,
            final(interp).state() == push_frame(old(interp).state(), self.0 as nat),
            final(interp).history() == old(interp).history(),
            final(interp).read_table() == old(interp).read_table(),
            final(interp).depth_limit() == old(interp).depth_limit(),
    {
        Env(interp.add_child(self.0))
    }

    /// Binds `key` to `val` in this environment's own frame.
    pub fn insert(&self, interp: &mut Interp, key: Symbol, val: Val)
        requires
            old(interp).wf(),
            self.0 < old(interp).frames().len(),
        ensures
            final(interp).wf(),
            final(interp).state() == bind(old(interp).state(), self.0 as nat, key.0 as nat, val@),
            final(interp).frames().len() == old(interp).frames().len(),
            final(interp).history() == old(interp).history(),
            final(interp).read_table() == old(interp).read_table(),
            final(interp).depth_limit() == old(interp).depth_limit(),
    {
        interp.bind_var(self.0, key, val)
    }

    /// The value bound to `key` here or in the environments this one extends.
    pub fn get(&self, interp: &Interp, key: Symbol) -> (r: Option<Val>)
        requires
            interp.wf(),
            self.0 < interp.frames().len(),
        ensures
            match r {
                Some(v) => lookup(interp.state().frames, self.0 as int, key.0 as nat) == Some(v@),
                None => lookup(interp.state().frames, self.0 as int, key.0 as nat) is None,
            },
    {
        interp.lookup_var(self.0, key)
    }

    /// The reader of the interpreter.
    pub fn reader<'a>(&self, interp: &'a Interp) -> (r: &'a Reader)
        ensures
            r.package@ == interp.state().names,
    {
        interp.reader()
    }

    /// The same environment.
    pub fn clone(&self) -> (r: Env)
        ensures
            r == *self,
    {
        Env(self.0)
    }

    /// Evaluates `val` here.
    pub fn eval<H: Host>(&self, interp: &mut Interp, host: &mut H, val: Val) -> (r: Result<Val, GlutenError>)
        requires
            old(interp).wf(),
            self.0 < old(interp).frames().len(),
        ensures
            final(interp).wf(),
            final(interp).extends(old(interp)),
            forall|k: Seq<Exchange>| #[trigger] eval_s(old(interp).state(), self.0 as nat, val@, old(interp).depth_limit() as nat, log_since(old(interp).history(), final(interp).history()) + k)
                == out(result_view(r), final(interp).state(), k),
    {
        eval(*self, interp, host, val)
    }

    /// Expands the macros in `val` here.
    pub fn macro_expand<H: Host>(&self, interp: &mut Interp, host: &mut H, val: Val) -> (r: Result<Val, GlutenError>)
        requires
            old(interp).wf(),
            self.0 < old(interp).frames().len(),
        ensures
            final(interp).wf(),
            final(interp).extends(old(interp)),
            forall|k: Seq<Exchange>| #[trigger] mexpand_s(old(interp).state(), self.0 as nat, val@, old(interp).depth_limit() as nat, log_since(old(interp).history(), final(interp).history()) + k)
                == out(result_view(r), final(interp).state(), k),
    {
        macro_expand(*self, interp, host, val)
    }
}

/// Evaluates `val` in `env`, nesting at most as deep as the interpreter allows.
pub fn eval<H: Host>(env: Env, interp: &mut Interp, host: &mut H, val: Val) -> (r: Result<Val, GlutenError>)
    requires
        old(interp).wf(),
        env.0 < old(interp).frames().len(),
    ensures
        final(interp).wf(),
        final(interp).extends(old(interp)),
        forall|k: Seq<Exchange>| #[trigger] eval_s(old(interp).state(), env.0 as nat, val@, old(interp).depth_limit() as nat, log_since(old(interp).history(), final(interp).history()) + k)
            == out(result_view(r), final(interp).state(), k),
{
    let d = interp.max_depth();
    interp.eval_in(host, env.0, &val, d)
}

/// Expands the macros in `val` in `env`, nesting at most as deep as the interpreter allows.
pub fn macro_expand<H: Host>(env: Env, interp: &mut Interp, host: &mut H, val: Val) -> (r: Result<Val, GlutenError>)
    requires
        old(interp).wf(),
        env.0 < old(interp).frames().len(),
    ensures
        final(interp).wf(),
        final(interp).extends(old(interp)),
        forall|k: Seq<Exchange>| #[trigger] mexpand_s(old(interp).state(), env.0 as nat, val@, old(interp).depth_limit() as nat, log_since(old(interp).history(), final(interp).history()) + k)
            == out(result_view(r), final(interp).state(), k),
{
    let d = interp.max_depth();
    interp.mexpand_in(host, env.0, &val, d)
}

} // verus!
