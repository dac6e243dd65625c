use vstd::prelude::*;
use crate::data::{Symbol, Val, Value, seq_view};
use crate::package::{Package, spec_intern};
use crate::semantics::{qq_s, qq_items, unquoted, any_splicing, is_symbol_named};

verus! {

broadcast use crate::data::lemma_seq_view;

/// Whether `v` is a symbol of `package` below `n0` named `name`.
fn symbol_named(package: &Package, n0: usize, v: &Val, name: &String) -> (r: bool)
    requires
        n0 <= package@.len(),
    ensures
        r == is_symbol_named(package@.take(n0 as int), v@, name@),
{
    match v {
        Val::Symbol(s) => {
            if s.0 < n0 {
                *package.name(*s) == *name
            } else {
                false
            }
        },
        _ => false,
    }
}

/// How `v` stands in a quasiquoted list: 1 for `(unquote x)`, 2 for
/// `(unquote-splicing x)`, 0 otherwise.
fn unquote_kind(package: &Package, v: &Val) -> (r: u8)
    ensures
        r == (match unquoted(package@, v@) {
            Some((false, _)) => 1u8,
            Some((true, _)) => 2u8,
            None => 0u8,
        }),
{
    proof {
        assert(package@.take(package@.len() as int) =~= package@);
    }
    let n0 = package.len();
    assert(package@.take(n0 as int) == package@);
    match v {
        Val::Vec(w) => {
            if w.len() == 2 {
                assert(seq_view(w@)[0] == w@[0]@);
                let uq = String::from_str("unquote");
                let uqs = String::from_str("unquote-splicing");
                let a = symbol_named(package, n0, &w[0], &uq);
                let b = symbol_named(package, n0, &w[0], &uqs);
                assert(a == is_symbol_named(package@, seq_view(w@)[0], "unquote"@));
                assert(b == is_symbol_named(package@, seq_view(w@)[0], "unquote-splicing"@));
                if a {
                    1
                } else if b {
                    2
                } else {
                    0
                }
            } else {
                assert(seq_view(w@).len() == w@.len());
                0
            }
        },
        _ => 0,
    }
}

/// The form that builds `val` with its unquoted parts evaluated.
pub fn qq(package: &mut Package, val: &Val) -> (r: Val)
    ensures
        (final(package)@, r@) == qq_s(old(package)@, val@),
    decreases val, 0nat,
{
    match val {
        Val::Vec(v) => {
            let ghost names0 = package@;
            let ghost vv = seq_view(v@);
            let mut kinds: Vec<u8> = Vec::new();
            let mut app = false;
            let mut j: usize = 0;
            while j < v.len()
                invariant
                    package@ == names0,
                    vv == seq_view(v@),
                    j <= v@.len(),
                    kinds@.len() == j,
                    forall|m: int| 0 <= m < j ==> #[trigger] kinds@[m] == (match unquoted(names0, vv[m]) {
                        Some((false, _)) => 1u8,
                        Some((true, _)) => 2u8,
                        None => 0u8,
                    }),
                    any_splicing(names0, vv, 0) == (app || any_splicing(names0, vv, j as int)),
                decreases v@.len() - j,
            {
                let kd = unquote_kind(package, &v[j]);
                kinds.push(kd);
                if kd == 2 {
                    app = true;
                }
                j += 1;
            }
            let vec_sym = package.intern_symbol(&String::from_str("vec"));
            let mut items: Vec<Val> = Vec::new();
            if app {
                let app_sym = package.intern_symbol(&String::from_str("append"));
                items.push(Val::Symbol(app_sym));
            } else {
                items.push(Val::Symbol(vec_sym));
            }
            proof {
                let n1 = spec_intern(names0, "vec"@).0;
                if app {
                    assert(seq_view(items@) =~= seq![Value::Symbol(spec_intern(n1, "append"@).1)]);
                } else {
                    assert(seq_view(items@) =~= seq![Value::Symbol(vec_sym.0 as nat)]);
                }
            }
            let r = qq_items_exec(package, Ghost(names0), &kinds, v, 0, app, vec_sym, items);
            Val::Vec(r)
        },
        _ => {
            let q = package.intern_symbol(&String::from_str("quote"));
            let mut items: Vec<Val> = Vec::new();
            items.push(Val::Symbol(q));
            items.push(val.duplicate());
            assert(seq_view(items@) =~= seq![Value::Symbol(q.0 as nat), val@]);
            Val::Vec(items)
        },
    }
}

fn qq_items_exec(
    package: &mut Package,
    Ghost(names0): Ghost<Seq<Seq<char>>>,
    kinds: &Vec<u8>,
    v: &Vec<Val>,
    i: usize,
    app: bool,
    vec_sym: Symbol,
    acc: Vec<Val>,
) -> (r: Vec<Val>)
    requires
        i <= v@.len(),
        kinds@.len() == v@.len(),
        forall|m: int| 0 <= m < v@.len() ==> #[trigger] kinds@[m] == (match unquoted(names0, seq_view(v@)[m]) {
            Some((false, _)) => 1u8,
            Some((true, _)) => 2u8,
            None => 0u8,
        }),
    ensures
        (final(package)@, seq_view(r@)) == qq_items(names0, old(package)@, seq_view(v@), i as int, app, vec_sym.0 as nat, seq_view(acc@)),
    decreases v, v@.len() - i,
{
    if i >= v.len() {
        return acc;
    }
    let ghost vv = seq_view(v@);
    let ghost av = seq_view(acc@);
    assert(vv[i as int] == v@[i as int]@);
    let kd = kinds[i];
    let mut acc2 = acc;
    if kd == 0 {
        proof {
            vstd::std_specs::vec::axiom_vec_index_decreases(*v, i as int);
        }
        let y = qq(package, &v[i]);
        let ghost yv = y@;
        if app {
            let mut w: Vec<Val> = Vec::new();
            w.push(Val::Symbol(vec_sym));
            w.push(y);
            assert(seq_view(w@) =~= seq![Value::Symbol(vec_sym.0 as nat), yv]);
            acc2.push(Val::Vec(w));
        } else {
            acc2.push(y);
        }
    } else {
        match &v[i] {
            Val::Vec(w) => {
                assert(seq_view(w@)[1] == w@[1]@);
                let x = w[1].duplicate();
                if kd == 1 && app {
                    let mut w2: Vec<Val> = Vec::new();
                    w2.push(Val::Symbol(vec_sym));
                    w2.push(x);
                    assert(seq_view(w2@) =~= seq![Value::Symbol(vec_sym.0 as nat), w@[1]@]);
                    acc2.push(Val::Vec(w2));
                } else {
                    acc2.push(x);
                }
            },
            _ => {
                acc2.push(Val::True);
            },
        }
    }
    let ghost a2 = acc2@;
    assert(seq_view(a2) =~= av.push(a2.last()@));
    qq_items_exec(package, Ghost(names0), kinds, v, i + 1, app, vec_sym, acc2)
}

} // verus!
