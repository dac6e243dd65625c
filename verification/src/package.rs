use vstd::prelude::*;
use crate::data::{Symbol, Val, Value};
use crate::string_pool::{names_view, distinct_names, index_of_name, find_name, lemma_index_unique};

verus! {

/// Interning `name` in a package holding `names`: the package afterwards and
/// the number of the symbol.
pub open spec fn spec_intern(names: Seq<Seq<char>>, name: Seq<char>) -> (Seq<Seq<char>>, nat) {
    match index_of_name(names, name) {
        Some(i) => (names, i),
        None => (names.push(name), names.len()),
    }
}

/// The symbol table of a reader: symbol `i` is named `self@[i]`.
pub struct Package {
    names: Vec<String>,
}

impl View for Package {
    type V = Seq<Seq<char>>;

    closed spec fn view(&self) -> Seq<Seq<char>> {
        names_view(self.names@)
    }
}

impl Package {
    /// No name is held twice.
    #[verifier::type_invariant]
    closed spec fn wf(&self) -> bool {
        distinct_names(self@)
    }

    /// A package without symbols.
    pub fn new() -> (r: Package)
        ensures
            r@ == Seq::<Seq<char>>::empty(),
            distinct_names(r@),
    {
        let r = Package { names: Vec::new() };
        assert(r@ =~= Seq::<Seq<char>>::empty());
        r
    }

    /// The symbol named `str`, made if the package does not have it yet.
    pub fn intern(&mut self, str: &String) -> (r: Val)
        ensures
            distinct_names(final(self)@),
            (final(self)@, r@) == ({
                let (names, i) = spec_intern(old(self)@, str@);
                (names, Value::Symbol(i))
            }),
    {
        let s = self.intern_symbol(str);
        Val::Symbol(s)
    }

    /// The symbol named `str`, made if the package does not have it yet.
    pub fn intern_symbol(&mut self, str: &String) -> (r: Symbol)
        ensures
            distinct_names(final(self)@),
            (final(self)@, r.0 as nat) == spec_intern(old(self)@, str@),
    {
        proof {
            use_type_invariant(&*self);
        }
        match find_name(&self.names, str) {
            Some(i) => {
                proof {
                    lemma_index_unique(self@, i as int, str@);
                }
                Symbol(i)
            },
            None => {
                let i = self.names.len();
                let ghost before = self@;
                let mut names = Vec::new();
                std::mem::swap(&mut names, &mut self.names);
                names.push(str.clone());
                proof {
                    let now = names_view(names@);
                    assert(now =~= before.push(str@));
                    assert(distinct_names(now)) by {
                        assert forall|a: int, b: int| 0 <= a < b < now.len() implies now[a] != now[b] by {
                            if b == i {
                                assert(before[a] == now[a]);
                                assert(before.contains(before[a]));
                            }
                        }
                    }
                }
                self.names = names;
                proof {
                    assert(self@ =~= old(self)@.push(str@));
                    assert(self@[i as int] == str@);
                    lemma_index_unique(self@, i as int, str@);
                }
                Symbol(i)
            },
        }
    }

    /// The symbol named `str`, if the package has it.
    pub fn try_intern(&self, str: &String) -> (r: Option<Val>)
        ensures
            distinct_names(self@),
            match index_of_name(self@, str@) {
                Some(i) => r matches Some(v) && v@ == Value::Symbol(i),
                None => r is None,
            },
    {
        proof {
            use_type_invariant(self);
        }
        match find_name(&self.names, str) {
            Some(i) => {
                proof {
                    lemma_index_unique(self@, i as int, str@);
                }
                Some(Val::Symbol(Symbol(i)))
            },
            None => None,
        }
    }

    /// The name of `sym`.
    pub fn name(&self, sym: Symbol) -> (r: &String)
        requires
            sym.0 < self@.len(),
        ensures
            r@ == self@[sym.0 as int],
    {
        &self.names[sym.0]
    }

    /// The number of symbols in the package.
    pub fn len(&self) -> (r: usize)
        ensures
            distinct_names(self@),
            r == self@.len(),
    {
        proof {
            use_type_invariant(self);
        }
        self.names.len()
    }
}

} // verus!
