use vstd::prelude::*;

verus! {

/// The contents of a table of names, each as a sequence of characters.
pub open spec fn names_view(names: Seq<String>) -> Seq<Seq<char>> {
    names.map_values(|s: String| s@)
}

/// No name occurs twice.
pub open spec fn distinct_names(names: Seq<Seq<char>>) -> bool {
    forall|i: int, j: int| 0 <= i < j < names.len() ==> names[i] != names[j]
}

/// Where `name` stands in `names`, if it stands there.
pub open spec fn index_of_name(names: Seq<Seq<char>>, name: Seq<char>) -> Option<nat> {
    if names.contains(name) {
        Some(choose|i: nat| i < names.len() && names[i as int] == name)
    } else {
        None
    }
}

/// Looks `name` up in `names`.
pub fn find_name(names: &Vec<String>, name: &String) -> (r: Option<usize>)
    ensures
        match r {
            Some(i) => i < names@.len() && names@[i as int]@ == name@,
            None => !names_view(names@).contains(name@),
        },
{
    let mut i: usize = 0;
    while i < names.len()
        invariant
            i <= names@.len(),
            forall|j: int| 0 <= j < i ==> names@[j]@ != name@,
        decreases names.len() - i,
    {
        if names[i] == *name {
            return Some(i);
        }
        i += 1;
    }
    proof {
        if names_view(names@).contains(name@) {
            let k = choose|k: int| 0 <= k < names_view(names@).len() && names_view(names@)[k] == name@;
            assert(names@[k]@ == name@);
        }
    }
    None
}

/// In a table without repeated names, the index found for a name is its only index.
pub proof fn lemma_index_unique(names: Seq<Seq<char>>, i: int, name: Seq<char>)
    requires
        distinct_names(names),
        0 <= i < names.len(),
        names[i] == name,
    ensures
        index_of_name(names, name) == Some(i as nat),
{
    assert(names.contains(name));
    let k = choose|k: nat| k < names.len() && names[k as int] == name;
    assert(names[k as int] == name);
    if k < i {
        assert(names[k as int] != names[i]);
    } else if k > i {
        assert(names[i] != names[k as int]);
    }
}

/// A handle to a string held by a [`StringPool`].
pub type InternedString = usize;

/// A set of strings, each held once: interning a string that the pool holds
/// gives back the handle it already has.
pub struct StringPool {
    strings: Vec<String>,
}

impl View for StringPool {
    type V = Seq<Seq<char>>;

    closed spec fn view(&self) -> Seq<Seq<char>> {
        names_view(self.strings@)
    }
}

impl StringPool {
    /// The pool holds no string twice.
    #[verifier::type_invariant]
    closed spec fn wf(&self) -> bool {
        distinct_names(self@)
    }

    /// An empty pool.
    pub fn new() -> (r: StringPool)
        ensures
            r@ == Seq::<Seq<char>>::empty(),
            distinct_names(r@),
    {
        let r = StringPool { strings: Vec::new() };
        assert(r@ =~= Seq::<Seq<char>>::empty());
        r
    }

    /// The handle of `str`, which the pool takes in if it did not hold it.
    pub fn intern(&mut self, str: &str) -> (r: InternedString)
        ensures
            distinct_names(final(self)@),
            (final(self)@, r as nat) == crate::package::spec_intern(old(self)@, str@),
    {
        proof {
            use_type_invariant(&*self);
        }
        let s = String::from_str(str);
        match find_name(&self.strings, &s) {
            Some(i) => {
                proof {
                    lemma_index_unique(self@, i as int, str@);
                }
                i
            },
            None => {
                let i = self.strings.len();
                let ghost before = self@;
                let mut strings = Vec::new();
                std::mem::swap(&mut strings, &mut self.strings);
                strings.push(s);
                proof {
                    let now = names_view(strings@);
                    assert(now =~= before.push(str@));
                    assert forall|a: int, b: int| 0 <= a < b < now.len() implies now[a] != now[b] by {
                        if b == i {
                            assert(before[a] == now[a]);
                            assert(before.contains(before[a]));
                        }
                    }
                }
                self.strings = strings;
                proof {
                    assert(self@ =~= old(self)@.push(str@));
                    assert(self@[i as int] == str@);
                    lemma_index_unique(self@, i as int, str@);
                }
                i
            },
        }
    }

    /// The handle of `str`, if the pool holds it.
    pub fn try_intern(&self, str: &str) -> (r: Option<InternedString>)
        ensures
            distinct_names(self@),
            r == (match index_of_name(self@, str@) {
                Some(i) => Some(i as usize),
                None => None::<usize>,
            }),
    {
        proof {
            use_type_invariant(self);
        }
        let s = String::from_str(str);
        match find_name(&self.strings, &s) {
            Some(i) => {
                proof {
                    lemma_index_unique(self@, i as int, str@);
                }
                Some(i)
            },
            None => None,
        }
    }

    /// The number of strings held.
    pub fn len(&self) -> (r: usize)
        ensures
            distinct_names(self@),
            r == self@.len(),
    {
        proof {
            use_type_invariant(self);
        }
        self.strings.len()
    }

    /// The string that `handle` stands for.
    pub fn resolve(&self, handle: InternedString) -> (r: &String)
        requires
            handle < self@.len(),
        ensures
            r@ == self@[handle as int],
    {
        &self.strings[handle]
    }
}

} // verus!
