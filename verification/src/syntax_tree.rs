use vstd::prelude::*;
use crate::chars::{byte_index, CharStream};
use crate::data::{Val, Value};
use crate::error::{GlutenError, Error, read_error};
use crate::package::spec_intern;
use crate::reader::{
    Reader, ReadMacro, table_get, read_value, read_items, read_list_from, read_prefixed, read_comma_from, is_splicing,
    skip_ws, skip_whitespace, lemma_skip_ws, lemma_read_value_pos, lemma_read_items_pos, default_read_fn,
};

verus! {

broadcast use CharStream::lemma_pos_in_text;

/// Where a form stands in its source text, in bytes; `end` is just after it.
#[derive(PartialEq, Eq, Structural, Clone, Copy, Debug)]
pub struct SRange {
    pub start: i32,
    pub end: i32,
}

/// The range of the form read from `p`, given where reading stopped: it starts
/// at the form's first byte and ends at the next character, or, at the end of
/// the text, as many bytes after its start as characters remained.
pub open spec fn form_range(s: Seq<char>, p: int, stop: int) -> SRange {
    let q = skip_ws(s, p);
    let start = byte_index(s, q) as i32;
    SRange {
        start,
        end: if stop < s.len() {
            byte_index(s, stop) as i32
        } else {
            (start + (s.len() - q)) as i32
        },
    }
}

/// A form as read with the range of every form read within it, the form
/// itself included: what a read macro adds (the `quote` of `'x`) and what is
/// read whole (an atom, a string) stand as leaves.
pub enum Tree {
    Leaf(Value),
    List(Seq<Tree>),
    Meta(Box<Tree>, SRange),
}

/// The form without its ranges.
pub open spec fn strip(x: Tree) -> Value
    decreases x, 1nat,
{
    match x {
        Tree::List(items) => Value::List(strip_all(items)),
        Tree::Leaf(v) => v,
        Tree::Meta(b, _) => strip(*b),
    }
}

/// The forms without their ranges.
pub open spec fn strip_all(items: Seq<Tree>) -> Seq<Value>
    decreases items, 0nat,
{
    Seq::new(items.len(), |i: int| if 0 <= i < items.len() { strip(items[i]) } else { Value::True })
}

/// An outcome without its ranges.
pub open spec fn strip_result(r: Result<Tree, Error>) -> Result<Value, Error> {
    match r {
        Ok(x) => Ok(strip(x)),
        Err(e) => Err(e),
    }
}

/// The outcome with the form read from `p` to `stop` wrapped in its range.
pub open spec fn with_range(r: Result<Tree, Error>, s: Seq<char>, p: int, stop: int) -> Result<Tree, Error> {
    match r {
        Ok(x) => Ok(Tree::Meta(Box::new(x), form_range(s, p, stop))),
        Err(e) => Err(e),
    }
}

/// A form read whole, as a leaf.
pub open spec fn leaf(r: Result<Value, Error>) -> Result<Tree, Error> {
    match r {
        Ok(v) => Ok(Tree::Leaf(v)),
        Err(e) => Err(e),
    }
}

/// Reading one form from `p` as `read_value` does, with every form read
/// wrapped in its range.
pub open spec fn read_tree(t: Seq<(char, ReadMacro)>, s: Seq<char>, p: int, pkg: Seq<Seq<char>>) -> (Result<Tree, Error>, int, Seq<Seq<char>>)
    decreases s.len() - p, 0nat,
{
    let q = skip_ws(s, p);
    if q < 0 || q >= s.len() {
        (Err(Error::ReadFailed("unexpected EOS"@)), q, pkg)
    } else if q < p {
        (Err(Error::ReadFailed("unexpected EOS"@)), q, pkg)
    } else {
        let (r, e, pkg2) = match table_get(t, s[q]) {
            Some(ReadMacro::List) => read_tree_list(t, s, q + 1, pkg),
            Some(ReadMacro::Quote) => read_tree_prefixed(t, s, q + 1, pkg, "quote"@),
            Some(ReadMacro::Backquote) => read_tree_prefixed(t, s, q + 1, pkg, "quasiquote"@),
            Some(ReadMacro::Comma) => read_tree_comma(t, s, q + 1, pkg),
            _ => {
                let (r, e, pkg2) = read_value(t, s, q, pkg);
                (leaf(r), e, pkg2)
            },
        };
        (with_range(r, s, p, e), e, pkg2)
    }
}

/// Reading forms from `p` for as long as they read, after `acc`.
pub open spec fn read_tree_items(t: Seq<(char, ReadMacro)>, s: Seq<char>, p: int, pkg: Seq<Seq<char>>, acc: Seq<Tree>) -> (Seq<Tree>, int, Seq<Seq<char>>)
    decreases s.len() - p, 1nat,
{
    let (r, q, pkg2) = read_tree(t, s, p, pkg);
    match r {
        Ok(v) => if p < q <= s.len() {
            read_tree_items(t, s, q, pkg2, acc.push(v))
        } else {
            (acc.push(v), q, pkg2)
        },
        Err(_) => (acc, q, pkg2),
    }
}

/// Reading the rest of a list whose `(` stands before `p`.
pub open spec fn read_tree_list(t: Seq<(char, ReadMacro)>, s: Seq<char>, p: int, pkg: Seq<Seq<char>>) -> (Result<Tree, Error>, int, Seq<Seq<char>>)
    decreases s.len() - p, 2nat,
{
    let (items, q, pkg2) = read_tree_items(t, s, p, pkg, Seq::empty());
    let q2 = skip_ws(s, q);
    if 0 <= q2 < s.len() && s[q2] == ')' {
        (Ok(Tree::List(items)), q2 + 1, pkg2)
    } else {
        (
            Err(Error::ReadFailed("closing parenthesis missing"@)),
            if 0 <= q2 < s.len() { q2 + 1 } else { q2 },
            pkg2,
        )
    }
}

/// Reading the form after a quote-like prefix as `(name form)`.
pub open spec fn read_tree_prefixed(t: Seq<(char, ReadMacro)>, s: Seq<char>, p: int, pkg: Seq<Seq<char>>, name: Seq<char>) -> (Result<Tree, Error>, int, Seq<Seq<char>>)
    decreases s.len() - p, 2nat,
{
    let (r, q, pkg2) = read_tree(t, s, p, pkg);
    match r {
        Ok(v) => {
            let (pkg3, id) = spec_intern(pkg2, name);
            (Ok(Tree::List(seq![Tree::Leaf(Value::Symbol(id)), v])), q, pkg3)
        },
        Err(e) => (Err(e), q, pkg2),
    }
}

/// Reading the rest of `,form` or `,@form` whose comma stands before `p`.
pub open spec fn read_tree_comma(t: Seq<(char, ReadMacro)>, s: Seq<char>, p: int, pkg: Seq<Seq<char>>) -> (Result<Tree, Error>, int, Seq<Seq<char>>)
    decreases s.len() - p, 2nat,
{
    let splicing = is_splicing(s, p);
    let p1 = if splicing { p + 1 } else { p };
    let (pkg1, id) = spec_intern(pkg, if splicing { "unquote-splicing"@ } else { "unquote"@ });
    let (r, q, pkg2) = read_tree(t, s, p1, pkg1);
    match r {
        Ok(v) => (Ok(Tree::List(seq![Tree::Leaf(Value::Symbol(id)), v])), q, pkg2),
        Err(e) => (Err(e), q, pkg2),
    }
}

/// Reading a whole text as one form with its ranges.
pub open spec fn read_whole_tree(t: Seq<(char, ReadMacro)>, s: Seq<char>, pkg: Seq<Seq<char>>) -> (Result<Tree, Error>, Seq<Seq<char>>) {
    let (r, q, pkg2) = read_tree(t, s, 0, pkg);
    match r {
        Ok(v) => if skip_ws(s, q) >= s.len() {
            (Ok(v), pkg2)
        } else {
            (Err(Error::ReadFailed("expect EOS, but found some character"@)), pkg2)
        },
        Err(e) => (Err(e), pkg2),
    }
}

/// Reading the forms of a text from `p` on, with their ranges, after `acc`.
pub open spec fn read_all_trees(t: Seq<(char, ReadMacro)>, s: Seq<char>, p: int, pkg: Seq<Seq<char>>, acc: Seq<Tree>) -> (Result<Seq<Tree>, Error>, Seq<Seq<char>>)
    decreases s.len() - p,
{
    if p < 0 || p >= s.len() {
        (Ok(acc), pkg)
    } else {
        let (r, q, pkg2) = read_tree(t, s, p, pkg);
        match r {
            Err(e) => (Err(e), pkg2),
            Ok(v) => {
                let q2 = skip_ws(s, q);
                if p < q2 <= s.len() {
                    read_all_trees(t, s, q2, pkg2, acc.push(v))
                } else {
                    (Ok(acc.push(v)), pkg2)
                }
            },
        }
    }
}

/// Reading with ranges stops where reading stops, leaves the package as
/// reading leaves it, and, with its ranges taken away, gives what reading
/// gives.
pub proof fn law_read_tree_strips(t: Seq<(char, ReadMacro)>, s: Seq<char>, p: int, pkg: Seq<Seq<char>>)
    requires
        0 <= p <= s.len(),
    ensures
        read_tree(t, s, p, pkg).1 == read_value(t, s, p, pkg).1,
        read_tree(t, s, p, pkg).2 == read_value(t, s, p, pkg).2,
        strip_result(read_tree(t, s, p, pkg).0) == read_value(t, s, p, pkg).0,
    decreases s.len() - p, 0nat,
{
    lemma_skip_ws(s, p);
    let q = skip_ws(s, p);
    if q < s.len() {
        let c = s[q];
        assert(skip_ws(s, q) == q);
        match table_get(t, c) {
            Some(ReadMacro::List) => lemma_read_tree_list(t, s, q + 1, pkg),
            Some(ReadMacro::Quote) => lemma_read_tree_prefixed(t, s, q + 1, pkg, "quote"@),
            Some(ReadMacro::Backquote) => lemma_read_tree_prefixed(t, s, q + 1, pkg, "quasiquote"@),
            Some(ReadMacro::Comma) => lemma_read_tree_comma(t, s, q + 1, pkg),
            _ => {},
        }
    }
}

proof fn lemma_read_tree_items(t: Seq<(char, ReadMacro)>, s: Seq<char>, p: int, pkg: Seq<Seq<char>>, acc: Seq<Tree>)
    requires
        0 <= p <= s.len(),
    ensures
        read_tree_items(t, s, p, pkg, acc).1 == read_items(t, s, p, pkg, strip_all(acc)).1,
        read_tree_items(t, s, p, pkg, acc).2 == read_items(t, s, p, pkg, strip_all(acc)).2,
        strip_all(read_tree_items(t, s, p, pkg, acc).0) == read_items(t, s, p, pkg, strip_all(acc)).0,
    decreases s.len() - p, 1nat,
{
    law_read_tree_strips(t, s, p, pkg);
    let (r, q, pkg2) = read_tree(t, s, p, pkg);
    match r {
        Ok(v) => {
            assert(strip_all(acc.push(v)) =~= strip_all(acc).push(strip(v)));
            if p < q <= s.len() {
                lemma_read_tree_items(t, s, q, pkg2, acc.push(v));
            }
        },
        Err(_) => {},
    }
}

proof fn lemma_read_tree_list(t: Seq<(char, ReadMacro)>, s: Seq<char>, p: int, pkg: Seq<Seq<char>>)
    requires
        0 <= p <= s.len(),
    ensures
        read_tree_list(t, s, p, pkg).1 == read_list_from(t, s, p, pkg).1,
        read_tree_list(t, s, p, pkg).2 == read_list_from(t, s, p, pkg).2,
        strip_result(read_tree_list(t, s, p, pkg).0) == read_list_from(t, s, p, pkg).0,
    decreases s.len() - p, 2nat,
{
    assert(strip_all(Seq::<Tree>::empty()) =~= Seq::<Value>::empty());
    lemma_read_tree_items(t, s, p, pkg, Seq::empty());
}

proof fn lemma_strip_pair(id: nat, v: Tree)
    ensures
        strip(Tree::List(seq![Tree::Leaf(Value::Symbol(id)), v])) == Value::List(seq![Value::Symbol(id), strip(v)]),
{
    let items = seq![Tree::Leaf(Value::Symbol(id)), v];
    assert(strip_all(items) =~= seq![Value::Symbol(id), strip(v)]);
}

proof fn lemma_read_tree_prefixed(t: Seq<(char, ReadMacro)>, s: Seq<char>, p: int, pkg: Seq<Seq<char>>, name: Seq<char>)
    requires
        0 <= p <= s.len(),
    ensures
        read_tree_prefixed(t, s, p, pkg, name).1 == read_prefixed(t, s, p, pkg, name).1,
        read_tree_prefixed(t, s, p, pkg, name).2 == read_prefixed(t, s, p, pkg, name).2,
        strip_result(read_tree_prefixed(t, s, p, pkg, name).0) == read_prefixed(t, s, p, pkg, name).0,
    decreases s.len() - p, 2nat,
{
    law_read_tree_strips(t, s, p, pkg);
    let (r, q, pkg2) = read_tree(t, s, p, pkg);
    if r is Ok {
        lemma_strip_pair(spec_intern(pkg2, name).1, r->Ok_0);
    }
}

proof fn lemma_read_tree_comma(t: Seq<(char, ReadMacro)>, s: Seq<char>, p: int, pkg: Seq<Seq<char>>)
    requires
        0 <= p <= s.len(),
    ensures
        read_tree_comma(t, s, p, pkg).1 == read_comma_from(t, s, p, pkg).1,
        read_tree_comma(t, s, p, pkg).2 == read_comma_from(t, s, p, pkg).2,
        strip_result(read_tree_comma(t, s, p, pkg).0) == read_comma_from(t, s, p, pkg).0,
    decreases s.len() - p, 2nat,
{
    let splicing = is_splicing(s, p);
    let p1 = if splicing { p + 1 } else { p };
    let (pkg1, id) = spec_intern(pkg, if splicing { "unquote-splicing"@ } else { "unquote"@ });
    law_read_tree_strips(t, s, p1, pkg1);
    let (r, q, pkg2) = read_tree(t, s, p1, pkg1);
    if r is Ok {
        lemma_strip_pair(id, r->Ok_0);
    }
}

/// A form as read with the range of every form read within it; its value
/// is a [`Tree`].
#[derive(Debug)]
pub enum Syntax {
    /// What a read macro adds, or a form read whole: an atom or a string.
    Leaf(Val),
    /// The forms of a list, or what a quote-like read macro makes.
    List(Vec<Syntax>),
    /// A form read and where it stands in the text.
    Meta(Box<Syntax>, SRange),
}

/// The tree of a syntax node.
pub open spec fn syntax_tree(x: Syntax) -> Tree
    decreases x, 1nat,
{
    match x {
        Syntax::Leaf(v) => Tree::Leaf(v@),
        Syntax::List(items) => Tree::List(tree_seq(items@)),
        Syntax::Meta(b, r) => Tree::Meta(Box::new(syntax_tree(*b)), r),
    }
}

/// The trees of a sequence of syntax nodes.
pub open spec fn tree_seq(s: Seq<Syntax>) -> Seq<Tree>
    decreases s, 0nat,
{
    Seq::new(s.len(), |i: int| if 0 <= i < s.len() { syntax_tree(s[i]) } else { Tree::Leaf(Value::True) })
}

/// The trees of a sequence have its length and the trees of its nodes.
pub proof fn lemma_tree_seq(s: Seq<Syntax>)
    ensures
        tree_seq(s).len() == s.len(),
        forall|i: int| 0 <= i < s.len() ==> #[trigger] tree_seq(s)[i] == s[i]@,
{
}

impl View for Syntax {
    type V = Tree;

    open spec fn view(&self) -> Tree {
        syntax_tree(*self)
    }
}

/// The value of an outcome with ranges.
pub open spec fn tree_result(r: Result<Syntax, GlutenError>) -> Result<Tree, Error> {
    match r {
        Ok(x) => Ok(x@),
        Err(e) => Err(e@),
    }
}

/// A reader whose every form read carries its range.
pub struct SyntaxReader {
    pub reader: Reader,
}

/// A reader that reads as `reader` does and wraps every form it reads, nested
/// ones included, in its range.
pub fn make_syntax_tree_reader(reader: Reader) -> (r: SyntaxReader)
    ensures
        r.reader == reader,
{
    SyntaxReader { reader }
}

impl SyntaxReader {
    /// Reads the whole of `src` as exactly one form, with nothing but
    /// whitespace and comments after it.
    pub fn parse(&mut self, src: &str) -> (r: Result<Syntax, GlutenError>)
        ensures
            final(self).reader.read_table == old(self).reader.read_table,
            (tree_result(r), final(self).reader.package@) == read_whole_tree(
                old(self).reader.read_table@,
                src@,
                old(self).reader.package@,
            ),
    {
        let mut cs = CharStream::new(src);
        let ghost t = self.reader.read_table@;
        let ghost pkg = self.reader.package@;
        let r = read_syntax(&mut self.reader, &mut cs);
        match r {
            Ok(val) => {
                proof {
                    law_read_tree_strips(t, src@, 0, pkg);
                    lemma_read_value_pos(t, src@, 0, pkg);
                }
                skip_whitespace(&mut cs);
                if cs.peek().is_none() {
                    Ok(val)
                } else {
                    Err(read_error("expect EOS, but found some character"))
                }
            },
            Err(e) => Err(e),
        }
    }

    /// Reads every form of `src`, in order.
    pub fn parse_top_level(&mut self, src: &str) -> (r: Result<Vec<Syntax>, GlutenError>)
        ensures
            final(self).reader.read_table == old(self).reader.read_table,
            (match r {
                Ok(v) => Ok(tree_seq(v@)),
                Err(e) => Err(e@),
            }, final(self).reader.package@) == read_all_trees(
                old(self).reader.read_table@,
                src@,
                0,
                old(self).reader.package@,
                Seq::empty(),
            ),
    {
        let mut vec: Vec<Syntax> = Vec::new();
        let mut cs = CharStream::new(src);
        let ghost s = src@;
        let ghost t = self.reader.read_table@;
        proof {
            lemma_tree_seq(vec@);
        }
        assert(tree_seq(vec@) =~= Seq::<Tree>::empty());
        while cs.peek().is_some()
            invariant
                s == src@,
                cs.wf(),
                cs.text() == s,
                0 <= cs.pos() <= s.len(),
                t == old(self).reader.read_table@,
                self.reader.read_table == old(self).reader.read_table,
                read_all_trees(t, s, 0, old(self).reader.package@, Seq::empty()) == read_all_trees(
                    t,
                    s,
                    cs.pos(),
                    self.reader.package@,
                    tree_seq(vec@),
                ),
            decreases s.len() - cs.pos(),
        {
            let ghost p = cs.pos();
            let ghost pkg = self.reader.package@;
            let val = read_syntax(&mut self.reader, &mut cs)?;
            proof {
                law_read_tree_strips(t, s, p, pkg);
                lemma_read_value_pos(t, s, p, pkg);
                lemma_skip_ws(s, cs.pos());
            }
            let ghost v = val@;
            let ghost before = vec@;
            vec.push(val);
            skip_whitespace(&mut cs);
            proof {
                assert(tree_seq(vec@) =~= tree_seq(before).push(v)) by {
                    lemma_tree_seq(vec@);
                    lemma_tree_seq(before);
                    assert(vec@.drop_last() =~= before);
                }
            }
        }
        Ok(vec)
    }

    /// Reads one form from `cs`, with its range.
    pub fn parse_value(&mut self, cs: &mut CharStream) -> (r: Result<Syntax, GlutenError>)
        requires
            old(cs).wf(),
        ensures
            final(cs).wf(),
            final(cs).text() == old(cs).text(),
            final(self).reader.read_table == old(self).reader.read_table,
            (tree_result(r), final(cs).pos(), final(self).reader.package@) == read_tree(
                old(self).reader.read_table@,
                old(cs).text(),
                old(cs).pos(),
                old(self).reader.package@,
            ),
    {
        read_syntax(&mut self.reader, cs)
    }
}

/// Reads one form as [`default_read_fn`] does, wrapping it and every form
/// read within it in its range.
pub fn read_syntax(reader: &mut Reader, cs: &mut CharStream) -> (r: Result<Syntax, GlutenError>)
    requires
        old(cs).wf(),
    ensures
        final(cs).wf(),
        final(cs).text() == old(cs).text(),
        final(reader).read_table == old(reader).read_table,
        (tree_result(r), final(cs).pos(), final(reader).package@) == read_tree(
            old(reader).read_table@,
            old(cs).text(),
            old(cs).pos(),
            old(reader).package@,
        ),
    decreases old(cs).text().len() - old(cs).pos(), 0nat,
{
    let ghost s = cs.text();
    let ghost p = cs.pos();
    let ghost t = reader.read_table@;
    let ghost pkg = reader.package@;
    proof {
        lemma_skip_ws(s, p);
    }
    skip_whitespace(cs);
    let c = match cs.peek() {
        Some(c) => c,
        None => {
            return Err(read_error("unexpected EOS"));
        },
    };
    let start_byte = cs.byte_offset();
    let start_pos = cs.position();
    let ghost q = cs.pos();
    proof {
        assert(skip_ws(s, q) == q);
    }
    let inner = match reader.read_table.get(c) {
        Some(ReadMacro::List) => {
            cs.next();
            read_syntax_list(reader, cs)
        },
        Some(ReadMacro::Quote) => {
            cs.next();
            read_syntax_prefixed(reader, cs, "quote")
        },
        Some(ReadMacro::Backquote) => {
            cs.next();
            read_syntax_prefixed(reader, cs, "quasiquote")
        },
        Some(ReadMacro::Comma) => {
            cs.next();
            read_syntax_comma(reader, cs)
        },
        _ => match default_read_fn(reader, cs) {
            Ok(v) => Ok(Syntax::Leaf(v)),
            Err(e) => Err(e),
        },
    };
    let x = match inner {
        Ok(x) => x,
        Err(e) => {
            return Err(e);
        },
    };
    proof {
        law_read_tree_strips(t, s, p, pkg);
        lemma_read_value_pos(t, s, p, pkg);
    }
    let start = start_byte as i32;
    let end = if cs.position() < cs.len() {
        cs.byte_offset() as i32
    } else {
        let n: usize = cs.len() - start_pos;
        let n64 = n as u64;
        let rest = n64 as i32;
        let e = ((start as i64) + (rest as i64)) as i32;
        proof {
            assert(n64 == s.len() - q);
            assert(e == (start + n64) as i32) by (bit_vector)
                requires
                    rest == n64 as i32,
                    e == ((start as i64) + (rest as i64)) as i32,
            ;
        }
        e
    };
    Ok(Syntax::Meta(Box::new(x), SRange { start, end }))
}

/// Reads the rest of a list whose `(` has been taken, with ranges.
fn read_syntax_list(reader: &mut Reader, cs: &mut CharStream) -> (r: Result<Syntax, GlutenError>)
    requires
        old(cs).wf(),
    ensures
        final(cs).wf(),
        final(cs).text() == old(cs).text(),
        final(reader).read_table == old(reader).read_table,
        (tree_result(r), final(cs).pos(), final(reader).package@) == read_tree_list(
            old(reader).read_table@,
            old(cs).text(),
            old(cs).pos(),
            old(reader).package@,
        ),
    decreases old(cs).text().len() - old(cs).pos(), 2nat,
{
    let ghost s = cs.text();
    let ghost p0 = cs.pos();
    let ghost pkg0 = reader.package@;
    let ghost t0 = reader.read_table@;
    let mut vec: Vec<Syntax> = Vec::new();
    proof {
        lemma_tree_seq(vec@);
    }
    assert(tree_seq(vec@) =~= Seq::<Tree>::empty());
    loop
        invariant_except_break
            read_tree_items(t0, s, p0, pkg0, Seq::empty()) == read_tree_items(
                t0,
                s,
                cs.pos(),
                reader.package@,
                tree_seq(vec@),
            ),
        invariant
            cs.wf(),
            cs.text() == s,
            s == old(cs).text(),
            p0 == old(cs).pos(),
            pkg0 == old(reader).package@,
            t0 == old(reader).read_table@,
            reader.read_table == old(reader).read_table,
            p0 <= cs.pos() <= s.len(),
        ensures
            cs.wf(),
            cs.text() == s,
            reader.read_table == old(reader).read_table,
            read_tree_items(t0, s, p0, pkg0, Seq::empty()) == (tree_seq(vec@), cs.pos(), reader.package@),
        decreases s.len() - cs.pos(),
    {
        let ghost p = cs.pos();
        let ghost pkg = reader.package@;
        proof {
            law_read_tree_strips(t0, s, p, pkg);
            lemma_read_value_pos(t0, s, p, pkg);
        }
        match read_syntax(reader, cs) {
            Ok(val) => {
                let ghost v = val@;
                let ghost before = vec@;
                vec.push(val);
                proof {
                    assert(tree_seq(vec@) =~= tree_seq(before).push(v)) by {
                        lemma_tree_seq(vec@);
                        lemma_tree_seq(before);
                        assert(vec@.drop_last() =~= before);
                    }
                }
            },
            Err(_) => {
                break;
            },
        }
    }
    proof {
        assert(strip_all(Seq::<Tree>::empty()) =~= Seq::<Value>::empty());
        lemma_read_tree_items(t0, s, p0, pkg0, Seq::empty());
        lemma_read_items_pos(t0, s, p0, pkg0, Seq::empty());
        lemma_skip_ws(s, cs.pos());
    }
    skip_whitespace(cs);
    match cs.next() {
        Some(c) => {
            if c == ')' {
                Ok(Syntax::List(vec))
            } else {
                Err(read_error("closing parenthesis missing"))
            }
        },
        None => Err(read_error("closing parenthesis missing")),
    }
}

/// Reads the form after a quote-like prefix as `(name form)`, with ranges.
fn read_syntax_prefixed(reader: &mut Reader, cs: &mut CharStream, name: &str) -> (r: Result<Syntax, GlutenError>)
    requires
        old(cs).wf(),
    ensures
        final(cs).wf(),
        final(cs).text() == old(cs).text(),
        final(reader).read_table == old(reader).read_table,
        (tree_result(r), final(cs).pos(), final(reader).package@) == read_tree_prefixed(
            old(reader).read_table@,
            old(cs).text(),
            old(cs).pos(),
            old(reader).package@,
            name@,
        ),
    decreases old(cs).text().len() - old(cs).pos(), 2nat,
{
    let val = read_syntax(reader, cs)?;
    let head = reader.package.intern(&String::from_str(name));
    let mut vec: Vec<Syntax> = Vec::new();
    vec.push(Syntax::Leaf(head));
    vec.push(val);
    proof {
        lemma_tree_seq(vec@);
    }
    assert(tree_seq(vec@) =~= seq![vec@[0]@, vec@[1]@]);
    Ok(Syntax::List(vec))
}

/// Reads the form after `,` as `(unquote form)`, or after `,@` as
/// `(unquote-splicing form)`, with ranges.
fn read_syntax_comma(reader: &mut Reader, cs: &mut CharStream) -> (r: Result<Syntax, GlutenError>)
    requires
        old(cs).wf(),
    ensures
        final(cs).wf(),
        final(cs).text() == old(cs).text(),
        final(reader).read_table == old(reader).read_table,
        (tree_result(r), final(cs).pos(), final(reader).package@) == read_tree_comma(
            old(reader).read_table@,
            old(cs).text(),
            old(cs).pos(),
            old(reader).package@,
        ),
    decreases old(cs).text().len() - old(cs).pos(), 2nat,
{
    let splicing = match cs.peek() {
        Some(c) => c == '@',
        None => false,
    };
    let op = if splicing {
        cs.next();
        reader.package.intern(&String::from_str("unquote-splicing"))
    } else {
        reader.package.intern(&String::from_str("unquote"))
    };
    let val = read_syntax(reader, cs)?;
    let mut vec: Vec<Syntax> = Vec::new();
    vec.push(Syntax::Leaf(op));
    vec.push(val);
    proof {
        lemma_tree_seq(vec@);
    }
    assert(tree_seq(vec@) =~= seq![vec@[0]@, vec@[1]@]);
    Ok(Syntax::List(vec))
}

} // verus!
