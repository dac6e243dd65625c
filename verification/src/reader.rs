use vstd::prelude::*;
use crate::chars::{
    spec_is_whitespace, is_whitespace, char_debug, debug_char, decimal, push_decimal, byte_index,
    CharStream, push_char,
};
use crate::data::{Val, Value, seq_view};
use crate::error::{GlutenError, Error, result_view, read_error};
use crate::package::{Package, spec_intern};

verus! {

// ---------------------------------------------------------------------------
// The grammar, as functions from the text and a position to what is read and
// where reading stops. Positions count characters.
// ---------------------------------------------------------------------------

/// What a character of the read table starts: a list, a quoted form, a
/// quasiquoted form, an unquoted form, or a string.
#[derive(Clone, Copy, Debug, PartialEq, Eq)]
pub enum ReadMacro {
    List,
    Quote,
    Backquote,
    Comma,
    Str,
}

/// What the table `t` gives for `c`: its latest entry for `c`, if any.
pub open spec fn table_get(t: Seq<(char, ReadMacro)>, c: char) -> Option<ReadMacro>
    decreases t.len(),
{
    if t.len() == 0 {
        None
    } else if t.last().0 == c {
        Some(t.last().1)
    } else {
        table_get(t.drop_last(), c)
    }
}

/// The entries of the default read table.
pub open spec fn default_read_macro(c: char) -> Option<ReadMacro> {
    if c == '(' {
        Some(ReadMacro::List)
    } else if c == '\'' {
        Some(ReadMacro::Quote)
    } else if c == '`' {
        Some(ReadMacro::Backquote)
    } else if c == ',' {
        Some(ReadMacro::Comma)
    } else if c == '"' {
        Some(ReadMacro::Str)
    } else {
        None
    }
}

/// Characters that end an atom besides whitespace.
pub open spec fn is_except_char(c: char) -> bool {
    c == '(' || c == ')' || c == '\'' || c == '"' || c == ';'
}

/// Characters that may stand in an atom.
pub open spec fn is_atom_char(c: char) -> bool {
    !spec_is_whitespace(c) && !is_except_char(c)
}

/// Where a comment whose text starts at `q` stops: just after the first line
/// break, or at the end of the text.
pub open spec fn skip_comment(s: Seq<char>, q: int) -> int
    decreases s.len() - q,
{
    if q < 0 || q >= s.len() {
        q
    } else if s[q] == '\n' || s[q] == '\r' {
        q + 1
    } else {
        skip_comment(s, q + 1)
    }
}

/// The first position at or after `p` that is neither whitespace nor in a comment.
pub open spec fn skip_ws(s: Seq<char>, p: int) -> int
    decreases s.len() - p,
{
    if p < 0 || p >= s.len() {
        p
    } else if s[p] == ';' {
        let q = skip_comment(s, p + 1);
        if p < q <= s.len() {
            skip_ws(s, q)
        } else {
            q
        }
    } else if spec_is_whitespace(s[p]) {
        skip_ws(s, p + 1)
    } else {
        p
    }
}

/// The end of the atom that starts at `q`.
pub open spec fn atom_end(s: Seq<char>, q: int) -> int
    decreases s.len() - q,
{
    if q < 0 || q >= s.len() {
        q
    } else if is_atom_char(s[q]) {
        atom_end(s, q + 1)
    } else {
        q
    }
}

/// The character that `\c` stands for in a string.
pub open spec fn spec_unescape(c: char) -> char {
    if c == 'n' {
        '\n'
    } else if c == 'r' {
        '\r'
    } else if c == 't' {
        '\t'
    } else {
        c
    }
}

/// Reading the rest of a string whose opening quote stands before `p`, with
/// `acc` read so far: the string or the error, and where reading stopped.
pub open spec fn read_string_from(s: Seq<char>, p: int, acc: Seq<char>) -> (Result<Value, Error>, int)
    decreases s.len() - p,
{
    if p < 0 || p >= s.len() {
        (Err(Error::ReadFailed("closing doublequote"@)), p)
    } else if s[p] == '"' {
        (Ok(Value::Str(acc)), p + 1)
    } else if s[p] == '\\' {
        if p + 1 >= s.len() {
            (Err(Error::ReadFailed("expect a charactor but found EOS"@)), p + 1)
        } else {
            read_string_from(s, p + 2, acc.push(spec_unescape(s[p + 1])))
        }
    } else {
        read_string_from(s, p + 1, acc.push(s[p]))
    }
}

/// The message for a character that cannot start a form, at byte `b`.
pub open spec fn unexpected_char_message(c: char, b: nat) -> Seq<char> {
    "unexpected character: "@ + char_debug(c) + " as "@ + decimal(b)
}

/// Reading one form from position `p` with the package holding `pkg`:
/// the form or the error, where reading stopped, and the package afterwards.
pub open spec fn read_value(t: Seq<(char, ReadMacro)>, s: Seq<char>, p: int, pkg: Seq<Seq<char>>) -> (Result<Value, Error>, int, Seq<Seq<char>>)
    decreases s.len() - p, 0nat,
{
    let q = skip_ws(s, p);
    if q < 0 || q >= s.len() {
        (Err(Error::ReadFailed("unexpected EOS"@)), q, pkg)
    } else if q < p {
        (Err(Error::ReadFailed("unexpected EOS"@)), q, pkg)
    } else {
        let c = s[q];
        match table_get(t, c) {
            Some(ReadMacro::List) => read_list_from(t, s, q + 1, pkg),
            Some(ReadMacro::Quote) => read_prefixed(t, s, q + 1, pkg, "quote"@),
            Some(ReadMacro::Backquote) => read_prefixed(t, s, q + 1, pkg, "quasiquote"@),
            Some(ReadMacro::Comma) => read_comma_from(t, s, q + 1, pkg),
            Some(ReadMacro::Str) => {
                let (r, e) = read_string_from(s, q + 1, Seq::empty());
                (r, e, pkg)
            },
            None => if is_atom_char(c) {
                let e = atom_end(s, q);
                let (pkg2, id) = spec_intern(pkg, s.subrange(q, e));
                (Ok(Value::Symbol(id)), e, pkg2)
            } else {
                (Err(Error::ReadFailed(unexpected_char_message(c, byte_index(s, q)))), q, pkg)
            },
        }
    }
}

/// Reading forms from `p` for as long as they read, after `acc`: the forms,
/// where the first failing read stopped, and the package afterwards.
pub open spec fn read_items(t: Seq<(char, ReadMacro)>, s: Seq<char>, p: int, pkg: Seq<Seq<char>>, acc: Seq<Value>) -> (Seq<Value>, int, Seq<Seq<char>>)
    decreases s.len() - p, 1nat,
{
    let (r, q, pkg2) = read_value(t, s, p, pkg);
    match r {
        Ok(v) => if p < q <= s.len() {
            read_items(t, s, q, pkg2, acc.push(v))
        } else {
            (acc.push(v), q, pkg2)
        },
        Err(_) => (acc, q, pkg2),
    }
}

/// Reading the rest of a list whose `(` stands before `p`.
pub open spec fn read_list_from(t: Seq<(char, ReadMacro)>, s: Seq<char>, p: int, pkg: Seq<Seq<char>>) -> (Result<Value, Error>, int, Seq<Seq<char>>)
    decreases s.len() - p, 2nat,
{
    let (items, q, pkg2) = read_items(t, s, p, pkg, Seq::empty());
    let q2 = skip_ws(s, q);
    if 0 <= q2 < s.len() && s[q2] == ')' {
        (Ok(Value::List(items)), q2 + 1, pkg2)
    } else {
        (
            Err(Error::ReadFailed("closing parenthesis missing"@)),
            if 0 <= q2 < s.len() { q2 + 1 } else { q2 },
            pkg2,
        )
    }
}

/// Reading the form after a quote-like prefix and wrapping it as `(name form)`.
pub open spec fn read_prefixed(t: Seq<(char, ReadMacro)>, s: Seq<char>, p: int, pkg: Seq<Seq<char>>, name: Seq<char>) -> (Result<Value, Error>, int, Seq<Seq<char>>)
    decreases s.len() - p, 2nat,
{
    let (r, q, pkg2) = read_value(t, s, p, pkg);
    match r {
        Ok(v) => {
            let (pkg3, id) = spec_intern(pkg2, name);
            (Ok(Value::List(seq![Value::Symbol(id), v])), q, pkg3)
        },
        Err(e) => (Err(e), q, pkg2),
    }
}

/// Whether a comma at `p - 1` is followed by `@`.
pub open spec fn is_splicing(s: Seq<char>, p: int) -> bool {
    0 <= p < s.len() && s[p] == '@'
}

/// Reading the rest of `,form` or `,@form` whose comma stands before `p`.
pub open spec fn read_comma_from(t: Seq<(char, ReadMacro)>, s: Seq<char>, p: int, pkg: Seq<Seq<char>>) -> (Result<Value, Error>, int, Seq<Seq<char>>)
    decreases s.len() - p, 2nat,
{
    let splicing = is_splicing(s, p);
    let p1 = if splicing { p + 1 } else { p };
    let (pkg1, id) = spec_intern(pkg, if splicing { "unquote-splicing"@ } else { "unquote"@ });
    let (r, q, pkg2) = read_value(t, s, p1, pkg1);
    match r {
        Ok(v) => (Ok(Value::List(seq![Value::Symbol(id), v])), q, pkg2),
        Err(e) => (Err(e), q, pkg2),
    }
}

/// Reading a whole text as one form: the form or the error, and the package afterwards.
pub open spec fn read_whole(t: Seq<(char, ReadMacro)>, s: Seq<char>, pkg: Seq<Seq<char>>) -> (Result<Value, Error>, Seq<Seq<char>>) {
    let (r, q, pkg2) = read_value(t, s, 0, pkg);
    match r {
        Ok(v) => if skip_ws(s, q) >= s.len() {
            (Ok(v), pkg2)
        } else {
            (Err(Error::ReadFailed("expect EOS, but found some character"@)), pkg2)
        },
        Err(e) => (Err(e), pkg2),
    }
}

/// Reading the forms of a text from `p` on, after `acc`.
pub open spec fn read_all(t: Seq<(char, ReadMacro)>, s: Seq<char>, p: int, pkg: Seq<Seq<char>>, acc: Seq<Value>) -> (Result<Seq<Value>, Error>, Seq<Seq<char>>)
    decreases s.len() - p,
{
    if p < 0 || p >= s.len() {
        (Ok(acc), pkg)
    } else {
        let (r, q, pkg2) = read_value(t, s, p, pkg);
        match r {
            Err(e) => (Err(e), pkg2),
            Ok(v) => {
                let q2 = skip_ws(s, q);
                if p < q2 <= s.len() {
                    read_all(t, s, q2, pkg2, acc.push(v))
                } else {
                    (Ok(acc.push(v)), pkg2)
                }
            },
        }
    }
}

// ---------------------------------------------------------------------------
// Where reading stops.
// ---------------------------------------------------------------------------

pub proof fn lemma_skip_comment(s: Seq<char>, q: int)
    requires
        0 <= q <= s.len(),
    ensures
        q <= skip_comment(s, q) <= s.len(),
    decreases s.len() - q,
{
    if q < s.len() && !(s[q] == '\n' || s[q] == '\r') {
        lemma_skip_comment(s, q + 1);
    }
}

pub proof fn lemma_skip_ws(s: Seq<char>, p: int)
    requires
        0 <= p <= s.len(),
    ensures
        p <= skip_ws(s, p) <= s.len(),
        skip_ws(s, p) < s.len() ==> !spec_is_whitespace(s[skip_ws(s, p)]) && s[skip_ws(s, p)] != ';',
    decreases s.len() - p,
{
    if p < s.len() {
        if s[p] == ';' {
            lemma_skip_comment(s, p + 1);
            lemma_skip_ws(s, skip_comment(s, p + 1));
        } else if spec_is_whitespace(s[p]) {
            lemma_skip_ws(s, p + 1);
        }
    }
}

pub proof fn lemma_atom_end(s: Seq<char>, q: int)
    requires
        0 <= q <= s.len(),
    ensures
        q <= atom_end(s, q) <= s.len(),
        q < s.len() && is_atom_char(s[q]) ==> q < atom_end(s, q),
        forall|i: int| q <= i < atom_end(s, q) ==> is_atom_char(#[trigger] s[i]),
        atom_end(s, q) < s.len() ==> !is_atom_char(s[atom_end(s, q)]),
    decreases s.len() - q,
{
    if q < s.len() && is_atom_char(s[q]) {
        lemma_atom_end(s, q + 1);
    }
}

pub proof fn lemma_read_string_pos(s: Seq<char>, p: int, acc: Seq<char>)
    requires
        0 <= p <= s.len(),
    ensures
        p <= read_string_from(s, p, acc).1 <= s.len(),
    decreases s.len() - p,
{
    if p < s.len() && s[p] != '"' {
        if s[p] == '\\' {
            if p + 1 < s.len() {
                lemma_read_string_pos(s, p + 2, acc.push(spec_unescape(s[p + 1])));
            }
        } else {
            lemma_read_string_pos(s, p + 1, acc.push(s[p]));
        }
    }
}

/// Reading never moves backwards nor past the end, and a form that reads
/// takes at least one character.
pub proof fn lemma_read_value_pos(t: Seq<(char, ReadMacro)>, s: Seq<char>, p: int, pkg: Seq<Seq<char>>)
    requires
        0 <= p <= s.len(),
    ensures
        p <= read_value(t, s, p, pkg).1 <= s.len(),
        read_value(t, s, p, pkg).0 is Ok ==> p < read_value(t, s, p, pkg).1,
    decreases s.len() - p, 0nat,
{
    lemma_skip_ws(s, p);
    let q = skip_ws(s, p);
    if q < s.len() {
        let c = s[q];
        match table_get(t, c) {
            Some(ReadMacro::List) => lemma_read_list_pos(t, s, q + 1, pkg),
            Some(ReadMacro::Quote) => lemma_read_prefixed_pos(t, s, q + 1, pkg, "quote"@),
            Some(ReadMacro::Backquote) => lemma_read_prefixed_pos(t, s, q + 1, pkg, "quasiquote"@),
            Some(ReadMacro::Comma) => lemma_read_comma_pos(t, s, q + 1, pkg),
            Some(ReadMacro::Str) => lemma_read_string_pos(s, q + 1, Seq::empty()),
            None => if is_atom_char(c) {
                lemma_atom_end(s, q);
            },
        }
    }
}

pub proof fn lemma_read_items_pos(t: Seq<(char, ReadMacro)>, s: Seq<char>, p: int, pkg: Seq<Seq<char>>, acc: Seq<Value>)
    requires
        0 <= p <= s.len(),
    ensures
        p <= read_items(t, s, p, pkg, acc).1 <= s.len(),
    decreases s.len() - p, 1nat,
{
    lemma_read_value_pos(t, s, p, pkg);
    let (r, q, pkg2) = read_value(t, s, p, pkg);
    if r is Ok {
        lemma_read_items_pos(t, s, q, pkg2, acc.push(r->Ok_0));
    }
}

pub proof fn lemma_read_list_pos(t: Seq<(char, ReadMacro)>, s: Seq<char>, p: int, pkg: Seq<Seq<char>>)
    requires
        0 <= p <= s.len(),
    ensures
        p <= read_list_from(t, s, p, pkg).1 <= s.len(),
    decreases s.len() - p, 2nat,
{
    lemma_read_items_pos(t, s, p, pkg, Seq::empty());
    lemma_skip_ws(s, read_items(t, s, p, pkg, Seq::empty()).1);
}

pub proof fn lemma_read_prefixed_pos(t: Seq<(char, ReadMacro)>, s: Seq<char>, p: int, pkg: Seq<Seq<char>>, name: Seq<char>)
    requires
        0 <= p <= s.len(),
    ensures
        p <= read_prefixed(t, s, p, pkg, name).1 <= s.len(),
    decreases s.len() - p, 2nat,
{
    lemma_read_value_pos(t, s, p, pkg);
}

pub proof fn lemma_read_comma_pos(t: Seq<(char, ReadMacro)>, s: Seq<char>, p: int, pkg: Seq<Seq<char>>)
    requires
        0 <= p <= s.len(),
    ensures
        p <= read_comma_from(t, s, p, pkg).1 <= s.len(),
    decreases s.len() - p, 2nat,
{
    let splicing = is_splicing(s, p);
    let p1 = if splicing { p + 1 } else { p };
    let (pkg1, id) = spec_intern(pkg, if splicing { "unquote-splicing"@ } else { "unquote"@ });
    lemma_read_value_pos(t, s, p1, pkg1);
}

} // verus!

verus! {

broadcast use CharStream::lemma_pos_in_text;

// ---------------------------------------------------------------------------
// The reader.
// ---------------------------------------------------------------------------

/// Which characters start which kind of form, beside atoms.
pub struct ReadTable {
    entries: Vec<(char, ReadMacro)>,
}

impl View for ReadTable {
    type V = Seq<(char, ReadMacro)>;

    closed spec fn view(&self) -> Seq<(char, ReadMacro)> {
        self.entries@
    }
}

impl ReadTable {
    /// A table with no entries.
    pub fn new() -> (r: ReadTable)
        ensures
            forall|c: char| #[trigger] table_get(r@, c) is None,
    {
        ReadTable { entries: Vec::new() }
    }

    /// Makes `c` start forms of kind `m`, in place of what it started before.
    pub fn insert(&mut self, c: char, m: ReadMacro)
        ensures
            forall|d: char| #[trigger] table_get(final(self)@, d) == if d == c {
                Some(m)
            } else {
                table_get(old(self)@, d)
            },
    {
        self.entries.push((c, m));
        proof {
            assert(self@.drop_last() =~= old(self)@);
        }
    }

    /// What `c` starts, if anything.
    pub fn get(&self, c: char) -> (r: Option<ReadMacro>)
        ensures
            r == table_get(self@, c),
    {
        let mut i: usize = self.entries.len();
        assert(self@.take(i as int) =~= self@);
        while i > 0
            invariant
                i <= self.entries.len(),
                table_get(self@, c) == table_get(self@.take(i as int), c),
            decreases i,
        {
            let e = self.entries[i - 1];
            proof {
                assert(self@.take(i as int).drop_last() =~= self@.take(i - 1));
            }
            if e.0 == c {
                return Some(e.1);
            }
            i = i - 1;
        }
        None
    }

    /// Makes `c` start nothing; gives what it started.
    pub fn remove(&mut self, c: char) -> (r: Option<ReadMacro>)
        ensures
            r == table_get(old(self)@, c),
            forall|d: char| #[trigger] table_get(final(self)@, d) == if d == c {
                None
            } else {
                table_get(old(self)@, d)
            },
    {
        let r = self.get(c);
        let ghost old_entries = self@;
        let mut kept: Vec<(char, ReadMacro)> = Vec::new();
        let mut i: usize = 0;
        while i < self.entries.len()
            invariant
                i <= self.entries.len(),
                self@ == old_entries,
                forall|d: char| #[trigger] table_get(kept@, d) == if d == c {
                    None
                } else {
                    table_get(old_entries.take(i as int), d)
                },
            decreases self.entries.len() - i,
        {
            let e = self.entries[i];
            let ghost before = kept@;
            proof {
                assert(old_entries.take(i + 1).drop_last() =~= old_entries.take(i as int));
            }
            if e.0 != c {
                kept.push(e);
                proof {
                    assert(kept@.drop_last() =~= before);
                }
            }
            proof {
                assert forall|d: char| #[trigger] table_get(kept@, d) == if d == c {
                    None
                } else {
                    table_get(old_entries.take(i + 1), d)
                } by {
                    assert(old_entries.take(i + 1).last() == e);
                    assert(old_entries.take(i + 1).drop_last() =~= old_entries.take(i as int));
                    assert(table_get(before, d) == if d == c {
                        None
                    } else {
                        table_get(old_entries.take(i as int), d)
                    });
                    if e.0 != c {
                        assert(kept@.last() == e);
                        assert(kept@.drop_last() =~= before);
                    } else {
                        assert(kept@ == before);
                    }
                }
            }
            i = i + 1;
        }
        proof {
            assert(old_entries.take(i as int) =~= old_entries);
        }
        self.entries = kept;
        r
    }
}

/// The table a reader starts with: `(` starts a list, `'` a quoted form,
/// a backquote a quasiquoted form, `,` an unquoted form and `"` a string.
pub fn make_default_read_table() -> (r: ReadTable)
    ensures
        forall|c: char| #[trigger] table_get(r@, c) == default_read_macro(c),
{
    let mut t = ReadTable::new();
    t.insert('(', ReadMacro::List);
    t.insert('\'', ReadMacro::Quote);
    t.insert('`', ReadMacro::Backquote);
    t.insert(',', ReadMacro::Comma);
    t.insert('"', ReadMacro::Str);
    t
}

/// Reads source text into forms, interning atoms as symbols of its package.
pub struct Reader {
    pub read_table: ReadTable,
    pub package: Package,
}

impl Reader {
    /// A reader with the default read table whose atoms are interned in `package`.
    pub fn new(package: Package) -> (r: Reader)
        ensures
            r.package == package,
            forall|c: char| #[trigger] table_get(r.read_table@, c) == default_read_macro(c),
    {
        Reader { read_table: make_default_read_table(), package }
    }

    /// Reads the whole of `src` as exactly one form, with nothing but
    /// whitespace and comments after it.
    pub fn parse(&mut self, src: &str) -> (r: Result<Val, GlutenError>)
        ensures
            final(self).read_table == old(self).read_table,
            (result_view(r), final(self).package@) == read_whole(old(self).read_table@, src@, old(self).package@),
    {
        let mut cs = CharStream::new(src);
        let r = self.parse_value(&mut cs);
        match r {
            Ok(val) => {
                skip_whitespace(&mut cs);
                proof {
                    lemma_read_value_pos(old(self).read_table@, src@, 0, old(self).package@);
                }
                if cs.peek().is_none() {
                    Ok(val)
                } else {
                    Err(read_error("expect EOS, but found some character"))
                }
            },
            Err(e) => Err(e),
        }
    }

    /// Reads every form of `src`, in order.
    pub fn parse_top_level(&mut self, src: &str) -> (r: Result<Vec<Val>, GlutenError>)
        ensures
            final(self).read_table == old(self).read_table,
            (match r {
                Ok(v) => Ok(seq_view(v@)),
                Err(e) => Err(e@),
            }, final(self).package@) == read_all(old(self).read_table@, src@, 0, old(self).package@, Seq::empty()),
    {
        let mut vec: Vec<Val> = Vec::new();
        let mut cs = CharStream::new(src);
        let ghost s = src@;
        assert(seq_view(vec@) =~= Seq::<Value>::empty());
        while cs.peek().is_some()
            invariant
                s == src@,
                cs.wf(),
                cs.text() == s,
                0 <= cs.pos() <= s.len(),
                self.read_table == old(self).read_table,
                read_all(self.read_table@, s, 0, old(self).package@, Seq::empty()) == read_all(
                    self.read_table@,
                    s,
                    cs.pos(),
                    self.package@,
                    seq_view(vec@),
                ),
            decreases s.len() - cs.pos(),
        {
            let ghost p = cs.pos();
            let ghost pkg = self.package@;
            let val = self.parse_value(&mut cs)?;
            proof {
                lemma_read_value_pos(self.read_table@, s, p, pkg);
                lemma_skip_ws(s, cs.pos());
            }
            let ghost v = val@;
            let ghost before = vec@;
            vec.push(val);
            skip_whitespace(&mut cs);
            proof {
                assert(seq_view(vec@) =~= seq_view(before).push(v)) by {
                    assert(vec@.drop_last() =~= before);
                }
            }
        }
        Ok(vec)
    }

    /// Reads one form from `cs`.
    pub fn parse_value(&mut self, cs: &mut CharStream) -> (r: Result<Val, GlutenError>)
        requires
            old(cs).wf(),
        ensures
            final(cs).wf(),
            final(cs).text() == old(cs).text(),
            final(self).read_table == old(self).read_table,
            (result_view(r), final(cs).pos(), final(self).package@) == read_value(
                old(self).read_table@,
                old(cs).text(),
                old(cs).pos(),
                old(self).package@,
            ),
    {
        default_read_fn(self, cs)
    }
}

impl Default for Reader {
    fn default() -> (r: Reader)
        ensures
            r.package@ == Seq::<Seq<char>>::empty(),
            forall|c: char| #[trigger] table_get(r.read_table@, c) == default_read_macro(c),
    {
        Reader::new(Package::new())
    }
}

/// Skips whitespace and `;` comments.
pub fn skip_whitespace(cs: &mut CharStream)
    requires
        old(cs).wf(),
    ensures
        final(cs).wf(),
        final(cs).text() == old(cs).text(),
        final(cs).pos() == skip_ws(old(cs).text(), old(cs).pos()),
{
    let ghost s = cs.text();
    loop
        invariant_except_break
            skip_ws(s, cs.pos()) == skip_ws(s, old(cs).pos()),
        invariant
            cs.wf(),
            cs.text() == s,
            s == old(cs).text(),
            0 <= cs.pos() <= s.len(),
        ensures
            cs.wf(),
            cs.text() == s,
            cs.pos() == skip_ws(s, old(cs).pos()),
        decreases s.len() - cs.pos(),
    {
        match cs.peek() {
            Some(c) => {
                if c == ';' {
                    let ghost p = cs.pos();
                    let ghost target = skip_comment(s, cs.pos() + 1);
                    proof {
                        lemma_skip_comment(s, cs.pos() + 1);
                    }
                    cs.next();
                    loop
                        invariant_except_break
                            skip_comment(s, cs.pos()) == target,
                        invariant
                            cs.wf(),
                            cs.text() == s,
                            0 <= cs.pos() <= s.len(),
                        ensures
                            cs.wf(),
                            cs.text() == s,
                            cs.pos() == target,
                        decreases s.len() - cs.pos(),
                    {
                        match cs.next() {
                            Some(d) => {
                                if d == '\n' || d == '\r' {
                                    break;
                                }
                            },
                            None => {
                                break;
                            },
                        }
                    }
                    assert(skip_ws(s, p) == skip_ws(s, target));
                } else if is_whitespace(c) {
                    cs.next();
                } else {
                    break;
                }
            },
            None => {
                break;
            },
        }
    }
}

/// Whether `c` ends an atom besides whitespace.
fn is_except(c: char) -> (r: bool)
    ensures
        r == is_except_char(c),
{
    c == '(' || c == ')' || c == '\'' || c == '"' || c == ';'
}

/// The default way to read one form: skip whitespace and comments, then read a
/// list, a quoted form, a string or an atom, which is interned as a symbol.
pub fn default_read_fn(reader: &mut Reader, cs: &mut CharStream) -> (r: Result<Val, GlutenError>)
    requires
        old(cs).wf(),
    ensures
        final(cs).wf(),
        final(cs).text() == old(cs).text(),
        final(reader).read_table == old(reader).read_table,
        (result_view(r), final(cs).pos(), final(reader).package@) == read_value(
            old(reader).read_table@,
            old(cs).text(),
            old(cs).pos(),
            old(reader).package@,
        ),
    decreases old(cs).text().len() - old(cs).pos(), 0nat,
{
    let ghost s = cs.text();
    proof {
        lemma_skip_ws(s, cs.pos());
    }
    skip_whitespace(cs);
    match cs.peek() {
        Some(c) => {
            if let Some(m) = reader.read_table.get(c) {
                cs.next();
                match m {
                    ReadMacro::List => read_list(reader, cs),
                    ReadMacro::Quote => read_quote(reader, cs),
                    ReadMacro::Backquote => read_backquote(reader, cs),
                    ReadMacro::Comma => read_comma(reader, cs),
                    ReadMacro::Str => read_string(reader, cs),
                }
            } else if !is_whitespace(c) && !is_except(c) {
                let ghost q = cs.pos();
                proof {
                    lemma_atom_end(s, q);
                }
                let mut name = String::new();
                cs.next();
                push_char(&mut name, c);
                loop
                    invariant
                        cs.wf(),
                        cs.text() == s,
                        q < cs.pos() <= atom_end(s, q),
                        atom_end(s, q) <= s.len(),
                        name@ == s.subrange(q, cs.pos()),
                        forall|i: int| q <= i < atom_end(s, q) ==> is_atom_char(#[trigger] s[i]),
                        atom_end(s, q) < s.len() ==> !is_atom_char(s[atom_end(s, q)]),
                    ensures
                        cs.wf(),
                        cs.text() == s,
                        cs.pos() == atom_end(s, q),
                        name@ == s.subrange(q, cs.pos()),
                    decreases s.len() - cs.pos(),
                {
                    match cs.peek() {
                        Some(d) => {
                            if is_whitespace(d) || is_except(d) {
                                break;
                            }
                            cs.next();
                            push_char(&mut name, d);
                            assert(name@ =~= s.subrange(q, cs.pos()));
                        },
                        None => {
                            break;
                        },
                    }
                }
                default_atom_reader(&mut reader.package, &name)
            } else {
                let mut msg = String::from_str("unexpected character: ");
                let shown = debug_char(c);
                msg.append(shown.as_str());
                msg.append(" as ");
                push_decimal(cs.byte_offset(), &mut msg);
                Err(GlutenError::ReadFailed(msg))
            }
        },
        None => Err(read_error("unexpected EOS")),
    }
}

/// Reads the rest of a list whose `(` has been taken.
pub fn read_list(reader: &mut Reader, cs: &mut CharStream) -> (r: Result<Val, GlutenError>)
    requires
        old(cs).wf(),
    ensures
        final(cs).wf(),
        final(cs).text() == old(cs).text(),
        final(reader).read_table == old(reader).read_table,
        (result_view(r), final(cs).pos(), final(reader).package@) == read_list_from(
            old(reader).read_table@,
            old(cs).text(),
            old(cs).pos(),
            old(reader).package@,
        ),
    decreases old(cs).text().len() - old(cs).pos(), 2nat,
{
    let ghost s = cs.text();
    let ghost p0 = cs.pos();
    let ghost pkg0 = reader.package@;
    let ghost t0 = reader.read_table@;
    let mut vec: Vec<Val> = Vec::new();
    assert(seq_view(vec@) =~= Seq::<Value>::empty());
    loop
        invariant_except_break
            read_items(t0, s, p0, pkg0, Seq::empty()) == read_items(
                t0,
                s,
                cs.pos(),
                reader.package@,
                seq_view(vec@),
            ),
        invariant
            cs.wf(),
            cs.text() == s,
            s == old(cs).text(),
            p0 == old(cs).pos(),
            pkg0 == old(reader).package@,
            t0 == old(reader).read_table@,
            reader.read_table == old(reader).read_table,
            p0 <= cs.pos() <= s.len(),
        ensures
            cs.wf(),
            cs.text() == s,
            reader.read_table == old(reader).read_table,
            read_items(t0, s, p0, pkg0, Seq::empty()) == (seq_view(vec@), cs.pos(), reader.package@),
        decreases s.len() - cs.pos(),
    {
        let ghost p = cs.pos();
        let ghost pkg = reader.package@;
        proof {
            lemma_read_value_pos(t0, s, p, pkg);
        }
        match default_read_fn(reader, cs) {
            Ok(val) => {
                let ghost v = val@;
                let ghost before = vec@;
                vec.push(val);
                proof {
                    assert(seq_view(vec@) =~= seq_view(before).push(v)) by {
                        assert(vec@.drop_last() =~= before);
                    }
                }
            },
            Err(_) => {
                break;
            },
        }
    }
    proof {
        lemma_read_items_pos(t0, s, p0, pkg0, Seq::empty());
        lemma_skip_ws(s, cs.pos());
    }
    skip_whitespace(cs);
    match cs.next() {
        Some(c) => {
            if c == ')' {
                Ok(Val::Vec(vec))
            } else {
                Err(read_error("closing parenthesis missing"))
            }
        },
        None => Err(read_error("closing parenthesis missing")),
    }
}

/// Reads the form after `'` as `(quote form)`.
pub fn read_quote(reader: &mut Reader, cs: &mut CharStream) -> (r: Result<Val, GlutenError>)
    requires
        old(cs).wf(),
    ensures
        final(cs).wf(),
        final(cs).text() == old(cs).text(),
        final(reader).read_table == old(reader).read_table,
        (result_view(r), final(cs).pos(), final(reader).package@) == read_prefixed(
            old(reader).read_table@,
            old(cs).text(),
            old(cs).pos(),
            old(reader).package@,
            "quote"@,
        ),
    decreases old(cs).text().len() - old(cs).pos(), 2nat,
{
    let val = default_read_fn(reader, cs)?;
    let quote = reader.package.intern(&String::from_str("quote"));
    let mut vec: Vec<Val> = Vec::new();
    vec.push(quote);
    vec.push(val);
    let r = Val::Vec(vec);
    assert(seq_view(vec@) =~= seq![vec@[0]@, vec@[1]@]);
    Ok(r)
}

/// Reads the form after a backquote as `(quasiquote form)`.
pub fn read_backquote(reader: &mut Reader, cs: &mut CharStream) -> (r: Result<Val, GlutenError>)
    requires
        old(cs).wf(),
    ensures
        final(cs).wf(),
        final(cs).text() == old(cs).text(),
        final(reader).read_table == old(reader).read_table,
        (result_view(r), final(cs).pos(), final(reader).package@) == read_prefixed(
            old(reader).read_table@,
            old(cs).text(),
            old(cs).pos(),
            old(reader).package@,
            "quasiquote"@,
        ),
    decreases old(cs).text().len() - old(cs).pos(), 2nat,
{
    let val = default_read_fn(reader, cs)?;
    let quasiquote = reader.package.intern(&String::from_str("quasiquote"));
    let mut vec: Vec<Val> = Vec::new();
    vec.push(quasiquote);
    vec.push(val);
    let r = Val::Vec(vec);
    assert(seq_view(vec@) =~= seq![vec@[0]@, vec@[1]@]);
    Ok(r)
}

/// Reads the form after `,` as `(unquote form)`, or after `,@` as
/// `(unquote-splicing form)`.
pub fn read_comma(reader: &mut Reader, cs: &mut CharStream) -> (r: Result<Val, GlutenError>)
    requires
        old(cs).wf(),
    ensures
        final(cs).wf(),
        final(cs).text() == old(cs).text(),
        final(reader).read_table == old(reader).read_table,
        (result_view(r), final(cs).pos(), final(reader).package@) == read_comma_from(
            old(reader).read_table@,
            old(cs).text(),
            old(cs).pos(),
            old(reader).package@,
        ),
    decreases old(cs).text().len() - old(cs).pos(), 2nat,
{
    let splicing = match cs.peek() {
        Some(c) => c == '@',
        None => false,
    };
    let op = if splicing {
        cs.next();
        reader.package.intern(&String::from_str("unquote-splicing"))
    } else {
        reader.package.intern(&String::from_str("unquote"))
    };
    let val = default_read_fn(reader, cs)?;
    let mut vec: Vec<Val> = Vec::new();
    vec.push(op);
    vec.push(val);
    let r = Val::Vec(vec);
    assert(seq_view(vec@) =~= seq![vec@[0]@, vec@[1]@]);
    Ok(r)
}

/// The character that `\c` stands for in a string.
fn unescape(c: char) -> (r: char)
    ensures
        r == spec_unescape(c),
{
    if c == 'n' {
        '\n'
    } else if c == 'r' {
        '\r'
    } else if c == 't' {
        '\t'
    } else {
        c
    }
}

/// Reads the rest of a string whose opening `"` has been taken.
pub fn read_string(_reader: &mut Reader, cs: &mut CharStream) -> (r: Result<Val, GlutenError>)
    requires
        old(cs).wf(),
    ensures
        final(cs).wf(),
        final(cs).text() == old(cs).text(),
        *final(_reader) == *old(_reader),
        (result_view(r), final(cs).pos()) == read_string_from(
            old(cs).text(),
            old(cs).pos(),
            Seq::empty(),
        ),
{
    let ghost s = cs.text();
    let ghost p0 = cs.pos();
    let mut out = String::new();
    loop
        invariant_except_break
            read_string_from(s, p0, Seq::empty()) == read_string_from(s, cs.pos(), out@),
        invariant
            cs.wf(),
            cs.text() == s,
            s == old(cs).text(),
            p0 == old(cs).pos(),
            0 <= cs.pos() <= s.len(),
            *final(_reader) == *old(_reader),
        ensures
            cs.wf(),
            cs.text() == s,
            read_string_from(s, p0, Seq::empty()) == (Ok::<Value, Error>(Value::Str(out@)), cs.pos()),
        decreases s.len() - cs.pos(),
    {
        match cs.next() {
            Some(c) => {
                if c == '"' {
                    break;
                } else if c == '\\' {
                    match cs.next() {
                        Some(d) => {
                            push_char(&mut out, unescape(d));
                        },
                        None => {
                            return Err(read_error("expect a charactor but found EOS"));
                        },
                    }
                } else {
                    push_char(&mut out, c);
                }
            },
            None => {
                return Err(read_error("closing doublequote"));
            },
        }
    }
    Ok(Val::Str(out))
}

/// The default way to turn an atom into a value: the symbol of that name.
pub fn default_atom_reader(package: &mut Package, s: &String) -> (r: Result<Val, GlutenError>)
    ensures
        r matches Ok(v) && (final(package)@, v@) == ({
            let (names, i) = spec_intern(old(package)@, s@);
            (names, Value::Symbol(i))
        }),
{
    Ok(package.intern(s))
}

} // verus!
