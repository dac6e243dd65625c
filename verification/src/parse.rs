use vstd::prelude::*;
use crate::chars::{spec_is_whitespace, is_whitespace, push_char};
use crate::data::{Val, Value, seq_view};

verus! {

// A small reader of an earlier form of the language: atoms of letters, digits,
// `_` and `.` read as strings, lists, and `'x` as `("quote" x)`.

/// Whether `c` is alphabetic or numeric in Unicode, as `char::is_alphanumeric` decides.
pub uninterp spec fn char_is_alphanumeric(c: char) -> bool;

/// `char::is_alphanumeric`. Its contract names the result `char_is_alphanumeric(c)`,
/// a function of `c` alone; which characters the Unicode tables of std count is
/// left unsaid.
#[verifier::external_body]
fn is_alphanumeric(c: char) -> (r: bool)
    ensures
        r == char_is_alphanumeric(c),
{
    c.is_alphanumeric()
}

/// Characters that may stand in an atom.
pub open spec fn is_word_char(c: char) -> bool {
    char_is_alphanumeric(c) || c == '_' || c == '.'
}

/// The first position at or after `p` that is not whitespace.
pub open spec fn skip_blank(s: Seq<char>, p: int) -> int
    decreases s.len() - p,
{
    if 0 <= p < s.len() && spec_is_whitespace(s[p]) {
        skip_blank(s, p + 1)
    } else {
        p
    }
}

/// The end of the word that starts at `p`.
pub open spec fn word_end(s: Seq<char>, p: int) -> int
    decreases s.len() - p,
{
    if 0 <= p < s.len() && is_word_char(s[p]) {
        word_end(s, p + 1)
    } else {
        p
    }
}

/// Reading a form from `p`: the form and where it ends, or a message.
pub open spec fn parse_form(s: Seq<char>, p: int) -> Result<(Value, int), Seq<char>>
    decreases s.len() - p, 0nat,
{
    let q = skip_blank(s, p);
    if q < p || q < 0 || q >= s.len() {
        Err("unexpected EOS"@)
    } else if s[q] == '(' {
        parse_list_rest(s, q + 1, Seq::empty())
    } else if s[q] == '\'' {
        match parse_form(s, q + 1) {
            Ok((v, e)) => Ok((Value::List(seq![Value::Str("quote"@), v]), e)),
            Err(m) => Err(m),
        }
    } else if is_word_char(s[q]) {
        let e = word_end(s, q + 1);
        Ok((Value::Str(s.subrange(q, e)), e))
    } else {
        Err("unexpected EOS"@)
    }
}

/// Reading the rest of a list from `p`, after the elements `acc`.
pub open spec fn parse_list_rest(s: Seq<char>, p: int, acc: Seq<Value>) -> Result<(Value, int), Seq<char>>
    decreases s.len() - p, 1nat,
{
    match parse_form(s, p) {
        Ok((v, e)) => if p < e <= s.len() {
            parse_list_rest(s, e, acc.push(v))
        } else {
            Err("unexpected EOS"@)
        },
        Err(_) => {
            let q = skip_blank(s, p);
            if 0 <= q < s.len() {
                if s[q] == ')' {
                    Ok((Value::List(acc), q + 1))
                } else {
                    Err("closing parenthesis missing"@)
                }
            } else {
                Ok((Value::List(acc), q))
            }
        },
    }
}

proof fn lemma_skip_blank(s: Seq<char>, p: int)
    requires
        0 <= p <= s.len(),
    ensures
        p <= skip_blank(s, p) <= s.len(),
    decreases s.len() - p,
{
    if p < s.len() && spec_is_whitespace(s[p]) {
        lemma_skip_blank(s, p + 1);
    }
}

proof fn lemma_word_end(s: Seq<char>, p: int)
    requires
        0 <= p <= s.len(),
    ensures
        p <= word_end(s, p) <= s.len(),
    decreases s.len() - p,
{
    if p < s.len() && is_word_char(s[p]) {
        lemma_word_end(s, p + 1);
    }
}

proof fn lemma_parse_form_pos(s: Seq<char>, p: int)
    requires
        0 <= p <= s.len(),
    ensures
        parse_form(s, p) matches Ok((_, e)) ==> p < e <= s.len(),
    decreases s.len() - p, 0nat,
{
    lemma_skip_blank(s, p);
    let q = skip_blank(s, p);
    if q < s.len() {
        if s[q] == '(' {
            lemma_parse_list_pos(s, q + 1, Seq::empty());
        } else if s[q] == '\'' {
            lemma_parse_form_pos(s, q + 1);
        } else if is_word_char(s[q]) {
            lemma_word_end(s, q + 1);
        }
    }
}

proof fn lemma_parse_list_pos(s: Seq<char>, p: int, acc: Seq<Value>)
    requires
        0 <= p <= s.len(),
    ensures
        parse_list_rest(s, p, acc) matches Ok((_, e)) ==> p <= e <= s.len(),
    decreases s.len() - p, 1nat,
{
    lemma_parse_form_pos(s, p);
    match parse_form(s, p) {
        Ok((v, e)) => {
            lemma_parse_list_pos(s, e, acc.push(v));
        },
        Err(_) => {
            lemma_skip_blank(s, p);
        },
    }
}

/// The first position at or after `p` that is not whitespace.
pub fn skip_whitespace(cs: &Vec<char>, p: usize) -> (r: usize)
    requires
        p <= cs@.len(),
    ensures
        r == skip_blank(cs@, p as int),
{
    let mut q = p;
    while q < cs.len() && is_whitespace(cs[q])
        invariant
            p <= q <= cs@.len(),
            skip_blank(cs@, q as int) == skip_blank(cs@, p as int),
        decreases cs@.len() - q,
    {
        q += 1;
    }
    q
}

fn parse_value(cs: &Vec<char>, p: usize) -> (r: Result<(Val, usize), String>)
    requires
        p <= cs@.len(),
    ensures
        match r {
            Ok((v, e)) => parse_form(cs@, p as int) == Ok::<(Value, int), Seq<char>>((v@, e as int)),
            Err(m) => parse_form(cs@, p as int) == Err::<(Value, int), Seq<char>>(m@),
        },
    decreases cs@.len() - p, 0nat,
{
    proof {
        lemma_skip_blank(cs@, p as int);
    }
    let q = skip_whitespace(cs, p);
    if q >= cs.len() {
        return Err(String::from_str("unexpected EOS"));
    }
    let c = cs[q];
    if c == '(' {
        assert(seq_view(Seq::<Val>::empty()) =~= Seq::<Value>::empty());
        parse_list(cs, q + 1, Vec::new())
    } else if c == '\'' {
        match parse_value(cs, q + 1) {
            Ok((v, e)) => {
                let mut items: Vec<Val> = Vec::new();
                items.push(Val::Str(String::from_str("quote")));
                items.push(v);
                assert(seq_view(items@) =~= seq![Value::Str("quote"@), items@[1]@]);
                Ok((Val::Vec(items), e))
            },
            Err(m) => Err(m),
        }
    } else if is_alphanumeric(c) || c == '_' || c == '.' {
        let mut word = String::new();
        push_char(&mut word, c);
        let mut e = q + 1;
        while e < cs.len() && (is_alphanumeric(cs[e]) || cs[e] == '_' || cs[e] == '.')
            invariant
                q < e <= cs@.len(),
                word@ == cs@.subrange(q as int, e as int),
                word_end(cs@, e as int) == word_end(cs@, q + 1),
            decreases cs@.len() - e,
        {
            push_char(&mut word, cs[e]);
            e += 1;
            assert(word@ =~= cs@.subrange(q as int, e as int));
        }
        Ok((Val::Str(word), e))
    } else {
        Err(String::from_str("unexpected EOS"))
    }
}

fn parse_list(cs: &Vec<char>, p: usize, acc: Vec<Val>) -> (r: Result<(Val, usize), String>)
    requires
        p <= cs@.len(),
    ensures
        match r {
            Ok((v, e)) => parse_list_rest(cs@, p as int, seq_view(acc@)) == Ok::<(Value, int), Seq<char>>((v@, e as int)),
            Err(m) => parse_list_rest(cs@, p as int, seq_view(acc@)) == Err::<(Value, int), Seq<char>>(m@),
        },
    decreases cs@.len() - p, 1nat,
{
    proof {
        lemma_parse_form_pos(cs@, p as int);
    }
    match parse_value(cs, p) {
        Ok((v, e)) => {
            let ghost av = seq_view(acc@);
            let ghost vv = v@;
            let mut acc2 = acc;
            acc2.push(v);
            assert(seq_view(acc2@) =~= av.push(vv));
            parse_list(cs, e, acc2)
        },
        Err(_) => {
            proof {
                lemma_skip_blank(cs@, p as int);
            }
            let q = skip_whitespace(cs, p);
            if q < cs.len() {
                if cs[q] == ')' {
                    Ok((Val::Vec(acc), q + 1))
                } else {
                    Err(String::from_str("closing parenthesis missing"))
                }
            } else {
                Ok((Val::Vec(acc), q))
            }
        },
    }
}

/// Reads the first form of `src`; what follows it is not read.
pub fn parse(src: &str) -> (r: Result<Val, String>)
    ensures
        match r {
            Ok(v) => parse_form(src@, 0) matches Ok((f, _)) && f == v@,
            Err(m) => parse_form(src@, 0) == Err::<(Value, int), Seq<char>>(m@),
        },
{
    let mut cs: Vec<char> = Vec::new();
    for c in it: src.chars()
        invariant
            cs@ == it.seq().take(it.index() as int),
    {
        cs.push(c);
    }
    assert(cs@ =~= src@);
    match parse_value(&cs, 0) {
        Ok((v, _)) => Ok(v),
        Err(m) => Err(m),
    }
}

} // verus!
