use gluten::data::{Symbol, Val};
use gluten::error::GlutenError;
use gluten::package::Package;
use gluten::reader::{make_default_read_table, ReadMacro, ReadTable, Reader};

fn sym(reader: &Reader, v: &Val) -> String {
    match v {
        Val::Symbol(s) => reader.package.name(*s).clone(),
        _ => panic!("not a symbol"),
    }
}

fn show(reader: &Reader, v: &Val) -> String {
    match v {
        Val::Symbol(_) => sym(reader, v),
        Val::Str(s) => format!("{:?}", s),
        Val::Int(i) => format!("{}", i),
        Val::Vec(items) => {
            let parts: Vec<String> = items.iter().map(|x| show(reader, x)).collect();
            format!("({})", parts.join(" "))
        }
        Val::True => "true".to_string(),
        Val::False => "false".to_string(),
        _ => "#?#".to_string(),
    }
}

fn read_failed(r: Result<Val, GlutenError>) -> String {
    match r {
        Err(GlutenError::ReadFailed(m)) => m,
        _ => panic!("expected a read failure"),
    }
}

#[test]
fn reads_an_atom_as_an_interned_symbol() {
    let mut reader = Reader::default();
    let a = reader.parse("hello").unwrap();
    let b = reader.parse("  hello ").unwrap();
    match (&a, &b) {
        (Val::Symbol(x), Val::Symbol(y)) => assert_eq!(x, y),
        _ => panic!("not symbols"),
    }
    assert_eq!(sym(&reader, &a), "hello");
    assert_eq!(reader.package.len(), 1);
}

#[test]
fn reads_lists_and_quotes() {
    let mut reader = Reader::default();
    let v = reader.parse("(a (b c) 'd `e ,f ,@g)").unwrap();
    assert_eq!(
        show(&reader, &v),
        "(a (b c) (quote d) (quasiquote e) (unquote f) (unquote-splicing g))"
    );
}

#[test]
fn reads_strings_with_escapes() {
    let mut reader = Reader::default();
    let v = reader.parse("\"a\\nb\\tc\\\"d\\\\e\\qz\"").unwrap();
    match v {
        Val::Str(s) => assert_eq!(s, "a\nb\tc\"d\\eqz"),
        _ => panic!("not a string"),
    }
    let v = reader.parse("\"こんにちは! さようなら\\n改行です\"").unwrap();
    match v {
        Val::Str(s) => assert_eq!(s, "こんにちは! さようなら\n改行です"),
        _ => panic!("not a string"),
    }
}

#[test]
fn skips_comments() {
    let mut reader = Reader::default();
    let forms = reader
        .parse_top_level("\n    ; hello\n    '1\n    '2\n    ; it's a comment\n    '3\n    (quote b)\n    'add\n    ; bye!\n    ")
        .unwrap();
    let shown: Vec<String> = forms.iter().map(|f| show(&reader, f)).collect();
    assert_eq!(shown, vec!["(quote 1)", "(quote 2)", "(quote 3)", "(quote b)", "(quote add)"]);
}

#[test]
fn top_level_of_empty_and_blank_text() {
    let mut reader = Reader::default();
    assert_eq!(reader.parse_top_level("").unwrap().len(), 0);
    match reader.parse_top_level(" ") {
        Err(GlutenError::ReadFailed(m)) => assert_eq!(m, "unexpected EOS"),
        _ => panic!("expected an error"),
    }
}

#[test]
fn read_errors() {
    let mut reader = Reader::default();
    assert_eq!(read_failed(reader.parse("")), "unexpected EOS");
    assert_eq!(read_failed(reader.parse("(quote 1")), "closing parenthesis missing");
    assert_eq!(read_failed(reader.parse("\"abc")), "closing doublequote");
    assert_eq!(read_failed(reader.parse("\"abc\\")), "expect a charactor but found EOS");
    assert_eq!(read_failed(reader.parse("a b")), "expect EOS, but found some character");
    assert_eq!(read_failed(reader.parse(")")), "unexpected character: ')' as 0");
    assert_eq!(read_failed(reader.parse("  )")), "unexpected character: ')' as 2");
    assert_eq!(read_failed(reader.parse("é)")), "expect EOS, but found some character");
    match reader.parse_top_level("é )") {
        Err(GlutenError::ReadFailed(m)) => assert_eq!(m, "unexpected character: ')' as 3"),
        _ => panic!("expected an error"),
    }
    assert_eq!(read_failed(reader.parse("')")), "unexpected character: ')' as 1");
}

#[test]
fn a_failed_element_ends_a_list() {
    let mut reader = Reader::default();
    let v = reader.parse("(a ,)").unwrap();
    assert_eq!(show(&reader, &v), "(a)");
    let v = reader.parse("( (a ') b)").unwrap();
    assert_eq!(show(&reader, &v), "((a) b)");
}

#[test]
fn atoms_may_hold_backquote_and_comma() {
    let mut reader = Reader::default();
    let v = reader.parse("a`b,c").unwrap();
    assert_eq!(sym(&reader, &v), "a`b,c");
}

#[test]
fn package_interns_once() {
    let mut package = Package::new();
    let a = package.intern_symbol(&"x".to_string());
    let b = package.intern_symbol(&"y".to_string());
    let c = package.intern_symbol(&"x".to_string());
    assert_eq!(a, c);
    assert_ne!(a, b);
    assert_eq!(package.len(), 2);
    assert!(package.try_intern(&"z".to_string()).is_none());
    match package.try_intern(&"y".to_string()) {
        Some(Val::Symbol(s)) => assert_eq!(s, Symbol(1)),
        _ => panic!("missing"),
    }
}

#[test]
fn default_read_table_entries() {
    let t = make_default_read_table();
    assert_eq!(t.get('('), Some(ReadMacro::List));
    assert_eq!(t.get('\''), Some(ReadMacro::Quote));
    assert_eq!(t.get('`'), Some(ReadMacro::Backquote));
    assert_eq!(t.get(','), Some(ReadMacro::Comma));
    assert_eq!(t.get('"'), Some(ReadMacro::Str));
    assert_eq!(t.get(')'), None);
    assert_eq!(t.get('a'), None);
}

#[test]
fn read_table_insert_get_remove() {
    let mut t = ReadTable::new();
    assert_eq!(t.get('['), None);
    t.insert('[', ReadMacro::List);
    t.insert('[', ReadMacro::Quote);
    assert_eq!(t.get('['), Some(ReadMacro::Quote));
    t.insert('!', ReadMacro::Str);
    assert_eq!(t.remove('['), Some(ReadMacro::Quote));
    assert_eq!(t.get('['), None);
    assert_eq!(t.get('!'), Some(ReadMacro::Str));
    assert_eq!(t.remove('['), None);
}

#[test]
fn a_custom_entry_starts_a_form() {
    let mut reader = Reader::default();
    reader.read_table.insert('[', ReadMacro::List);
    let v = reader.parse("[a b)").unwrap();
    assert_eq!(show(&reader, &v), "(a b)");
    reader.read_table.insert('!', ReadMacro::Quote);
    let v = reader.parse("!x").unwrap();
    assert_eq!(show(&reader, &v), "(quote x)");
}

#[test]
fn a_removed_entry_reads_as_an_atom() {
    let mut reader = Reader::default();
    reader.read_table.remove('`');
    let v = reader.parse("`a").unwrap();
    assert_eq!(sym(&reader, &v), "`a");
    reader.read_table.remove('(');
    assert_eq!(read_failed(reader.parse("(a)")), "unexpected character: '(' as 0");
}

#[test]
fn top_level_of_one_form_is_that_form() {
    let mut whole = Reader::default();
    let v = whole.parse(" (a 'b) ; done").unwrap();
    let mut top = Reader::default();
    let vs = top.parse_top_level(" (a 'b) ; done").unwrap();
    assert_eq!(vs.len(), 1);
    assert_eq!(show(&whole, &v), show(&top, &vs[0]));
    assert_eq!(whole.package.len(), top.package.len());
}
