use gluten::chars::CharStream;
use gluten::data::{Symbol, Val};
use gluten::env::Interp;
use gluten::error::GlutenError;
use gluten::package::Package;
use gluten::parse::parse;
use gluten::reader::Reader;
use gluten::string_pool::StringPool;
use gluten::syntax_tree::{make_syntax_tree_reader, SRange, Syntax};
use gluten::data::Env;

fn show(v: &Val) -> String {
    match v {
        Val::Str(s) => s.clone(),
        Val::Vec(items) => {
            let parts: Vec<String> = items.iter().map(show).collect();
            format!("({})", parts.join(" "))
        }
        _ => "#?#".to_string(),
    }
}

#[test]
fn string_pool_interns_once() {
    let mut pool = StringPool::new();
    let a = pool.intern("abc");
    let b = pool.intern("def");
    let c = pool.intern("abc");
    assert_eq!(a, c);
    assert_ne!(a, b);
    assert_eq!(pool.len(), 2);
    assert_eq!(pool.try_intern("def"), Some(b));
    assert_eq!(pool.try_intern("xyz"), None);
    assert_eq!(pool.resolve(a), "abc");
}

#[test]
fn simple_parser_reads_words_lists_and_quotes() {
    assert_eq!(show(&parse("(quote a)").unwrap()), "(quote a)");
    assert_eq!(show(&parse("  (add3 (parse_int 'x1) y.z_w)").unwrap()), "(add3 (parse_int (quote x1)) y.z_w)");
    assert_eq!(show(&parse("abc def").unwrap()), "abc");
    assert_eq!(show(&parse("(a b").unwrap()), "(a b)");
    assert_eq!(parse("").unwrap_err(), "unexpected EOS");
    assert_eq!(parse(")").unwrap_err(), "unexpected EOS");
    assert_eq!(parse("(a ]").unwrap_err(), "closing parenthesis missing");
    assert_eq!(parse("'").unwrap_err(), "unexpected EOS");
}

fn range_of(x: &Syntax) -> SRange {
    match x {
        Syntax::Meta(_, r) => *r,
        _ => panic!("no range"),
    }
}

fn inner(x: &Syntax) -> &Syntax {
    match x {
        Syntax::Meta(b, _) => b,
        _ => panic!("no range"),
    }
}

#[test]
fn ranges_of_forms() {
    let src = "  (+ 1 2)  hé";
    let mut st = make_syntax_tree_reader(Reader::default());
    let mut cs = CharStream::new(src);
    let x = st.parse_value(&mut cs).unwrap();
    assert_eq!(range_of(&x), SRange { start: 2, end: 9 });
    match inner(&x) {
        Syntax::List(items) => {
            assert_eq!(items.len(), 3);
            assert_eq!(range_of(&items[0]), SRange { start: 3, end: 4 });
            assert_eq!(range_of(&items[1]), SRange { start: 5, end: 6 });
            assert_eq!(range_of(&items[2]), SRange { start: 7, end: 8 });
        }
        _ => panic!("not a list"),
    }
    let y = st.parse_value(&mut cs).unwrap();
    assert_eq!(range_of(&y), SRange { start: 11, end: 13 });
    assert!(st.parse_value(&mut cs).is_err());
}

#[test]
fn every_nested_form_has_its_range() {
    let src = "(a  bc)";
    let mut st = make_syntax_tree_reader(Reader::default());
    let m = st.parse(src).unwrap();
    assert_eq!(range_of(&m), SRange { start: 0, end: 7 });
    match inner(&m) {
        Syntax::List(items) => {
            assert_eq!(items.len(), 2);
            assert_eq!(range_of(&items[0]), SRange { start: 1, end: 2 });
            assert_eq!(range_of(&items[1]), SRange { start: 4, end: 6 });
            assert!(matches!(inner(&items[0]), Syntax::Leaf(Val::Symbol(_))));
        }
        _ => panic!("not a list"),
    }
    let q = st.parse("'x").unwrap();
    assert_eq!(range_of(&q), SRange { start: 0, end: 2 });
    match inner(&q) {
        Syntax::List(items) => {
            assert_eq!(items.len(), 2);
            assert!(matches!(items[0], Syntax::Leaf(Val::Symbol(_))));
            assert_eq!(range_of(&items[1]), SRange { start: 1, end: 2 });
        }
        _ => panic!("not a list"),
    }
    let all = st.parse_top_level(" \"s\" b").unwrap();
    assert_eq!(all.len(), 2);
    assert_eq!(range_of(&all[0]), SRange { start: 1, end: 4 });
    assert!(matches!(inner(&all[0]), Syntax::Leaf(Val::Str(_))));
    assert_eq!(range_of(&all[1]), SRange { start: 5, end: 6 });
    assert!(st.parse("(a").is_err());
}

#[test]
fn messages() {
    let mut package = Package::new();
    let x = package.intern_symbol(&"x".to_string());
    assert_eq!(GlutenError::Unbound(x).message(&package), "Unbound Symbol: x");
    assert_eq!(GlutenError::Unbound(Symbol(7)).message(&package), "Unbound Symbol: #7");
    assert_eq!(GlutenError::ReadFailed("oops".to_string()).message(&package), "Read failed: oops");
    assert_eq!(GlutenError::Str("plain".to_string()).message(&package), "plain");
    let stacked = GlutenError::Stacked(
        "f".to_string(),
        Box::new(GlutenError::Stacked("g".to_string(), Box::new(GlutenError::Str("bad".to_string())))),
    );
    assert_eq!(stacked.message(&package), "bad\nin g\nin f");
    assert_eq!(GlutenError::Frozen(Val::True, Val::True).message(&package), "Frozen...");
    assert_eq!(GlutenError::NotFunction(Val::Int(-42)).message(&package), "Not a function: -42");
    assert_eq!(GlutenError::NotFunction(Val::Symbol(x)).message(&package), "Not a function: Symbol(\"x\")");
    assert_eq!(GlutenError::NotFunction(Val::False).message(&package), "Not a function: false");
}

#[test]
fn debug_strings() {
    let package = Package::new();
    assert_eq!(Val::Vec(vec![]).debug_string(&package), "vec#");
    assert_eq!(Val::Int(0).debug_string(&package), "0");
    assert_eq!(Val::Int(i64::MIN).debug_string(&package), "-9223372036854775808");
    assert_eq!(Val::Int(1234567).debug_string(&package), "1234567");
    assert_eq!(Val::True.debug_string(&package), "true");
    assert_eq!(Val::Str("s".to_string()).debug_string(&package), "any#");
    assert_eq!(Val::Symbol(Symbol(3)).debug_string(&package), "Symbol(#3)");
}

#[test]
fn environments_read_back_what_was_written() {
    let mut interp = Interp::new(Reader::default());
    let root = Env::new(&mut interp);
    let child = root.child(&mut interp);
    let x = Symbol(0);
    let y = Symbol(1);
    assert!(root.get(&interp, x).is_none());
    root.insert(&mut interp, x, Val::Int(1));
    assert!(matches!(root.get(&interp, x), Some(Val::Int(1))));
    assert!(matches!(child.get(&interp, x), Some(Val::Int(1))));
    child.insert(&mut interp, x, Val::Int(2));
    assert!(matches!(child.get(&interp, x), Some(Val::Int(2))));
    assert!(matches!(root.get(&interp, x), Some(Val::Int(1))));
    assert!(child.get(&interp, y).is_none());
    let other = Env::new(&mut interp);
    assert!(other.get(&interp, x).is_none());
    assert_eq!(interp.frame_count(), 3);
    assert_eq!(root.clone(), root);
}

#[test]
fn interning_across_calls() {
    let mut package = Package::new();
    let a = package.intern(&"a".to_string());
    package.intern(&"b".to_string());
    package.intern(&"c".to_string());
    let a2 = package.intern(&"a".to_string());
    let d = package.intern(&"d".to_string());
    match (&a, &a2, &d) {
        (Val::Symbol(x), Val::Symbol(y), Val::Symbol(z)) => {
            assert_eq!(x, y);
            assert_ne!(x, z);
            assert_eq!(package.name(*x), "a");
        }
        _ => panic!("not symbols"),
    }
    assert!(matches!(package.try_intern(&"a".to_string()), Some(Val::Symbol(Symbol(0)))));
    assert!(package.try_intern(&"e".to_string()).is_none());
    assert_eq!(package.len(), 4);

    let mut pool = StringPool::new();
    let h = pool.intern("x");
    pool.intern("y");
    assert_eq!(pool.try_intern("x"), Some(h));
    assert_eq!(pool.intern("x"), h);
    assert_eq!(pool.resolve(h), "x");
    assert_eq!(pool.try_intern("z"), None);
    assert_eq!(pool.len(), 2);
}
