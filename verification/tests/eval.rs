use gluten::data::{Env, Macro, NativeFn, Val};
use gluten::env::{Host, Interp};
use gluten::error::GlutenError;
use gluten::package::Package;
use gluten::reader::{ReadMacro, Reader};
use gluten::special_operators::insert_all;

const A: u64 = 0;
const VEC: u64 = 1;
const APPEND: u64 = 2;
const FREEZE: u64 = 3;
const VEC_LEN: u64 = 4;
const PARSE_INT: u64 = 5;
const ADD: u64 = 6;
const HELLO: u64 = 10;
const OR: u64 = 11;

struct TestHost {
    hello: Option<Val>,
    calls: usize,
}

fn copy(v: &Val) -> Val {
    v.duplicate()
}

impl Host for TestHost {
    fn call_fn(&mut self, id: u64, args: Vec<Val>) -> Result<Val, GlutenError> {
        self.calls += 1;
        match id {
            A => args.first().map(copy).ok_or_else(|| GlutenError::Str("no argument given".to_owned())),
            VEC => Ok(Val::Vec(args)),
            APPEND => {
                let mut ret = vec![];
                for v in args.into_iter() {
                    match v {
                        Val::Vec(items) => ret.extend(items),
                        _ => return Err(GlutenError::Str("argument type mismatch".to_owned())),
                    }
                }
                Ok(Val::Vec(ret))
            }
            FREEZE => Err(GlutenError::Frozen(copy(&args[0]), copy(&args[0]))),
            VEC_LEN => match args.first() {
                Some(Val::Vec(items)) => Ok(Val::Int(items.len() as i64)),
                Some(_) => Err(GlutenError::Str("vec-len 1st argument type is Vec<Val>".to_owned())),
                None => Err(GlutenError::Str("vec-len take 1 argument".to_owned())),
            },
            PARSE_INT => match args.first() {
                Some(Val::Str(s)) => Ok(Val::Int(s.parse().unwrap())),
                _ => Err(GlutenError::Str("parse_int takes a string".to_owned())),
            },
            ADD => match (&args[0], &args[1]) {
                (Val::Int(a), Val::Int(b)) => Ok(Val::Int(a + b)),
                _ => Err(GlutenError::Str("add takes integers".to_owned())),
            },
            _ => Err(GlutenError::Str("unknown function".to_owned())),
        }
    }

    fn call_macro(&mut self, id: u64, package: &mut Package, args: Vec<Val>) -> Result<Val, GlutenError> {
        self.calls += 1;
        match id {
            HELLO => Ok(copy(self.hello.as_ref().unwrap())),
            OR => {
                let let_sym = package.intern(&"let".to_string());
                let if_sym = package.intern(&"if".to_string());
                let mut ret = copy(args.last().unwrap());
                let mut i = 0;
                for val in args.iter().rev().skip(1) {
                    i += 1;
                    let sym = package.intern(&format!("#gensym{}#", i));
                    ret = Val::Vec(vec![
                        copy(&let_sym),
                        Val::Vec(vec![Val::Vec(vec![copy(&sym), copy(val)])]),
                        Val::Vec(vec![copy(&if_sym), copy(&sym), copy(&sym), ret]),
                    ]);
                }
                Ok(ret)
            }
            _ => Err(GlutenError::Str("unknown macro".to_owned())),
        }
    }
}

struct Gltn {
    interp: Interp,
    env: Env,
    host: TestHost,
}

impl Gltn {
    fn new() -> Gltn {
        let mut interp = Interp::new(Reader::default());
        let env = Env::new(&mut interp);
        insert_all(&mut interp, env);
        let mut g = Gltn { interp, env, host: TestHost { hello: None, calls: 0 } };
        g.insert("true", Val::True);
        g.insert("false", Val::False);
        g.insert("a", Val::Fn(NativeFn::Host(A)));
        g.insert("vec", Val::Fn(NativeFn::Host(VEC)));
        g.insert("append", Val::Fn(NativeFn::Host(APPEND)));
        g.insert("freeze", Val::Fn(NativeFn::Host(FREEZE)));
        g.insert("vec-len", Val::Fn(NativeFn::Host(VEC_LEN)));
        g.insert("parse_int", Val::Fn(NativeFn::Host(PARSE_INT)));
        g.insert("add", Val::Fn(NativeFn::Host(ADD)));
        g
    }

    fn insert(&mut self, name: &str, val: Val) {
        match self.interp.intern(&name.to_string()) {
            Val::Symbol(s) => self.env.insert(&mut self.interp, s, val),
            _ => unreachable!(),
        }
    }

    fn show(&self, v: &Val) -> String {
        match v {
            Val::Symbol(s) => self.interp.reader().package.name(*s).clone(),
            Val::Str(s) => format!("{:?}", s),
            Val::Int(i) => format!("{:?}", i),
            Val::Vec(items) => {
                let parts: Vec<String> = items.iter().map(|x| self.show(x)).collect();
                format!("({})", parts.join(" "))
            }
            _ => "#?#".to_string(),
        }
    }

    fn rep(&mut self, src: &str) -> Result<Vec<String>, GlutenError> {
        let forms = self.interp.parse_top_level(src)?;
        let mut out = vec![];
        for form in forms {
            let form = self.env.macro_expand(&mut self.interp, &mut self.host, form)?;
            let val = self.env.eval(&mut self.interp, &mut self.host, form)?;
            out.push(self.show(&val));
        }
        Ok(out)
    }

    fn rep1(&mut self, src: &str) -> String {
        let r = self.rep(src).unwrap();
        assert_eq!(r.len(), 1);
        r[0].clone()
    }
}

#[test]
fn quote_returns_its_operand() {
    let mut g = Gltn::new();
    assert_eq!(g.rep1("(quote a)"), "a");
    assert_eq!(g.rep1("'(a b)"), "(a b)");
}

#[test]
fn strings_evaluate_to_themselves() {
    let mut g = Gltn::new();
    assert_eq!(g.rep1("\"こんにちは! さようなら\\n改行です\""), "\"こんにちは! さようなら\\n改行です\"");
}

#[test]
fn native_functions_are_applied_to_evaluated_arguments() {
    let mut g = Gltn::new();
    assert_eq!(g.rep1("(parse_int \"123\")"), "123");
    assert_eq!(g.rep1("(add (parse_int \"123\") (parse_int \"123\"))"), "246");
    assert_eq!(g.rep1("(a 'x 'y)"), "x");
}

#[test]
fn if_picks_a_branch() {
    let mut g = Gltn::new();
    assert_eq!(g.rep1("(if true (quote yes) (quote no))"), "yes");
    assert_eq!(g.rep1("(if false (quote yes) (quote no))"), "no");
    assert_eq!(g.rep1("(if 'anything (quote yes) (quote no))"), "yes");
}

#[test]
fn let_binds_in_turn() {
    let mut g = Gltn::new();
    assert_eq!(g.rep1("(let ((x false) (y (quote yes)) (n (quote no))) (quote 1) (if x y n))"), "no");
    assert_eq!(g.rep1("(let ((x 'p) (y x)) y)"), "p");
}

#[test]
fn lambda_and_set() {
    let mut g = Gltn::new();
    assert_eq!(g.rep1("((lambda (a b) a b) (quote 1) (quote 2))"), "2");
    assert_eq!(g.rep1("(do (set f (lambda (a) a)) (f 'aaa))"), "aaa");
    assert_eq!(g.rep1("(f 'again)"), "again");
}

#[test]
fn several_forms() {
    let mut g = Gltn::new();
    assert_eq!(g.rep("'1 '2 '3 (quote b) 'add").unwrap(), vec!["1", "2", "3", "b", "add"]);
}

#[test]
fn frozen_evaluation_gives_a_continuation() {
    let mut g = Gltn::new();
    match g.rep("(vec 'a (freeze (vec 'b 'c)) 'd)") {
        Err(GlutenError::Frozen(val, cont)) => {
            assert_eq!(g.show(&val), "(b c)");
            let resumed = g.env.eval(&mut g.interp, &mut g.host, cont).unwrap();
            assert_eq!(g.show(&resumed), "(a (b c) d)");
        }
        _ => panic!("expected a frozen evaluation"),
    }
}

#[test]
fn host_macros_expand() {
    let mut g = Gltn::new();
    let hello = g.interp.parse("(quote hello_macro)").unwrap();
    g.host.hello = Some(hello);
    g.insert("hello_macro", Val::Macro(Macro::Host(HELLO)));
    assert_eq!(g.rep1("(hello_macro)"), "hello_macro");
    g.insert("or", Val::Macro(Macro::Host(OR)));
    assert_eq!(g.rep1("(or (or false false) 'hello 'goodbye)"), "hello");
}

#[test]
fn defmacro_defines_a_macro() {
    let mut g = Gltn::new();
    g.insert("defmacro", Val::Macro(Macro::Defmacro));
    assert_eq!(g.rep1("(do (defmacro my_quote (x) (vec 'quote x)) (my_quote aaa))"), "aaa");
}

#[test]
fn quasiquote_builds_lists() {
    let mut g = Gltn::new();
    g.insert("quasiquote", Val::Macro(Macro::Quasiquote));
    assert_eq!(g.rep1("(quasiquote (1 (unquote '2) (unquote-splicing (vec '3 (quasiquote 4)))))"), "(1 2 3 4)");
    assert_eq!(g.rep1("`(1 ,'2 ,@(vec '3 `4))"), "(1 2 3 4)");
    assert_eq!(g.rep1("`(a (b ,'c))"), "(a (b c))");
}

#[test]
fn evaluation_errors() {
    let mut g = Gltn::new();
    match g.rep("hogehoge") {
        Err(GlutenError::Unbound(s)) => assert_eq!(g.interp.reader().package.name(s), "hogehoge"),
        _ => panic!("expected an unbound symbol"),
    }
    match g.rep("(false)") {
        Err(GlutenError::NotFunction(v)) => assert_eq!(g.show(&v), "false"),
        _ => panic!("expected a non-function"),
    }
    match g.rep("(quote 1") {
        Err(GlutenError::ReadFailed(m)) => assert_eq!(m, "closing parenthesis missing"),
        _ => panic!("expected a read failure"),
    }
    match g.rep("(let ((f (lambda (x) (vec-len x)))) (f '123))") {
        Err(GlutenError::Stacked(outer, inner)) => {
            assert_eq!(outer, "let");
            match *inner {
                GlutenError::Stacked(name, inner) => {
                    assert_eq!(name, "f");
                    match *inner {
                        GlutenError::Stacked(name, inner) => {
                            assert_eq!(name, "vec-len");
                            match *inner {
                                GlutenError::Str(m) => assert_eq!(m, "vec-len 1st argument type is Vec<Val>"),
                                _ => panic!("expected a message"),
                            }
                        }
                        _ => panic!("expected a stacked error"),
                    }
                }
                _ => panic!("expected a stacked error"),
            }
        }
        _ => panic!("expected a stacked error"),
    }
}

#[test]
fn depth_is_limited() {
    let mut g = Gltn::new();
    g.interp.set_max_depth(20);
    match g.rep("(do (set loop (lambda (x) (loop x))) (loop 'a))") {
        Err(e) => {
            let mut e = e;
            loop {
                match e {
                    GlutenError::Stacked(_, inner) => e = *inner,
                    GlutenError::DepthExceeded => break,
                    other => panic!("expected the depth to run out: {:?}", other),
                }
            }
        }
        Ok(_) => panic!("expected an error"),
    }
}

#[test]
fn special_operator_errors() {
    let mut g = Gltn::new();
    match g.rep("(quote)") {
        Err(GlutenError::Stacked(name, inner)) => {
            assert_eq!(name, "quote");
            match *inner {
                GlutenError::Str(m) => assert_eq!(m, "invalid arguments"),
                _ => panic!("expected a message"),
            }
        }
        _ => panic!("expected an error"),
    }
    match g.rep("(set 'x 'y)") {
        Err(GlutenError::Stacked(_, inner)) => match *inner {
            GlutenError::Str(m) => assert_eq!(m, "illegal set"),
            _ => panic!("expected a message"),
        },
        _ => panic!("expected an error"),
    }
}

#[test]
fn host_calls_are_counted() {
    let mut g = Gltn::new();
    assert_eq!(g.rep1("(vec (vec) (vec))"), "(() ())");
    assert_eq!(g.host.calls, 3);
}

#[test]
fn default_nesting_limit_is_unbounded() {
    let interp = Interp::new(Reader::default());
    assert_eq!(interp.max_depth(), u64::MAX);
}

#[test]
fn quasiquote_of_plain_value_evaluates_back() {
    let mut g = Gltn::new();
    g.insert("quasiquote", Val::Macro(Macro::Quasiquote));
    assert_eq!(g.rep1("`(a (b c) () d)"), "(a (b c) () d)");
    assert_eq!(g.rep1("`x"), "x");
}

#[test]
fn defined_macro_expands_in_the_calling_environment() {
    let mut g = Gltn::new();
    g.insert("defmacro", Val::Macro(Macro::Defmacro));
    assert_eq!(
        g.rep1("(do (defmacro second (x y) (vec 'quote y)) (let ((z 'q)) (second a b)))"),
        "b"
    );
    assert_eq!(g.rep1("(second c d)"), "d");
}

#[test]
fn lambda_binds_in_the_defining_environment() {
    let mut g = Gltn::new();
    assert_eq!(
        g.rep1("(let ((x 'outer)) (let ((f (lambda (y) x))) (let ((x 'inner)) (f 'arg))))"),
        "outer"
    );
    assert_eq!(g.rep1("((lambda (a b) a b) '1 '2)"), "2");
    assert_eq!(g.rep1("((lambda (a b)) '1 '2)"), "()");
    assert_eq!(g.rep1("((lambda (a a) a) '1 '2)"), "2");
}

#[test]
fn read_table_survives_evaluation() {
    let mut reader = Reader::default();
    reader.read_table.insert('[', ReadMacro::List);
    let mut interp = Interp::new(reader);
    let env = Env::new(&mut interp);
    insert_all(&mut interp, env);
    let mut host = TestHost { hello: None, calls: 0 };
    let form = interp.parse("[quote a)").unwrap();
    let v = env.eval(&mut interp, &mut host, form).unwrap();
    assert!(matches!(v, Val::Symbol(_)));
    let again = interp.parse("[quote b)").unwrap();
    assert!(matches!(again, Val::Vec(_)));
}
