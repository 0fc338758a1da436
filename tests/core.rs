use rlisp::env::{env_bind, env_find, env_get, env_new, env_set, env_sets, Store};
use rlisp::reader::{read_seq, read_str, strip_comments, tokenize, Reader};
use rlisp::types::{
    assoc, atom, dissoc, error, format_error, func, hash_map, list, vector, Call, RlErr, RlRet,
    RlVal,
};

fn sym(s: &str) -> RlVal {
    RlVal::Sym(s.to_string())
}

fn string(s: &str) -> RlVal {
    RlVal::Str(s.to_string())
}

fn num(i: i64) -> RlVal {
    RlVal::Int(i)
}

fn message(r: RlRet) -> String {
    match r {
        Err(RlErr::ErrString(s)) => s,
        other => panic!("expected an error, got {:?}", other),
    }
}

fn hash_entries(v: &RlVal) -> Vec<(String, RlVal)> {
    match v {
        RlVal::Hash(h, _) => {
            let mut e: Vec<(String, RlVal)> = h.iter().cloned().collect();
            e.sort_by(|a, b| a.0.cmp(&b.0));
            e
        }
        other => panic!("expected a hash, got {:?}", other),
    }
}

// The host's table of built-ins, as an evaluator would hold it: index 0 adds.
fn run_builtin(id: usize, args: Vec<RlVal>) -> RlRet {
    match id {
        0 => {
            let mut total: i64 = 0;
            for a in args {
                match a {
                    RlVal::Int(i) => total += i,
                    _ => return error("+ wants integers"),
                }
            }
            Ok(RlVal::Int(total))
        }
        _ => error("no such built-in"),
    }
}

fn call(store: &mut Store, f: &RlVal, args: Vec<RlVal>) -> RlRet {
    match f.apply(store, args)? {
        Call::Builtin(id, a) => run_builtin(id, a),
        Call::Eval(body, _) => Ok(body),
    }
}

#[test]
fn meta_round_trip_leaves_original() {
    let v = list(vec![num(1)]);
    let held = v.clone();
    let w = v.with_meta(&string("m")).unwrap();
    assert_eq!(w.get_meta().unwrap(), string("m"));
    assert_eq!(v.get_meta().unwrap(), RlVal::Nil);
    assert_eq!(held.get_meta().unwrap(), RlVal::Nil);
    assert_eq!(w, v);
}

#[test]
fn meta_on_func_and_errors() {
    let f = func(3);
    let g = f.with_meta(&num(7)).unwrap();
    assert_eq!(g.get_meta().unwrap(), num(7));
    assert_eq!(message(num(1).get_meta()), "meta not supported by type");
    assert_eq!(message(sym("a").with_meta(&RlVal::Nil)), "with-meta not supported by type");
}

#[test]
fn hash_map_builds_and_validates() {
    let h = hash_map(vec![string("a"), num(1), string("b"), num(2), string("a"), num(3)]).unwrap();
    assert_eq!(hash_entries(&h), vec![("a".to_string(), num(3)), ("b".to_string(), num(2))]);
    assert_eq!(h.get_meta().unwrap(), RlVal::Nil);
    assert_eq!(message(hash_map(vec![string("a")])), "odd number of elements");
    assert_eq!(message(hash_map(vec![num(1), num(2)])), "key is not string");
    assert_eq!(hash_entries(&hash_map(vec![]).unwrap()), vec![]);
}

#[test]
fn assoc_and_dissoc() {
    let base = vec![("a".to_string(), num(1)), ("b".to_string(), num(2))];
    let h = assoc(base.clone(), vec![string("b"), num(5), string("c"), num(6)]).unwrap();
    assert_eq!(
        hash_entries(&h),
        vec![("a".to_string(), num(1)), ("b".to_string(), num(5)), ("c".to_string(), num(6))]
    );
    let d = dissoc(base, vec![string("a"), RlVal::Nil]).unwrap();
    assert_eq!(hash_entries(&d), vec![("b".to_string(), num(2))]);
    assert_eq!(message(dissoc(vec![], vec![string("a")])), "odd number of elements");
}

#[test]
fn hash_equality_ignores_order() {
    let a = hash_map(vec![string("x"), num(1), string("y"), num(2)]).unwrap();
    let b = hash_map(vec![string("y"), num(2), string("x"), num(1)]).unwrap();
    let c = hash_map(vec![string("y"), num(2), string("x"), num(9)]).unwrap();
    assert_eq!(a, b);
    assert_ne!(a, c);
}

#[test]
fn child_scope_shadows_without_touching_parent() {
    let mut store = Store::new();
    let root = env_new(&mut store, None);
    env_set(&mut store, root, sym("x"), num(1)).unwrap();
    let child = env_new(&mut store, Some(root));
    assert_eq!(env_set(&mut store, child, sym("x"), num(2)).unwrap(), num(2));
    assert_eq!(env_get(&store, child, &sym("x")).unwrap(), num(2));
    assert_eq!(env_get(&store, root, &sym("x")).unwrap(), num(1));
    assert_eq!(env_find(&store, child, "x"), Some(child));
    assert_eq!(env_find(&store, root, "x"), Some(root));
    assert_eq!(env_get(&store, root, &sym("x")).unwrap(), num(1));
}

#[test]
fn env_lookup_walks_outward_and_reports_missing() {
    let mut store = Store::new();
    let root = env_new(&mut store, None);
    env_sets(&mut store, root, "y", num(4));
    let child = env_new(&mut store, Some(root));
    assert_eq!(env_get(&store, child, &sym("y")).unwrap(), num(4));
    assert_eq!(env_find(&store, child, "y"), Some(root));
    assert_eq!(env_find(&store, child, "z"), None);
    assert_eq!(message(env_get(&store, child, &sym("z"))), "'z' not found");
    assert_eq!(message(env_get(&store, child, &num(1))), "Env.get called with non-Str");
    assert_eq!(message(env_set(&mut store, child, num(1), num(2))), "Env.set called with non-Str");
}

#[test]
fn variadic_binding() {
    let mut store = Store::new();
    let root = env_new(&mut store, None);
    let params = list(vec![sym("a"), sym("&"), sym("b")]);
    let e = env_bind(&mut store, Some(root), params.clone(), vec![num(1), num(2), num(3)]).unwrap();
    assert_eq!(env_get(&store, e, &sym("a")).unwrap(), num(1));
    let b = env_get(&store, e, &sym("b")).unwrap();
    assert!(matches!(b, RlVal::List(_, _)));
    assert_eq!(b, list(vec![num(2), num(3)]));
    let e2 = env_bind(&mut store, Some(root), params, vec![num(1)]).unwrap();
    assert_eq!(env_get(&store, e2, &sym("a")).unwrap(), num(1));
    assert_eq!(env_get(&store, e2, &sym("b")).unwrap(), list(vec![]));
}

#[test]
fn binding_errors() {
    let mut store = Store::new();
    assert_eq!(message(env_bind(&mut store, None, num(1), vec![]).map(|_| RlVal::Nil)), "env_bind binds not List/Vector");
    assert!(env_bind(&mut store, None, vector(vec![sym("a"), sym("b")]), vec![num(1)]).is_err());
    assert!(env_bind(&mut store, None, vector(vec![sym("a"), sym("&")]), vec![num(1)]).is_err());
    let e = env_bind(&mut store, None, vector(vec![sym("a"), sym("b")]), vec![num(1), num(2), num(3)]).unwrap();
    assert_eq!(env_get(&store, e, &sym("b")).unwrap(), num(2));
}

#[test]
fn reader_nested_list() {
    let v = read_str("(1 2 (3 4))".to_string()).unwrap();
    assert!(matches!(v, RlVal::List(_, _)));
    assert_eq!(v, list(vec![num(1), num(2), list(vec![num(3), num(4)])]));
    match &v {
        RlVal::List(items, _) => assert!(matches!(items[2], RlVal::List(_, _))),
        _ => unreachable!(),
    }
}

#[test]
fn reader_quote() {
    let v = read_str("'a".to_string()).unwrap();
    assert_eq!(v, list(vec![sym("quote"), sym("a")]));
}

#[test]
fn reader_meta_before_target() {
    let v = read_str("^{\"k\" 1} [1 2]".to_string()).unwrap();
    let items = match &v {
        RlVal::List(items, _) => items.clone(),
        other => panic!("expected a list, got {:?}", other),
    };
    assert_eq!(items.len(), 3);
    assert_eq!(items[0], sym("with-meta"));
    assert!(matches!(items[1], RlVal::Vector(_, _)));
    assert_eq!(items[1], vector(vec![num(1), num(2)]));
    assert_eq!(hash_entries(&items[2]), vec![("k".to_string(), num(1))]);
}

#[test]
fn reader_macros_and_atoms() {
    assert_eq!(read_str("`x".to_string()).unwrap(), list(vec![sym("quasiquote"), sym("x")]));
    assert_eq!(read_str("~x".to_string()).unwrap(), list(vec![sym("unquote"), sym("x")]));
    assert_eq!(read_str("~@x".to_string()).unwrap(), list(vec![sym("splice-unquote"), sym("x")]));
    assert_eq!(read_str("@x".to_string()).unwrap(), list(vec![sym("deref"), sym("x")]));
    assert_eq!(read_str("nil".to_string()).unwrap(), RlVal::Nil);
    assert_eq!(read_str("true".to_string()).unwrap(), RlVal::Bool(true));
    assert_eq!(read_str("false".to_string()).unwrap(), RlVal::Bool(false));
    assert_eq!(read_str("-42".to_string()).unwrap(), num(-42));
    assert_eq!(read_str("-9223372036854775808".to_string()).unwrap(), num(i64::MIN));
    assert_eq!(message(read_str("9223372036854775808".to_string())), "integer out of range");
    assert_eq!(read_str("-".to_string()).unwrap(), sym("-"));
    assert_eq!(read_str("abc 1".to_string()).unwrap(), sym("abc"));
    assert_eq!(read_str("\"a\\nb\\\"\"".to_string()).unwrap(), string("a\nb\""));
}

#[test]
fn reader_errors() {
    assert_eq!(message(read_str("".to_string())), "no input");
    assert_eq!(message(read_str("  ; only a comment".to_string())), "no input");
    assert_eq!(message(read_str("(1 2".to_string())), "expected ')', got EOF");
    assert_eq!(message(read_str(")".to_string())), "unexpected ')'");
    assert_eq!(message(read_str("]".to_string())), "unexpected ']'");
    assert_eq!(message(read_str("\"abc".to_string())), "expected '\"', got EOF");
    assert_eq!(message(read_str("{\"a\"}".to_string())), "odd number of elements");
}

#[test]
fn tokenizer_splits_and_drops_comments() {
    let t = tokenize("(+ 1, 2) ; sum\n~@x \"s t\"");
    assert_eq!(t, vec!["(", "+", "1", "2", ")", "~@", "x", "\"s t\""]);
}

#[test]
fn reader_cursor() {
    let mut r = Reader { tokens: vec!["a".to_string(), "b".to_string()], pos: 0 };
    assert_eq!(r.peek().unwrap(), "a");
    assert_eq!(r.next().unwrap(), "a");
    assert_eq!(r.next().unwrap(), "b");
    assert_eq!(message(r.peek().map(RlVal::Str)), "underflow");
    assert_eq!(r.pos, 2);
    assert_eq!(message(r.next().map(RlVal::Str)), "underflow");
    assert_eq!(r.pos, 3);
    assert_eq!(message(r.next().map(RlVal::Str)), "underflow");
    assert_eq!(r.pos, 4);
}

#[test]
fn swap_adds_and_keeps_value_on_failure() {
    let mut store = Store::new();
    let a = atom(&mut store, &num(5));
    let (f, fargs) = a.swap_call(&store, &vec![func(0), num(3)]).unwrap();
    assert_eq!(fargs, vec![num(5), num(3)]);
    let outcome = call(&mut store, &f, fargs);
    assert_eq!(a.swap_bang(&mut store, outcome).unwrap(), num(8));
    assert_eq!(a.deref(&store).unwrap(), num(8));
    let (f, fargs) = a.swap_call(&store, &vec![func(0), string("no")]).unwrap();
    let outcome = call(&mut store, &f, fargs);
    assert_eq!(message(a.swap_bang(&mut store, outcome)), "+ wants integers");
    assert_eq!(a.deref(&store).unwrap(), num(8));
}

#[test]
fn atom_reset_and_sharing() {
    let mut store = Store::new();
    let a = atom(&mut store, &num(1));
    let b = a.clone();
    assert_eq!(a.reset_bang(&mut store, &num(9)).unwrap(), num(9));
    assert_eq!(b.deref(&store).unwrap(), num(9));
    assert_eq!(message(num(1).deref(&store)), "attempt to deref a non-Atom");
    assert_eq!(message(num(1).reset_bang(&mut store, &num(2))), "attempt to reset! a non-Atom");
    assert_eq!(message(num(1).swap_bang(&mut store, Ok(num(2)))), "attempt to swap! a non-Atom");
}

#[test]
fn equality_rules() {
    assert_eq!(list(vec![num(1)]), vector(vec![num(1)]));
    assert_ne!(list(vec![num(1)]), list(vec![num(2)]));
    assert_ne!(string("a"), sym("a"));
    let mut store = Store::new();
    let root = env_new(&mut store, None);
    let c1 = RlVal::RlFunc {
        ast: std::rc::Rc::new(num(1)),
        env: root,
        params: std::rc::Rc::new(list(vec![])),
        is_macro: false,
        meta: std::rc::Rc::new(RlVal::Nil),
    };
    let c2 = c1.clone();
    assert_ne!(c1, c2);
    assert_ne!(c1, c1);
    assert_ne!(func(0), func(0));
}

#[test]
fn apply_closure_binds_arguments() {
    let mut store = Store::new();
    let root = env_new(&mut store, None);
    let c = RlVal::RlFunc {
        ast: std::rc::Rc::new(sym("body")),
        env: root,
        params: std::rc::Rc::new(list(vec![sym("x")])),
        is_macro: false,
        meta: std::rc::Rc::new(RlVal::Nil),
    };
    match c.apply(&mut store, vec![num(7)]).unwrap() {
        Call::Eval(body, e) => {
            assert_eq!(body, sym("body"));
            assert_eq!(env_get(&store, e, &sym("x")).unwrap(), num(7));
        }
        Call::Builtin(_, _) => panic!("expected a closure call"),
    }
    assert_eq!(message(num(1).apply(&mut store, vec![]).map(|_| RlVal::Nil)), "attempt to call non-function");
}

#[test]
fn sequence_helpers() {
    assert_eq!(list(vec![num(1), num(2)]).count().unwrap(), num(2));
    assert_eq!(RlVal::Nil.count().unwrap(), num(0));
    assert_eq!(message(num(1).count()), "invalid type for count");
    assert_eq!(vector(vec![]).empty_q().unwrap(), RlVal::Bool(true));
    assert_eq!(list(vec![num(1)]).empty_q().unwrap(), RlVal::Bool(false));
    assert_eq!(RlVal::Nil.empty_q().unwrap(), RlVal::Bool(true));
    assert_eq!(message(num(1).empty_q()), "invalid type for empty?");
}

#[test]
fn keywords() {
    let k = string("kw").keyword().unwrap();
    assert_eq!(k, string("\u{29e}kw"));
    assert!(k.keyword_q());
    assert_eq!(k.keyword().unwrap(), k);
    assert!(!string("kw").keyword_q());
    assert_eq!(message(num(1).keyword()), "invalid type for keyword");
}

#[test]
fn error_formatting() {
    assert_eq!(format_error(RlErr::ErrString("bad".to_string())), "bad");
    assert_eq!(format_error(RlErr::ErrRlVal(string("thrown"))), "thrown");
    assert_eq!(format_error(RlErr::ErrRlVal(num(1))), "error value");
}

#[test]
fn comments_are_stripped() {
    let caps = vec!["a".to_string(), "; note".to_string(), "b".to_string(), ";".to_string()];
    assert_eq!(strip_comments(caps), vec!["a".to_string(), "b".to_string()]);
}

#[test]
fn reader_trailing_tokens_ignored_and_close_brace_symbol() {
    assert_eq!(read_str("1 )".to_string()).unwrap(), num(1));
    assert_eq!(read_str("}".to_string()).unwrap(), sym("}"));
    assert_eq!(message(read_str("{\"k\" }}".to_string())), "odd number of elements");
    assert_eq!(message(read_str("^1".to_string())), "underflow");
}

#[test]
fn read_seq_reports_end_of_input() {
    let mut r = Reader { tokens: vec!["(".to_string(), "1".to_string(), "2".to_string()], pos: 0 };
    assert_eq!(message(read_seq(&mut r, ")")), "expected ')', got EOF");
    let mut r = Reader { tokens: vec!["[".to_string(), "x".to_string()], pos: 0 };
    assert_eq!(message(read_seq(&mut r, "]")), "expected ']', got EOF");
}

#[test]
fn binding_error_messages() {
    let mut store = Store::new();
    let bad_name = vector(vec![sym("a"), num(1)]);
    assert_eq!(message(env_bind(&mut store, None, bad_name, vec![num(1), num(2)]).map(|_| RlVal::Nil)), "Env.set called with non-Str");
    let short = list(vec![sym("a"), sym("b")]);
    assert_eq!(message(env_bind(&mut store, None, short, vec![num(1)]).map(|_| RlVal::Nil)), "not enough arguments");
    let open_rest = list(vec![sym("a"), sym("&")]);
    assert_eq!(message(env_bind(&mut store, None, open_rest, vec![num(1)]).map(|_| RlVal::Nil)), "rest marker without a name");
    let bad_rest = list(vec![sym("&"), num(3)]);
    assert_eq!(message(env_bind(&mut store, None, bad_rest, vec![]).map(|_| RlVal::Nil)), "Env.set called with non-Str");
}

#[test]
fn apply_reports_binding_error() {
    let mut store = Store::new();
    let root = env_new(&mut store, None);
    let c = RlVal::RlFunc {
        ast: std::rc::Rc::new(num(1)),
        env: root,
        params: std::rc::Rc::new(num(5)),
        is_macro: false,
        meta: std::rc::Rc::new(RlVal::Nil),
    };
    assert_eq!(message(c.apply(&mut store, vec![]).map(|_| RlVal::Nil)), "env_bind binds not List/Vector");
    let d = RlVal::RlFunc {
        ast: std::rc::Rc::new(num(1)),
        env: root,
        params: std::rc::Rc::new(list(vec![sym("x")])),
        is_macro: false,
        meta: std::rc::Rc::new(RlVal::Nil),
    };
    assert_eq!(message(d.apply(&mut store, vec![]).map(|_| RlVal::Nil)), "not enough arguments");
}

#[test]
fn hash_equality_checks_keys_both_ways() {
    let nil = || std::rc::Rc::new(RlVal::Nil);
    let dup = RlVal::Hash(std::rc::Rc::new(vec![("a".to_string(), num(1)), ("a".to_string(), num(1))]), nil());
    let two = RlVal::Hash(std::rc::Rc::new(vec![("a".to_string(), num(1)), ("b".to_string(), num(2))]), nil());
    assert_ne!(dup, two);
    assert_ne!(two, dup);
}
