use scheme_interp::common::{
    Addr, CloType, Closure, Env, Kont, Prim, SExpr, State, Store, Time, Val, Var,
};
use scheme_interp::eval::{initial_store, inject};

fn atom(s: &str) -> SExpr {
    SExpr::Atom(s.to_string())
}

fn var(s: &str) -> Var {
    Var(s.to_string())
}

#[test]
fn sexpr_debug_string() {
    let e = SExpr::List(vec![
        atom("a"),
        SExpr::List(vec![atom("b"), atom("c")]),
        SExpr::List(vec![]),
    ]);
    assert_eq!(e.debug_string(), "(a (b c) ())");
    assert_eq!(atom("x").debug_string(), "x");
    assert_eq!(SExpr::List(vec![atom("only")]).debug_string(), "(only)");
}

#[test]
fn sexpr_clone_is_equal() {
    let e = SExpr::List(vec![atom("a"), SExpr::List(vec![atom("b")])]);
    assert_eq!(e.clone(), e);
}

#[test]
fn state_allocate_and_tick() {
    let st = State::new(atom("x"), Env(im::HashMap::new()), Addr(0), Time(5));
    assert_eq!(st.allocate(0), Addr(5));
    assert_eq!(st.allocate(3), Addr(8));
    assert_eq!(st.tick(2), Time(7));
    let next = State::new(atom("x"), Env(im::HashMap::new()), Addr(0), st.tick(2));
    assert_ne!(next.allocate(0), st.allocate(1));
}

#[test]
fn env_insert_then_get() {
    let empty = Env(im::HashMap::new());
    let e1 = empty.insert(var("x"), Addr(4));
    let e2 = e1.insert(var("y"), Addr(9));
    let e3 = e2.insert(var("x"), Addr(11));
    assert_eq!(e2.get(var("x")), Some(Addr(4)));
    assert_eq!(e2.get(var("y")), Some(Addr(9)));
    assert_eq!(e3.get(var("x")), Some(Addr(11)));
    assert_eq!(e3.get(var("y")), Some(Addr(9)));
    assert_eq!(empty.get(var("x")), None);
    assert_eq!(e1.get(var("y")), None);
    // extending an environment leaves it as it was
    assert_eq!(e1.get(var("x")), Some(Addr(4)));
}

#[test]
fn store_add_get_set() {
    let mut store = initial_store();
    let st = inject(atom("x"));
    let a = store.add_to_store(Val::Number(42), &st);
    assert_eq!(a, Addr(1));
    let b = store.add_to_store_offset(Val::Boolean(true), &st, 2);
    assert_eq!(b, Addr(3));
    assert_eq!(store.get(Addr(1)), Some(Val::Number(42)));
    assert_eq!(store.get(Addr(3)), Some(Val::Boolean(true)));
    assert_eq!(store.get(Addr(2)), None);
    assert_eq!(store.set(Addr(1), Val::Void), Some(Val::Number(42)));
    assert_eq!(store.get(Addr(1)), Some(Val::Void));
    assert_eq!(store.set(Addr(7), Val::Null), None);
    assert_eq!(store.get(Addr(7)), Some(Val::Null));
}

#[test]
fn inject_and_initial_store() {
    let st = inject(atom("main"));
    assert_eq!(st.ctrl, atom("main"));
    assert_eq!(st.kont_addr, Addr(0));
    assert_eq!(st.time, Time(1));
    assert_eq!(st.env.get(var("anything")), None);
    assert_ne!(st.allocate(0), st.kont_addr);
    let store = initial_store();
    assert_eq!(store.get(Addr(0)), Some(Val::Kont(Kont::Empty)));
    assert_eq!(store.get(Addr(1)), None);
}

#[test]
fn values_clone_to_equal_values() {
    let env = Env(im::HashMap::new()).insert(var("x"), Addr(2));
    let clo = Closure(CloType::MultiArg(vec![var("a"), var("b")]), atom("body"), env.clone());
    let v = Val::Cons(
        Box::new(Val::Closure(clo)),
        Box::new(Val::Kont(Kont::Let(
            vec![var("x")],
            vec![Val::Number(1)],
            vec![atom("e")],
            atom("b"),
            env.clone(),
            Addr(3),
        ))),
    );
    assert_eq!(v.clone(), v);
    let k = Kont::ApplyList(Some(Box::new(Val::Null)), atom("f"), env, Addr(0));
    assert_eq!(k.clone(), k);
    let p = Kont::ApplyPrim(Prim("+".to_string()), Addr(1));
    assert_eq!(p.clone(), p);
}
