//! The data of the abstract machine: expressions, machine states,
//! environments, stores, values and continuations.
use vstd::prelude::*;

verus! {

broadcast use {vstd::std_specs::hash::group_hash_axioms, vstd::std_specs::vec::group_vec_axioms};

// ---------------------------------------------------------------------------
// Expressions

/// A program expression: a list of expressions or an atom.
#[derive(Debug, Hash, PartialEq, Eq)]
pub enum SExpr {
    List(Vec<SExpr>),
    Atom(String),
}

/// The mathematical value of an `SExpr`.
pub enum SExprModel {
    List(Seq<SExprModel>),
    Atom(Seq<char>),
}

pub open spec fn sexpr_model(e: SExpr) -> SExprModel
    decreases e,
{
    match e {
        SExpr::List(items) => SExprModel::List(
            Seq::new(
                items.len() as nat,
                |i: int|
                    if 0 <= i < items.len() {
                        sexpr_model(items@[i])
                    } else {
                        SExprModel::Atom(Seq::empty())
                    },
            ),
        ),
        SExpr::Atom(a) => SExprModel::Atom(a@),
    }
}

impl View for SExpr {
    type V = SExprModel;

    open spec fn view(&self) -> SExprModel {
        sexpr_model(*self)
    }
}

/// The models of a sequence of expressions, element by element.
pub open spec fn sexpr_models(items: Seq<SExpr>) -> Seq<SExprModel> {
    Seq::new(items.len(), |i: int| items[i]@)
}

pub proof fn lemma_sexpr_list_model(items: Vec<SExpr>)
    ensures
        SExpr::List(items)@ == SExprModel::List(sexpr_models(items@)),
{
    if let SExprModel::List(m) = sexpr_model(SExpr::List(items)) {
        assert(m =~= sexpr_models(items@));
    }
}

/// How an expression is shown: an atom as its text, a list as its elements
/// shown one after another, separated by spaces, between parentheses.
pub open spec fn shown(e: SExprModel) -> Seq<char>
    decreases e,
{
    match e {
        SExprModel::Atom(a) => a,
        SExprModel::List(items) => seq!['('] + shown_items(items) + seq![')'],
    }
}

/// The elements `items` shown one after another, separated by single spaces.
pub open spec fn shown_items(items: Seq<SExprModel>) -> Seq<char>
    decreases items,
{
    if items.len() == 0 {
        Seq::empty()
    } else if items.len() == 1 {
        shown(items[0])
    } else {
        shown_items(items.drop_last()) + seq![' '] + shown(items.last())
    }
}

/// An atom is shown as its text, and a list as its shown elements between
/// `(` and `)`.
pub proof fn law_shown_forms(a: Seq<char>, items: Seq<SExprModel>)
    ensures
        shown(SExprModel::Atom(a)) == a,
        shown(SExprModel::List(items)) == seq!['('] + shown_items(items) + seq![')'],
{
}

/// No elements are shown as nothing, and one element as itself alone.
pub proof fn law_shown_items_short(x: SExprModel)
    ensures
        shown_items(Seq::<SExprModel>::empty()) == Seq::<char>::empty(),
        shown_items(seq![x]) == shown(x),
{
}

/// Each further element is written after exactly one space, however many
/// elements came before it.
pub proof fn law_shown_items_push(items: Seq<SExprModel>, x: SExprModel)
    requires
        items.len() > 0,
    ensures
        shown_items(items.push(x)) == shown_items(items) + seq![' '] + shown(x),
{
    assert(items.push(x).drop_last() =~= items);
}

/// Two runs of elements shown one after the other are separated by exactly
/// one space: showing is joining the shown elements with single spaces.
pub proof fn law_shown_items_concat(a: Seq<SExprModel>, b: Seq<SExprModel>)
    requires
        a.len() > 0,
        b.len() > 0,
    ensures
        shown_items(a + b) == shown_items(a) + seq![' '] + shown_items(b),
    decreases b.len(),
{
    let ab = a + b;
    if b.len() == 1 {
        assert(ab.drop_last() =~= a);
        assert(ab.last() == b[0]);
    } else {
        assert(ab.drop_last() =~= a + b.drop_last());
        assert(ab.last() == b.last());
        law_shown_items_concat(a, b.drop_last());
        assert(shown_items(ab) =~= shown_items(a) + seq![' '] + shown_items(b));
    }
}

fn clone_sexpr(e: &SExpr) -> (r: SExpr)
    ensures
        r@ == e@,
    decreases e,
{
    match e {
        SExpr::List(list) => {
            let mut items: Vec<SExpr> = Vec::new();
            let mut i: usize = 0;
            while i < list.len()
                invariant
                    i <= list.len(),
                    *e == SExpr::List(*list),
                    sexpr_models(items@) == sexpr_models(list@).take(i as int),
                decreases list.len() - i,
            {
                proof {
                    assert(decreases_to!(*e => (*e)->List_0));
                    assert(decreases_to!(*list => list[i as int]));
                }
                let item = clone_sexpr(&list[i]);
                proof {
                    let old_items = items@;
                    assert(sexpr_models(old_items.push(item)) =~= sexpr_models(old_items).push(
                        item@,
                    ));
                }
                items.push(item);
                assert(sexpr_models(list@).take(i + 1) =~= sexpr_models(list@).take(
                    i as int,
                ).push(list@[i as int]@));
                i = i + 1;
            }
            proof {
                assert(sexpr_models(list@).take(list.len() as int) =~= sexpr_models(list@));
                lemma_sexpr_list_model(items);
                lemma_sexpr_list_model(*list);
            }
            SExpr::List(items)
        },
        SExpr::Atom(a) => SExpr::Atom(a.clone()),
    }
}

impl Clone for SExpr {
    fn clone(&self) -> (r: Self)
        ensures
            r@ == self@,
    {
        clone_sexpr(self)
    }
}

impl SExpr {
    /// The text of the expression as it is shown: see `shown`.
    pub fn debug_string(&self) -> (s: String)
        ensures
            s@ == shown(self@),
        decreases self,
    {
        match self {
            SExpr::List(list) => {
                let ghost models = sexpr_models(list@);
                let mut out = String::from_str("(");
                proof {
                    reveal_strlit("(");
                    reveal_strlit(" ");
                    assert(models.take(0) =~= Seq::<SExprModel>::empty());
                }
                let mut i: usize = 0;
                while i < list.len()
                    invariant
                        i <= list.len(),
                        *self == SExpr::List(*list),
                        models == sexpr_models(list@),
                        out@ == seq!['('] + shown_items(models.take(i as int)) + (if 0 < i
                            < list.len() {
                            seq![' ']
                        } else {
                            Seq::empty()
                        }),
                    decreases list.len() - i,
                {
                    proof {
                        assert(decreases_to!(*self => (*self)->List_0));
                        assert(decreases_to!(*list => list[i as int]));
                    }
                    let part = list[i].debug_string();
                    out.append(part.as_str());
                    proof {
                        let t = models.take(i + 1);
                        assert(t.drop_last() =~= models.take(i as int));
                        assert(t.last() == list@[i as int]@);
                        if i == 0 {
                            assert(shown_items(t) == part@);
                        } else {
                            assert(shown_items(t) == shown_items(models.take(i as int)) + seq![' ']
                                + part@);
                        }
                        assert(out@ =~= seq!['('] + shown_items(t));
                    }
                    if i + 1 != list.len() {
                        out.append(" ");
                        proof {
                            reveal_strlit(" ");
                        }
                    }
                    assert(out@ =~= seq!['('] + shown_items(models.take(i + 1)) + (if 0 < i + 1
                        < list.len() {
                        seq![' ']
                    } else {
                        Seq::empty()
                    }));
                    i = i + 1;
                }
                out.append(")");
                proof {
                    reveal_strlit(")");
                    assert(models.take(list.len() as int) =~= models);
                    lemma_sexpr_list_model(*list);
                }
                out
            },
            SExpr::Atom(atom) => atom.clone(),
        }
    }
}


// ---------------------------------------------------------------------------
// Names, addresses, times, primitives

/// A variable name.
#[derive(Debug, Hash, PartialEq, Eq)]
pub struct Var(pub String);

/// The address of a cell in the store.
#[derive(Debug, Hash, PartialEq, Eq)]
pub struct Addr(pub u64);

/// The machine's clock.
#[derive(Debug, Hash, PartialEq, Eq)]
pub struct Time(pub u64);

/// The name of a primitive operation.
#[derive(Debug, Hash, PartialEq, Eq)]
pub struct Prim(pub String);

impl Clone for Var {
    fn clone(&self) -> (r: Self)
        ensures
            r == *self,
    {
        Var(self.0.clone())
    }
}

impl Clone for Addr {
    fn clone(&self) -> (r: Self)
        ensures
            r == *self,
    {
        Addr(self.0)
    }
}

impl Clone for Time {
    fn clone(&self) -> (r: Self)
        ensures
            r == *self,
    {
        Time(self.0)
    }
}

impl Clone for Prim {
    fn clone(&self) -> (r: Self)
        ensures
            r == *self,
    {
        Prim(self.0.clone())
    }
}

/// The names of a sequence of variables.
pub open spec fn var_names(vars: Seq<Var>) -> Seq<Seq<char>> {
    Seq::new(vars.len(), |i: int| vars[i].0@)
}

fn clone_vars(vars: &Vec<Var>) -> (r: Vec<Var>)
    ensures
        r@ == vars@,
{
    let mut r: Vec<Var> = Vec::new();
    let mut i: usize = 0;
    while i < vars.len()
        invariant
            i <= vars.len(),
            r@ == vars@.take(i as int),
        decreases vars.len() - i,
    {
        r.push(vars[i].clone());
        assert(vars@.take(i + 1) =~= vars@.take(i as int).push(vars@[i as int]));
        i = i + 1;
    }
    assert(vars@.take(vars.len() as int) =~= vars@);
    r
}

fn clone_sexprs(items: &Vec<SExpr>) -> (r: Vec<SExpr>)
    ensures
        sexpr_models(r@) == sexpr_models(items@),
{
    let mut r: Vec<SExpr> = Vec::new();
    let mut i: usize = 0;
    while i < items.len()
        invariant
            i <= items.len(),
            sexpr_models(r@) == sexpr_models(items@).take(i as int),
        decreases items.len() - i,
    {
        let item = items[i].clone();
        proof {
            let old_r = r@;
            assert(sexpr_models(old_r.push(item)) =~= sexpr_models(old_r).push(item@));
        }
        r.push(item);
        assert(sexpr_models(items@).take(i + 1) =~= sexpr_models(items@).take(i as int).push(
            items@[i as int]@,
        ));
        i = i + 1;
    }
    assert(sexpr_models(items@).take(items.len() as int) =~= sexpr_models(items@));
    r
}

// ---------------------------------------------------------------------------
// Environments

/// The bindings held by a persistent map of variables to addresses: each
/// variable's name mapped to its address.
pub uninterp spec fn bindings(m: im::HashMap<Var, Addr>) -> Map<Seq<char>, u64>;

/// The bindings of an empty environment.
pub open spec fn no_bindings() -> Map<Seq<char>, u64> {
    Map::empty()
}

/// Calls `im::HashMap::new`, whose result holds no binding.
#[verifier::external_body]
pub(crate) fn bindings_new() -> (res: im::HashMap<Var, Addr>)
    ensures
        bindings(res) == no_bindings(),
{
    im::HashMap::new()
}

/// Calls `im::HashMap::clone`, whose result holds the same bindings.
#[verifier::external_body]
fn bindings_clone(m: &im::HashMap<Var, Addr>) -> (r: im::HashMap<Var, Addr>)
    ensures
        bindings(r) == bindings(*m),
{
    m.clone()
}

/// Calls `im::HashMap::insert`, which binds `k` to `v` and keeps every other
/// binding (variables are equal when their names are).
#[verifier::external_body]
fn bindings_insert(m: &mut im::HashMap<Var, Addr>, k: Var, v: Addr)
    ensures
        bindings(*final(m)) == bindings(*old(m)).insert(k.0@, v.0),
{
    m.insert(k, v);
}

/// Calls `im::HashMap::get`, which finds the address bound to `k`, if any.
#[verifier::external_body]
fn bindings_get<'a>(m: &'a im::HashMap<Var, Addr>, k: &Var) -> (r: Option<&'a Addr>)
    ensures
        match r {
            Some(a) => bindings(*m).contains_key(k.0@) && bindings(*m)[k.0@] == a.0,
            None => !bindings(*m).contains_key(k.0@),
        },
{
    m.get(k)
}

/// Makes `im::HashMap`, the persistent hash map of the `im` crate, known to
/// Verus as an opaque type; what a map holds is only seen through `bindings`.
#[verifier::external_type_specification]
#[verifier::external_body]
#[verifier::reject_recursive_types(K)]
#[verifier::reject_recursive_types(V)]
#[verifier::reject_recursive_types(S)]
pub struct ExImHashMap<K, V, S>(im::HashMap<K, V, S>);

/// An environment: the address that each variable in scope is bound to.
/// Environments are persistent: extending one leaves it unchanged.
#[derive(Debug, Hash, PartialEq, Eq)]
pub struct Env(pub im::HashMap<Var, Addr>);

impl View for Env {
    type V = Map<Seq<char>, u64>;

    open spec fn view(&self) -> Map<Seq<char>, u64> {
        bindings(self.0)
    }
}

impl Clone for Env {
    fn clone(&self) -> (r: Self)
        ensures
            r@ == self@,
    {
        Env(bindings_clone(&self.0))
    }
}

impl Env {
    /// A new environment that binds `k` to `v` and otherwise agrees with `self`.
    pub fn insert(&self, k: Var, v: Addr) -> (e: Env)
        ensures
            e@ == self@.insert(k.0@, v.0),
    {
        let mut newenv = bindings_clone(&self.0);
        bindings_insert(&mut newenv, k, v);
        Env(newenv)
    }

    /// The address bound to `var`, if any.
    pub fn get(&self, var: Var) -> (r: Option<Addr>)
        ensures
            match r {
                Some(a) => self@.contains_key(var.0@) && self@[var.0@] == a.0,
                None => !self@.contains_key(var.0@),
            },
    {
        match bindings_get(&self.0, &var) {
            Some(a) => Some(Addr(a.0)),
            None => None,
        }
    }
}

// ---------------------------------------------------------------------------
// Values and continuations

/// The parameters of a closure: a fixed list, or one variable that receives
/// all arguments.
#[derive(Debug, Hash, PartialEq, Eq)]
pub enum CloType {
    MultiArg(Vec<Var>),
    VarArg(Var),
}

/// A closure: parameters, body, and the environment it was made in.
#[derive(Debug, Hash, PartialEq, Eq)]
pub struct Closure(pub CloType, pub SExpr, pub Env);

#[derive(Debug, Hash, PartialEq, Eq)]
pub enum Val {
    /// Mostly used as the end-of-list value.
    Null,
    /// What forms like `(set! x e)` return.
    Void,
    Closure(Closure),
    Number(i64),
    Kont(Kont),
    Boolean(bool),
    Cons(Box<Val>, Box<Val>),
}

/// A continuation frame: what is left to do with a value, and the address of
/// the continuation after it.
#[derive(Debug, Hash, PartialEq, Eq)]
pub enum Kont {
    Empty,
    If(SExpr, SExpr, Env, Addr),
    Let(Vec<Var>, Vec<Val>, Vec<SExpr>, SExpr, Env, Addr),
    Prim(Prim, Vec<Val>, Vec<SExpr>, Env, Addr),
    ApplyPrim(Prim, Addr),
    Callcc(Addr),
    App(Vec<Val>, Vec<SExpr>, Env, Addr),
    ApplyList(Option<Box<Val>>, SExpr, Env, Addr),
    SetBang(Var, Addr),
}

/// The mathematical value of a `CloType`.
pub enum CloTypeModel {
    MultiArg(Seq<Seq<char>>),
    VarArg(Seq<char>),
}

/// The mathematical value of a `Closure`.
pub struct ClosureModel {
    pub params: CloTypeModel,
    pub body: SExprModel,
    pub env: Map<Seq<char>, u64>,
}

/// The mathematical value of a `Val`.
pub enum ValModel {
    Null,
    Void,
    Closure(ClosureModel),
    Number(i64),
    Kont(KontModel),
    Boolean(bool),
    Cons(Box<ValModel>, Box<ValModel>),
}

/// The mathematical value of a `Kont`; environments are their bindings,
/// addresses and names their numbers and texts.
pub enum KontModel {
    Empty,
    If(SExprModel, SExprModel, Map<Seq<char>, u64>, u64),
    Let(Seq<Seq<char>>, Seq<ValModel>, Seq<SExprModel>, SExprModel, Map<Seq<char>, u64>, u64),
    Prim(Seq<char>, Seq<ValModel>, Seq<SExprModel>, Map<Seq<char>, u64>, u64),
    ApplyPrim(Seq<char>, u64),
    Callcc(u64),
    App(Seq<ValModel>, Seq<SExprModel>, Map<Seq<char>, u64>, u64),
    ApplyList(Option<Box<ValModel>>, SExprModel, Map<Seq<char>, u64>, u64),
    SetBang(Seq<char>, u64),
}

pub open spec fn clo_type_model(c: CloType) -> CloTypeModel {
    match c {
        CloType::MultiArg(vars) => CloTypeModel::MultiArg(var_names(vars@)),
        CloType::VarArg(v) => CloTypeModel::VarArg(v.0@),
    }
}

impl View for CloType {
    type V = CloTypeModel;

    open spec fn view(&self) -> CloTypeModel {
        clo_type_model(*self)
    }
}

impl View for Closure {
    type V = ClosureModel;

    open spec fn view(&self) -> ClosureModel {
        ClosureModel { params: self.0@, body: self.1@, env: self.2@ }
    }
}

pub open spec fn val_model(v: Val) -> ValModel
    decreases v,
{
    match v {
        Val::Null => ValModel::Null,
        Val::Void => ValModel::Void,
        Val::Closure(c) => ValModel::Closure(c@),
        Val::Number(n) => ValModel::Number(n),
        Val::Kont(k) => ValModel::Kont(kont_model(k)),
        Val::Boolean(b) => ValModel::Boolean(b),
        Val::Cons(a, b) => ValModel::Cons(Box::new(val_model(*a)), Box::new(val_model(*b))),
    }
}

/// The models of the values held by a vector, element by element.
pub open spec fn val_models(vals: Vec<Val>) -> Seq<ValModel>
    decreases vals,
{
    Seq::new(
        vals.len() as nat,
        |i: int|
            if 0 <= i < vals.len() {
                val_model(vals@[i])
            } else {
                ValModel::Null
            },
    )
}

pub open spec fn kont_model(k: Kont) -> KontModel
    decreases k,
{
    match k {
        Kont::Empty => KontModel::Empty,
        Kont::If(t, e, env, a) => KontModel::If(t@, e@, env@, a.0),
        Kont::Let(vars, vals, exprs, body, env, a) => KontModel::Let(
            var_names(vars@),
            val_models(vals),
            sexpr_models(exprs@),
            body@,
            env@,
            a.0,
        ),
        Kont::Prim(p, vals, exprs, env, a) => KontModel::Prim(
            p.0@,
            val_models(vals),
            sexpr_models(exprs@),
            env@,
            a.0,
        ),
        Kont::ApplyPrim(p, a) => KontModel::ApplyPrim(p.0@, a.0),
        Kont::Callcc(a) => KontModel::Callcc(a.0),
        Kont::App(vals, exprs, env, a) => KontModel::App(val_models(vals), sexpr_models(exprs@), env@, a.0),
        Kont::ApplyList(v, e, env, a) => KontModel::ApplyList(
            match v {
                Some(b) => Some(Box::new(val_model(*b))),
                None => None,
            },
            e@,
            env@,
            a.0,
        ),
        Kont::SetBang(x, a) => KontModel::SetBang(x.0@, a.0),
    }
}

impl View for Val {
    type V = ValModel;

    open spec fn view(&self) -> ValModel {
        val_model(*self)
    }
}

impl View for Kont {
    type V = KontModel;

    open spec fn view(&self) -> KontModel {
        kont_model(*self)
    }
}


impl Clone for CloType {
    fn clone(&self) -> (r: Self)
        ensures
            r@ == self@,
    {
        match self {
            CloType::MultiArg(vars) => CloType::MultiArg(clone_vars(vars)),
            CloType::VarArg(v) => CloType::VarArg(v.clone()),
        }
    }
}

impl Clone for Closure {
    fn clone(&self) -> (r: Self)
        ensures
            r@ == self@,
    {
        Closure(self.0.clone(), self.1.clone(), self.2.clone())
    }
}

fn clone_val(v: &Val) -> (r: Val)
    ensures
        r@ == v@,
    decreases v,
{
    match v {
        Val::Null => Val::Null,
        Val::Void => Val::Void,
        Val::Closure(c) => Val::Closure(c.clone()),
        Val::Number(n) => Val::Number(*n),
        Val::Kont(k) => {
            proof {
                assert(decreases_to!(*v => (*v)->Kont_0));
            }
            Val::Kont(clone_kont(k))
        },
        Val::Boolean(b) => Val::Boolean(*b),
        Val::Cons(a, b) => {
            proof {
                assert(decreases_to!(*v => (*v)->Cons_0));
                assert(decreases_to!(*v => (*v)->Cons_1));
            }
            let ca = clone_val(a);
            let cb = clone_val(b);
            Val::Cons(Box::new(ca), Box::new(cb))
        },
    }
}

fn clone_vals(vals: &Vec<Val>) -> (r: Vec<Val>)
    ensures
        val_models(r) == val_models(*vals),
    decreases vals,
{
    let mut r: Vec<Val> = Vec::new();
    let mut i: usize = 0;
    while i < vals.len()
        invariant
            i <= vals.len(),
            r.len() == i,
            forall|j: int| 0 <= j < i ==> #[trigger] val_model(r@[j]) == val_model(vals@[j]),
        decreases vals.len() - i,
    {
        proof {
            assert(decreases_to!(*vals => vals[i as int]));
        }
        let item = clone_val(&vals[i]);
        r.push(item);
        i = i + 1;
    }
    assert forall|j: int| 0 <= j < r.len() implies #[trigger] val_models(r)[j] == val_models(
        *vals,
    )[j] by {
        assert(val_model(r@[j]) == val_model(vals@[j]));
    }
    assert(val_models(r) =~= val_models(*vals));
    r
}

fn clone_kont(k: &Kont) -> (r: Kont)
    ensures
        r@ == k@,
    decreases k,
{
    match k {
        Kont::Empty => Kont::Empty,
        Kont::If(t, e, env, a) => Kont::If(t.clone(), e.clone(), env.clone(), a.clone()),
        Kont::Let(vars, vals, exprs, body, env, a) => {
            proof {
                assert(decreases_to!(*k => (*k)->Let_1));
            }
            Kont::Let(
                clone_vars(vars),
                clone_vals(vals),
                clone_sexprs(exprs),
                body.clone(),
                env.clone(),
                a.clone(),
            )
        },
        Kont::Prim(p, vals, exprs, env, a) => {
            proof {
                assert(decreases_to!(*k => (*k)->Prim_1));
            }
            Kont::Prim(p.clone(), clone_vals(vals), clone_sexprs(exprs), env.clone(), a.clone())
        },
        Kont::ApplyPrim(p, a) => Kont::ApplyPrim(p.clone(), a.clone()),
        Kont::Callcc(a) => Kont::Callcc(a.clone()),
        Kont::App(vals, exprs, env, a) => {
            proof {
                assert(decreases_to!(*k => (*k)->App_0));
            }
            Kont::App(clone_vals(vals), clone_sexprs(exprs), env.clone(), a.clone())
        },
        Kont::ApplyList(v, e, env, a) => {
            let cv = match v {
                Some(b) => {
                    proof {
                        assert(decreases_to!(*k => (*k)->ApplyList_0));
                        assert(decreases_to!((*k)->ApplyList_0 => ((*k)->ApplyList_0)->0));
                    }
                    Some(Box::new(clone_val(b)))
                },
                None => None,
            };
            Kont::ApplyList(cv, e.clone(), env.clone(), a.clone())
        },
        Kont::SetBang(x, a) => Kont::SetBang(x.clone(), a.clone()),
    }
}

impl Clone for Val {
    fn clone(&self) -> (r: Self)
        ensures
            r@ == self@,
    {
        clone_val(self)
    }
}

impl Clone for Kont {
    fn clone(&self) -> (r: Self)
        ensures
            r@ == self@,
    {
        clone_kont(self)
    }
}


// ---------------------------------------------------------------------------
// Machine states and the store

/// A machine state: the expression under evaluation, its environment, the
/// address of the current continuation, and the clock.
#[derive(Debug, Hash, PartialEq, Eq)]
pub struct State {
    pub ctrl: SExpr,
    pub env: Env,
    pub kont_addr: Addr,
    pub time: Time,
}

impl Clone for State {
    fn clone(&self) -> (r: Self)
        ensures
            r.ctrl@ == self.ctrl@,
            r.env@ == self.env@,
            r.kont_addr == self.kont_addr,
            r.time == self.time,
    {
        State {
            ctrl: self.ctrl.clone(),
            env: self.env.clone(),
            kont_addr: self.kont_addr.clone(),
            time: self.time.clone(),
        }
    }
}

impl State {
    pub fn new(ctrl: SExpr, env: Env, kont_addr: Addr, time: Time) -> (s: State)
        ensures
            s == (State { ctrl, env, kont_addr, time }),
    {
        State { ctrl, env, kont_addr, time }
    }

    /// The address of the `offset`-th allocation made at this state's time.
    pub fn allocate(&self, offset: u64) -> (a: Addr)
        requires
            self.time.0 + offset <= u64::MAX,
        ensures
            a.0 == address_at(self.time.0, offset),
    {
        let State { time: Time(t), .. } = self;
        Addr(*t + offset)
    }

    /// The time `amt` steps after this state's; a step that allocates several
    /// cells (such as a function application) advances the clock by as many.
    pub fn tick(&self, amt: u64) -> (t: Time)
        requires
            self.time.0 + amt <= u64::MAX,
        ensures
            t.0 == self.time.0 + amt,
    {
        let State { time: Time(t), .. } = self;
        Time(t + amt)
    }
}

/// The address of the `offset`-th allocation made at time `time`.
pub open spec fn address_at(time: u64, offset: u64) -> int {
    time + offset
}

/// Addresses count up from the clock: the first allocation of a step is at
/// its time, each further one at the next address, and the allocations of a
/// step that advances the clock by `amt` end where the next step's begin.
pub proof fn law_address_arithmetic(t: u64, o: u64, amt: u64)
    requires
        t + o + 1 <= u64::MAX,
        t + amt <= u64::MAX,
    ensures
        address_at(t, 0) == t,
        address_at(t, (o + 1) as u64) == address_at(t, o) + 1,
        address_at(t, amt) == address_at((t + amt) as u64, 0),
{
}

/// Allocation does not reuse addresses: allocations made at one time with
/// different offsets get different addresses, and after a step that makes
/// `amt` allocations and advances the clock by `amt`, no allocation of the
/// next step gets an address of the previous one.
pub proof fn law_allocations_are_fresh(t: u64, amt: u64, o1: u64, o2: u64)
    requires
        t + amt <= u64::MAX,
    ensures
        o1 != o2 ==> address_at(t, o1) != address_at(t, o2),
        o1 < amt ==> address_at(t, o1) != address_at((t + amt) as u64, o2),
{
}

/// Reading an environment after extending it: the new variable is bound to
/// the new address, and every other variable keeps its binding.
pub proof fn law_env_get_after_insert(env: Env, k: Var, v: Addr, other: Var)
    ensures
        env@.insert(k.0@, v.0).contains_key(k.0@),
        env@.insert(k.0@, v.0)[k.0@] == v.0,
        other.0@ != k.0@ ==> env@.insert(k.0@, v.0).contains_key(other.0@) == env@.contains_key(
            other.0@,
        ),
        other.0@ != k.0@ && env@.contains_key(other.0@) ==> env@.insert(k.0@, v.0)[other.0@]
            == env@[other.0@],
{
}

/// Reading the store after writing it: the address written holds the new
/// value, and every other address keeps what it held.
pub proof fn law_store_get_after_set(store: Store, a: Addr, v: Val, other: Addr)
    ensures
        store@.insert(a.0, v).contains_key(a.0),
        store@.insert(a.0, v)[a.0]@ == v@,
        other.0 != a.0 ==> store@.insert(a.0, v).contains_key(other.0) == store@.contains_key(
            other.0,
        ),
        other.0 != a.0 && store@.contains_key(other.0) ==> store@.insert(a.0, v)[other.0]
            == store@[other.0],
{
}

/// The store: the value held at each allocated address.
#[derive(Debug)]
pub struct Store(pub std::collections::HashMap<u64, Val>);

impl View for Store {
    type V = Map<u64, Val>;

    open spec fn view(&self) -> Map<u64, Val> {
        self.0@
    }
}

impl Clone for Store {
    fn clone(&self) -> (r: Self)
        ensures
            r@ == self@,
    {
        Store(self.0.clone())
    }
}

impl Store {
    /// Stores `v` at the first address allocated at `st`'s time.
    pub fn add_to_store(&mut self, v: Val, st: &State) -> (a: Addr)
        ensures
            a.0 == st.time.0,
            final(self)@ == old(self)@.insert(a.0, v),
    {
        self.add_to_store_offset(v, st, 0)
    }

    /// Stores `v` at the `offset`-th address allocated at `st`'s time.
    pub fn add_to_store_offset(&mut self, v: Val, st: &State, offset: u64) -> (a: Addr)
        requires
            st.time.0 + offset <= u64::MAX,
        ensures
            a.0 == st.time.0 + offset,
            final(self)@ == old(self)@.insert(a.0, v),
    {
        let addr = st.allocate(offset);
        self.0.insert(addr.0, v);
        addr
    }

    /// A copy of the value held at `addr`, if any.
    pub fn get(&self, addr: Addr) -> (r: Option<Val>)
        ensures
            match r {
                Some(v) => self@.contains_key(addr.0) && v@ == self@[addr.0]@,
                None => !self@.contains_key(addr.0),
            },
    {
        self.0.get(&addr.0).cloned()
    }

    /// Puts `val` at `addr`, and returns what was there before, if anything.
    pub fn set(&mut self, addr: Addr, val: Val) -> (r: Option<Val>)
        ensures
            final(self)@ == old(self)@.insert(addr.0, val),
            match r {
                Some(v) => old(self)@.contains_key(addr.0) && v == old(self)@[addr.0],
                None => !old(self)@.contains_key(addr.0),
            },
    {
        self.0.insert(addr.0, val)
    }
}

} // verus!
