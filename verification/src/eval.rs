//! Scheme objects as the reader builds them, and the machine's starting
//! configuration.
use vstd::prelude::*;

use crate::common::{address_at, bindings_new, no_bindings, Addr, Env, Kont, SExpr, State, Store, Time, Val};

verus! {

/// A Scheme object as read from program text.
///
/// A number keeps the text it was written with; that text is always one that
/// `f64`'s `FromStr` accepts (see `scan::is_float_text`), so its value is
/// obtained by parsing it.
#[derive(Debug, PartialEq)]
pub enum ScmObj {
    Symbol(String),
    Numeric(String),
    Cons(Box<ScmObj>, Box<ScmObj>),
    Null,
}

/// The mathematical value of a `ScmObj`.
pub enum Datum {
    Symbol(Seq<char>),
    Numeric(Seq<char>),
    Cons(Box<Datum>, Box<Datum>),
    Null,
}

/// The `Datum` that an object stands for.
pub open spec fn datum_of(o: ScmObj) -> Datum
    decreases o,
{
    match o {
        ScmObj::Symbol(s) => Datum::Symbol(s@),
        ScmObj::Numeric(t) => Datum::Numeric(t@),
        ScmObj::Cons(a, b) => Datum::Cons(Box::new(datum_of(*a)), Box::new(datum_of(*b))),
        ScmObj::Null => Datum::Null,
    }
}

impl View for ScmObj {
    type V = Datum;

    open spec fn view(&self) -> Datum {
        datum_of(*self)
    }
}

/// The state in which evaluating `ctrl` starts: an empty environment, the
/// empty continuation at address 0, and time 1 (time 0 made the empty
/// continuation, so allocation starts at address 1).
pub fn inject(ctrl: SExpr) -> (s: State)
    ensures
        s.ctrl == ctrl,
        s.env@ == no_bindings(),
        s.kont_addr == Addr(0),
        s.time == Time(1),
{
    State::new(ctrl, Env(bindings_new()), Addr(0), Time(1))
}

/// The store an evaluation starts from: it holds only the empty continuation,
/// at address 0.
pub fn initial_store() -> (s: Store)
    ensures
        s@ == Map::<u64, Val>::empty().insert(0, Val::Kont(Kont::Empty)),
{
    let mut inner = std::collections::HashMap::new();
    inner.insert(0u64, Val::Kont(Kont::Empty));
    Store(inner)
}

/// The first state allocates above the empty continuation: no allocation
/// made at its time gets address 0.
pub proof fn law_injected_allocations_avoid_empty_continuation(offset: u64)
    ensures
        address_at(1, offset) != 0,
{
}

} // verus!
