use vstd::prelude::*;
use crate::istr::IStr;
use crate::obj::ObjValue;

verus! {

/// Errors surfaced by the engine.
#[derive(Debug, Clone, Copy, PartialEq, Eq, Structural)]
pub enum EvalError {
    /// An object assertion did not hold.
    AssertionFailed,
    /// Recursion exceeded the configured stack budget.
    StackOverflow,
    /// A `self`/`super` field access found no field.
    NoSuchField,
    /// The two operands of `+` cannot be combined.
    AddIncompatible,
    /// Number addition left the machine range.
    NumOverflow,
}

/// The evaluator's universal value.  The engine treats every variant but
/// `Obj` as opaque, except that `+` combines numbers, strings and arrays.
#[derive(Debug, PartialEq)]
pub enum Val {
    Null,
    Bool(bool),
    Num(i64),
    Str(IStr),
    Arr(Box<ValList>),
    Obj(ObjValue),
    /// A function value of the embedding evaluator, carried by identity;
    /// the engine never looks inside.
    Func(usize),
}

/// The elements of an array value.
#[derive(Debug, PartialEq)]
pub enum ValList {
    Nil,
    Cons(Val, Box<ValList>),
}

/// Mathematical model of a value: object handles appear by identity.
pub enum MVal {
    Null,
    Bool(bool),
    Num(int),
    Str(Seq<u8>),
    Arr(Seq<MVal>),
    Obj(int),
    Func(int),
}

/// Model of a value.
pub open spec fn val_model(v: Val) -> MVal
    decreases v,
{
    match v {
        Val::Null => MVal::Null,
        Val::Bool(b) => MVal::Bool(b),
        Val::Num(n) => MVal::Num(n as int),
        Val::Str(s) => MVal::Str(s@),
        Val::Arr(l) => MVal::Arr(list_model(*l)),
        Val::Obj(o) => MVal::Obj(o.id as int),
        Val::Func(f) => MVal::Func(f as int),
    }
}

/// Model of an array's elements.
pub open spec fn list_model(l: ValList) -> Seq<MVal>
    decreases l,
{
    match l {
        ValList::Nil => Seq::empty(),
        ValList::Cons(v, rest) => seq![val_model(v)] + list_model(*rest),
    }
}

/// Model of an optional value (`None` records an absent field).
pub open spec fn opt_val_model(v: Option<Val>) -> Option<MVal> {
    match v {
        Option::None => Option::<MVal>::None,
        Option::Some(x) => Option::Some(val_model(x)),
    }
}

impl Val {
    /// A copy with the same model.
    pub fn duplicate(&self) -> (r: Val)
        ensures
            val_model(r) == val_model(*self),
        decreases *self,
    {
        match self {
            Val::Null => Val::Null,
            Val::Bool(b) => Val::Bool(*b),
            Val::Num(n) => Val::Num(*n),
            Val::Str(s) => Val::Str(s.duplicate()),
            Val::Arr(l) => Val::Arr(Box::new(l.duplicate())),
            Val::Obj(o) => Val::Obj(*o),
            Val::Func(f) => Val::Func(*f),
        }
    }
}

impl ValList {
    /// A copy with the same model.
    pub fn duplicate(&self) -> (r: ValList)
        ensures
            list_model(r) == list_model(*self),
        decreases *self,
    {
        match self {
            ValList::Nil => ValList::Nil,
            ValList::Cons(v, rest) => ValList::Cons(v.duplicate(), Box::new(rest.duplicate())),
        }
    }
}

/// A copy of an optional value with the same model.
pub fn duplicate_opt_val(v: &Option<Val>) -> (r: Option<Val>)
    ensures
        opt_val_model(r) == opt_val_model(*v),
{
    match v {
        Option::None => Option::None,
        Option::Some(x) => Option::Some(x.duplicate()),
    }
}

/// Value equality as the surface language's `==` sees it: structural on
/// plain data, identity on objects.
pub fn val_eq(a: &Val, b: &Val) -> (r: bool)
    ensures
        r == (val_model(*a) == val_model(*b)),
    decreases *a,
{
    match (a, b) {
        (Val::Null, Val::Null) => true,
        (Val::Bool(x), Val::Bool(y)) => x == y,
        (Val::Num(x), Val::Num(y)) => x == y,
        (Val::Str(x), Val::Str(y)) => x.eq_name(y),
        (Val::Arr(x), Val::Arr(y)) => list_eq(x, y),
        (Val::Obj(x), Val::Obj(y)) => x.id == y.id,
        (Val::Func(x), Val::Func(y)) => x == y,
        _ => false,
    }
}

/// Element-wise equality of array contents.
pub fn list_eq(a: &ValList, b: &ValList) -> (r: bool)
    ensures
        r == (list_model(*a) == list_model(*b)),
    decreases *a,
{
    match (a, b) {
        (ValList::Nil, ValList::Nil) => true,
        (ValList::Cons(x, xs), ValList::Cons(y, ys)) => {
            let he = val_eq(x, y);
            if !he {
                proof {
                    assert(list_model(*a)[0] == val_model(*x));
                    assert(list_model(*b)[0] == val_model(*y));
                }
                false
            } else {
                let te = list_eq(xs, ys);
                proof {
                    if te {
                        assert(list_model(*a) =~= list_model(*b));
                    } else {
                        lemma_cons_tail(*a, *x, **xs);
                        lemma_cons_tail(*b, *y, **ys);
                    }
                }
                te
            }
        }
        (ValList::Nil, ValList::Cons(_, _)) => {
            proof {
                assert(list_model(*a).len() == 0);
                assert(list_model(*b).len() >= 1);
            }
            false
        }
        (ValList::Cons(_, _), ValList::Nil) => {
            proof {
                assert(list_model(*a).len() >= 1);
                assert(list_model(*b).len() == 0);
            }
            false
        }
    }
}

/// The tail of a cons cell models the tail of the modelled sequence.
proof fn lemma_cons_tail(l: ValList, v: Val, rest: ValList)
    requires
        l == ValList::Cons(v, Box::new(rest)),
    ensures
        list_model(rest) =~= list_model(l).skip(1),
{
}

/// Concatenation of two arrays' elements.
pub fn list_append(a: &ValList, b: &ValList) -> (r: ValList)
    ensures
        list_model(r) == list_model(*a) + list_model(*b),
    decreases *a,
{
    match a {
        ValList::Nil => {
            let r = b.duplicate();
            proof {
                assert(list_model(*a) + list_model(*b) =~= list_model(*b));
            }
            r
        }
        ValList::Cons(v, rest) => {
            let tail = list_append(rest, b);
            let r = ValList::Cons(v.duplicate(), Box::new(tail));
            proof {
                assert(list_model(r) =~= list_model(*a) + list_model(*b));
            }
            r
        }
    }
}

/// A deferred computation for a member's value, evaluated against a bound
/// `self` and `super`.  The engine forces it during field resolution.
pub enum LazyBinding {
    /// A value that is already known.
    Literal(Val),
    /// `self.name`
    SelfField(IStr),
    /// `super.name`
    SuperField(IStr),
    /// `a + b` (numbers, strings, arrays, objects)
    Plus(Box<LazyBinding>, Box<LazyBinding>),
    /// `a == b`
    Equals(Box<LazyBinding>, Box<LazyBinding>),
}

/// Model of a binding.
pub enum MBind {
    Literal(MVal),
    SelfField(Seq<u8>),
    SuperField(Seq<u8>),
    Plus(Box<MBind>, Box<MBind>),
    Equals(Box<MBind>, Box<MBind>),
}

/// Model of a binding.
pub open spec fn bind_model(b: LazyBinding) -> MBind
    decreases b,
{
    match b {
        LazyBinding::Literal(v) => MBind::Literal(val_model(v)),
        LazyBinding::SelfField(k) => MBind::SelfField(k@),
        LazyBinding::SuperField(k) => MBind::SuperField(k@),
        LazyBinding::Plus(x, y) => MBind::Plus(Box::new(bind_model(*x)), Box::new(bind_model(*y))),
        LazyBinding::Equals(x, y) => MBind::Equals(
            Box::new(bind_model(*x)),
            Box::new(bind_model(*y)),
        ),
    }
}

/// Structural height of a binding model, the termination measure of
/// evaluation within one stack frame.
pub open spec fn bind_height(b: MBind) -> nat
    decreases b,
{
    match b {
        MBind::Literal(_) => 0,
        MBind::SelfField(_) => 0,
        MBind::SuperField(_) => 0,
        MBind::Plus(x, y) => 1 + if bind_height(*x) > bind_height(*y) {
            bind_height(*x)
        } else {
            bind_height(*y)
        },
        MBind::Equals(x, y) => 1 + if bind_height(*x) > bind_height(*y) {
            bind_height(*x)
        } else {
            bind_height(*y)
        },
    }
}

impl LazyBinding {
    /// A copy with the same model.
    pub fn duplicate(&self) -> (r: LazyBinding)
        ensures
            bind_model(r) == bind_model(*self),
        decreases *self,
    {
        match self {
            LazyBinding::Literal(v) => LazyBinding::Literal(v.duplicate()),
            LazyBinding::SelfField(k) => LazyBinding::SelfField(k.duplicate()),
            LazyBinding::SuperField(k) => LazyBinding::SuperField(k.duplicate()),
            LazyBinding::Plus(x, y) => LazyBinding::Plus(
                Box::new(x.duplicate()),
                Box::new(y.duplicate()),
            ),
            LazyBinding::Equals(x, y) => LazyBinding::Equals(
                Box::new(x.duplicate()),
                Box::new(y.duplicate()),
            ),
        }
    }
}

} // verus!
