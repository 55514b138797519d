mod expr;
mod istr;
mod obj;
mod opts;
mod val;

pub use expr::{BinaryOpType, ExprLocation, LiteralType, UnaryOpType, Visibility};
pub use istr::IStr;
pub use obj::{
    evaluate_add_op, MCache, MMember, MNode, ObjArena, ObjMember, ObjValue, ObjValueInternals,
    ObjectAssertion,
};
pub use opts::{ConfigureState, GeneralOpts, InputOpts, MiscOpts};
pub use val::{list_eq, val_eq, EvalError, LazyBinding, Val, ValList};
