use vstd::prelude::*;

verus! {

/// Field visibility.
///
/// `Normal` (`:`) fields are shown by default; `Hidden` (`::`) fields are
/// suppressed from default enumeration but still resolvable; `Unhide` (`:::`)
/// forces a field visible even when an ancestor hid it.
#[derive(Debug, Clone, Copy, PartialEq, Eq, Structural)]
pub enum Visibility {
    /// :
    Normal,
    /// ::
    Hidden,
    /// :::
    Unhide,
}

/// A visibility counts as visible when it is `Normal` or `Unhide`.
pub open spec fn spec_is_visible(v: Visibility) -> bool {
    v != Visibility::Hidden
}

impl Visibility {
    /// Whether a field with this visibility is shown by default.
    pub fn is_visible(&self) -> (r: bool)
        ensures
            r == spec_is_visible(*self),
    {
        match self {
            Visibility::Normal => true,
            Visibility::Hidden => false,
            Visibility::Unhide => true,
        }
    }
}

/// Unary operators of the surface language.
#[derive(Debug, Clone, Copy, PartialEq, Eq, Structural)]
pub enum UnaryOpType {
    Plus,
    Minus,
    BitNot,
    Not,
}

/// Binary operators of the surface language.
#[derive(Debug, Clone, Copy, PartialEq, Eq, Structural)]
pub enum BinaryOpType {
    Mul,
    Div,
    Mod,
    Add,
    Sub,
    Lhs,
    Rhs,
    Lt,
    Gt,
    Lte,
    Gte,
    In,
    Eq,
    Ne,
    BitAnd,
    BitOr,
    BitXor,
    And,
    Or,
}

/// Keyword literals of the surface language.
#[derive(Debug, Clone, Copy, PartialEq, Eq, Structural)]
pub enum LiteralType {
    This,
    Super,
    Dollar,
    Null,
    True,
    False,
}

/// Source position of an expression: file, begin offset, end offset.
/// Carried on members only for diagnostics; the engine never reads it.
#[derive(Debug, Clone)]
pub struct ExprLocation(pub String, pub usize, pub usize);

} // verus!
