//! Identifiers and values: variable names, attribute names, and the
//! dynamically typed scalar values that expressions produce.

use vstd::prelude::*;

verus! {

/// A variable identifier. A binding of the same name in a nearer scope
/// shadows a binding in a farther ancestor.
#[derive(Debug, PartialEq, Eq, Hash)]
pub struct VarName(pub String);

impl View for VarName {
    type V = Seq<char>;

    open spec fn view(&self) -> Seq<char> {
        self.0@
    }
}

impl Clone for VarName {
    fn clone(&self) -> (r: Self)
        ensures
            r == *self,
    {
        VarName(self.0.clone())
    }
}

impl VarName {
    /// True exactly when the two names are the same identifier.
    pub fn same_name(&self, other: &VarName) -> (r: bool)
        ensures
            r == (self@ == other@),
    {
        self.0 == other.0
    }
}

/// A widget-attribute identifier. When a scope is derived, each attribute's
/// value is bound under the attribute's underlying name in the new scope.
#[derive(Debug, PartialEq, Eq, Hash)]
pub struct AttrName(pub String);

impl View for AttrName {
    type V = Seq<char>;

    open spec fn view(&self) -> Seq<char> {
        self.0@
    }
}

impl Clone for AttrName {
    fn clone(&self) -> (r: Self)
        ensures
            r == *self,
    {
        AttrName(self.0.clone())
    }
}

impl AttrName {
    /// The same identifier seen as a variable name.
    pub fn as_var_name(&self) -> (r: VarName)
        ensures
            r@ == self@,
    {
        VarName(self.0.clone())
    }
}

/// A dynamically typed scalar, kept in its textual form. Numeric operators
/// read it as a decimal integer.
#[derive(Debug, PartialEq, Eq)]
pub struct Value(pub String);

impl View for Value {
    type V = Seq<char>;

    open spec fn view(&self) -> Seq<char> {
        self.0@
    }
}

impl Clone for Value {
    fn clone(&self) -> (r: Self)
        ensures
            r == *self,
    {
        Value(self.0.clone())
    }
}

} // verus!
