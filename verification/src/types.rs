//! Concrete types and equation justifications.

use vstd::prelude::*;

verus! {

/// The primitive types the language infers.
#[derive(Debug, Clone, Copy, PartialEq, Eq, Structural)]
pub enum Primitive {
    Bool,
    Num,
    Unit,
}

/// A function's signature: parameter names (the empty string stands for the
/// single positional argument) with their declared primitive types, and the
/// declared return type.
#[derive(Debug)]
pub struct FnSignature {
    pub params: Vec<(String, Primitive)>,
    pub ret: Primitive,
}

/// A fully resolved type: a primitive, or a first-order function signature.
#[derive(Debug)]
pub enum ConcreteType {
    Prim(Primitive),
    Function(FnSignature),
}

/// Two signatures agree when their parameter lists match by name and type,
/// in order, and the return types agree.
pub open spec fn sig_eq(a: &FnSignature, b: &FnSignature) -> bool {
    &&& a.params@.len() == b.params@.len()
    &&& forall|i: int|
        0 <= i < a.params@.len() ==> (#[trigger] a.params@[i]).0@ == b.params@[i].0@
            && a.params@[i].1 == b.params@[i].1
    &&& a.ret == b.ret
}

pub open spec fn ct_eq(a: &ConcreteType, b: &ConcreteType) -> bool {
    match (a, b) {
        (ConcreteType::Prim(x), ConcreteType::Prim(y)) => x == y,
        (ConcreteType::Function(x), ConcreteType::Function(y)) => sig_eq(x, y),
        _ => false,
    }
}

impl FnSignature {
    pub fn same_as(&self, other: &FnSignature) -> (r: bool)
        ensures
            r == sig_eq(self, other),
    {
        if self.ret != other.ret {
            return false;
        }
        if self.params.len() != other.params.len() {
            return false;
        }
        for i in 0..self.params.len()
            invariant
                self.params@.len() == other.params@.len(),
                forall|j: int|
                    0 <= j < i ==> (#[trigger] self.params@[j]).0@ == other.params@[j].0@
                        && self.params@[j].1 == other.params@[j].1,
        {
            if self.params[i].0 != other.params[i].0 {
                return false;
            }
            if self.params[i].1 != other.params[i].1 {
                return false;
            }
        }
        true
    }

    pub fn duplicate(&self) -> (r: FnSignature)
        ensures
            r.params@.len() == self.params@.len(),
            forall|i: int|
                0 <= i < self.params@.len() ==> (#[trigger] r.params@[i]).0@ == self.params@[i].0@
                    && r.params@[i].1 == self.params@[i].1,
            r.ret == self.ret,
            sig_eq(&r, self),
    {
        let mut params: Vec<(String, Primitive)> = Vec::new();
        for i in 0..self.params.len()
            invariant
                params@.len() == i,
                forall|j: int|
                    0 <= j < i ==> (#[trigger] params@[j]).0@ == self.params@[j].0@
                        && params@[j].1 == self.params@[j].1,
        {
            let name = self.params[i].0.clone();
            let prim = self.params[i].1;
            params.push((name, prim));
        }
        FnSignature { params, ret: self.ret }
    }
}

impl ConcreteType {
    pub fn same_as(&self, other: &ConcreteType) -> (r: bool)
        ensures
            r == ct_eq(self, other),
    {
        match (self, other) {
            (ConcreteType::Prim(x), ConcreteType::Prim(y)) => x == y,
            (ConcreteType::Function(x), ConcreteType::Function(y)) => x.same_as(y),
            _ => false,
        }
    }

    pub fn duplicate(&self) -> (r: ConcreteType)
        ensures
            ct_eq(&r, self),
            r is Prim <==> self is Prim,
            r is Prim ==> r == self,
    {
        match self {
            ConcreteType::Prim(p) => ConcreteType::Prim(*p),
            ConcreteType::Function(sig) => ConcreteType::Function(sig.duplicate()),
        }
    }
}

/// Signature agreement is transitive.
pub proof fn lemma_sig_eq_trans(a: &FnSignature, b: &FnSignature, c: &FnSignature)
    requires
        sig_eq(a, b),
        sig_eq(b, c),
    ensures
        sig_eq(a, c),
{
    assert forall|i: int|
        0 <= i < a.params@.len() implies (#[trigger] a.params@[i]).0@ == c.params@[i].0@
        && a.params@[i].1 == c.params@[i].1 by {
        assert(a.params@[i].0@ == b.params@[i].0@);
        assert(b.params@[i].0@ == c.params@[i].0@);
    }
}

/// Type agreement is transitive.
pub proof fn lemma_ct_eq_trans(a: &ConcreteType, b: &ConcreteType, c: &ConcreteType)
    requires
        ct_eq(a, b),
        ct_eq(b, c),
    ensures
        ct_eq(a, c),
{
    match (a, b, c) {
        (ConcreteType::Function(x), ConcreteType::Function(y), ConcreteType::Function(z)) => {
            lemma_sig_eq_trans(x, y, z);
        },
        _ => {},
    }
}

/// The justification recorded on an equation, used only when rendering a
/// diagnostic, never by the solver.
#[derive(Debug, Clone, Copy, PartialEq, Eq, Structural)]
pub enum InferenceSource {
    ExplicitDecl,
    Declaration,
    Assignment,
    FunctionSignature,
    FnParameter,
    NumericOperator,
    BooleanOperator,
    EqualityOperator,
    IfConditionalBool,
    IfBranchesSame,
    LiteralValue,
    CallArgument,
    CallReturnType,
    ExplicitReturn,
}

} // verus!
