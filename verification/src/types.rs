use vstd::prelude::*;

verus! {

pub type TypeVar = u32;

/// The types of the language: `int`, `bool`, type variables and functions.
#[derive(Debug, PartialEq, Eq)]
pub enum Type {
    Int,
    Bool,
    Var(TypeVar),
    Function(Box<Type>, Box<Type>),
}

/// A type in which the listed variables are universally quantified.
#[derive(Debug, PartialEq, Eq)]
pub struct TypeScheme {
    pub quantified: Vec<TypeVar>,
    pub ty: Type,
}

/// A type environment: the bindings in the order they were made; a name
/// bound twice refers to its most recent binding.
pub type TypeEnv = Vec<(String, TypeScheme)>;

impl Type {
    /// A copy of the type that is equal to it.
    pub fn duplicate(&self) -> (copy: Self)
        ensures
            copy == *self,
        decreases self,
    {
        match self {
            Type::Int => Type::Int,
            Type::Bool => Type::Bool,
            Type::Var(id) => Type::Var(*id),
            Type::Function(input, output) => Type::Function(
                Box::new(input.duplicate()),
                Box::new(output.duplicate()),
            ),
        }
    }

    /// Whether two types are the same.
    pub fn same(&self, other: &Type) -> (same: bool)
        ensures
            same == (*self == *other),
        decreases self,
    {
        match (self, other) {
            (Type::Int, Type::Int) => true,
            (Type::Bool, Type::Bool) => true,
            (Type::Var(a), Type::Var(b)) => *a == *b,
            (Type::Function(a, b), Type::Function(c, d)) => a.same(c) && b.same(d),
            _ => false,
        }
    }
}

impl Clone for Type {
    fn clone(&self) -> (copy: Self)
        ensures
            copy == *self,
    {
        self.duplicate()
    }
}

impl Clone for TypeScheme {
    fn clone(&self) -> (copy: Self)
        ensures
            copy.quantified@ == self.quantified@,
            copy.ty == self.ty,
    {
        let quantified = self.quantified.clone();
        assert(quantified@ =~= self.quantified@);
        TypeScheme { quantified, ty: self.ty.duplicate() }
    }
}

} // verus!
