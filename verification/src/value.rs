use vstd::prelude::*;

use std::rc::Rc;

use crate::ast::Expr;

verus! {

/// The values of the language.
#[derive(Debug)]
pub enum Value {
    Int(i64),
    Bool(bool),
    Closure(Rc<Closure>),
}

/// A function value: its parameter, its body and the environment it was defined in.
#[derive(Debug)]
pub struct Closure {
    pub parameter: String,
    pub body: Expr,
    pub environment: ValueEnv,
}

/// An environment of values: a chain of bindings, the most recent first.
/// A name bound twice refers to its most recent binding.
#[derive(Debug)]
pub enum ValueEnv {
    Empty,
    Bind { name: String, value: Value, rest: Rc<ValueEnv> },
}

/// `Rc::clone`: returns another pointer to the same allocation, so the result
/// equals the pointer it was made from.
#[verifier::external_body]
pub(crate) fn share_rc<T>(rc: &Rc<T>) -> (copy: Rc<T>)
    ensures
        copy == *rc,
{
    Rc::clone(rc)
}

impl Value {
    /// A copy of the value; a closure is shared, not copied.
    pub fn share(&self) -> (copy: Value)
        ensures
            copy == *self,
    {
        match self {
            Value::Int(value) => Value::Int(*value),
            Value::Bool(value) => Value::Bool(*value),
            Value::Closure(closure) => Value::Closure(share_rc(closure)),
        }
    }
}

impl Clone for Value {
    fn clone(&self) -> (copy: Self)
        ensures
            copy == *self,
    {
        self.share()
    }
}

impl Clone for Closure {
    fn clone(&self) -> (copy: Self)
        ensures
            copy == *self,
    {
        Closure {
            parameter: self.parameter.clone(),
            body: self.body.duplicate(),
            environment: self.environment.share(),
        }
    }
}

impl Clone for ValueEnv {
    fn clone(&self) -> (copy: Self)
        ensures
            copy == *self,
    {
        self.share()
    }
}

impl ValueEnv {
    /// The value of the most recent binding of `name`, if any.
    pub open spec fn lookup(self, name: Seq<char>) -> Option<Value>
        decreases self,
    {
        match self {
            ValueEnv::Empty => None,
            ValueEnv::Bind { name: bound, value, rest } => {
                if bound@ == name {
                    Some(value)
                } else {
                    (*rest).lookup(name)
                }
            },
        }
    }

    pub fn new() -> (env: ValueEnv)
        ensures
            env == ValueEnv::Empty,
    {
        ValueEnv::Empty
    }

    /// A copy of the environment that shares its bindings.
    pub fn share(&self) -> (copy: ValueEnv)
        ensures
            copy == *self,
    {
        match self {
            ValueEnv::Empty => ValueEnv::Empty,
            ValueEnv::Bind { name, value, rest } => ValueEnv::Bind {
                name: name.clone(),
                value: value.share(),
                rest: share_rc(rest),
            },
        }
    }

    /// The environment extended by a binding of `name` to `value`.
    pub fn bind(&self, name: String, value: Value) -> (env: ValueEnv)
        ensures
            env == (ValueEnv::Bind { name, value, rest: Rc::new(*self) }),
    {
        ValueEnv::Bind { name, value, rest: Rc::new(self.share()) }
    }

    /// A copy of the value of the most recent binding of `name`, if any.
    pub fn get(&self, name: &String) -> (value: Option<Value>)
        ensures
            value == self.lookup(name@),
        decreases self,
    {
        match self {
            ValueEnv::Empty => None,
            ValueEnv::Bind { name: bound, value, rest } => {
                if String::eq(bound, name) {
                    Some(value.share())
                } else {
                    rest.get(name)
                }
            },
        }
    }
}

} // verus!
