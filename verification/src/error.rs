//! The error kinds surfaced by the core. Errors travel as ordinary return
//! values; nothing in the core catches them.

use crate::text::dec_digits;
use vstd::prelude::*;
use vstd::string::StringExecFns;

verus! {

/// The runtime type classes named in type-mismatch diagnostics.
#[derive(Clone, Copy, PartialEq, Eq, Structural, Debug)]
pub enum Type {
    Int,
    True,
    Nil,
    Cons,
    Vec,
    HashTable,
    Sequence,
    String,
    Symbol,
    Float,
    Func,
    Number,
    List,
}

/// Errors used across the runtime boundary.
#[derive(PartialEq, Debug)]
pub enum Error {
    /// A callable was invoked with the wrong number of arguments: expected,
    /// actual, and the callable's name.
    ArgCount(u16, u16, String),
    /// A value was required to be of one variant but was of another; the
    /// last field carries the value's printed form.
    Type(Type, Type, String),
    /// The arguments of `format` disagree with its `%`-specifiers.
    FormatArity,
    /// `make_closure` was given more closure variables than fit.
    ClosureOverflow,
    /// The allocator refused a request.
    OutOfMemory,
}

pub open spec fn type_text(t: Type) -> Seq<char> {
    match t {
        Type::Int => "Int"@,
        Type::True => "True"@,
        Type::Nil => "Nil"@,
        Type::Cons => "Cons"@,
        Type::Vec => "Vec"@,
        Type::HashTable => "HashTable"@,
        Type::Sequence => "Sequence"@,
        Type::String => "String"@,
        Type::Symbol => "Symbol"@,
        Type::Float => "Float"@,
        Type::Func => "Func"@,
        Type::Number => "Number"@,
        Type::List => "List"@,
    }
}

/// The user-visible form of each error, following the Emacs-Lisp
/// conventions for argument-count and type errors.
pub open spec fn error_text(e: Error) -> Seq<char> {
    match e {
        Error::ArgCount(exp, act, name) => "Expected "@ + dec_digits(exp as nat)
            + " argument(s) for `"@ + name@ + "', but found "@ + dec_digits(act as nat),
        Error::Type(exp, act, printed) => "expected "@ + type_text(exp) + ", found "@ + type_text(
            act,
        ) + ": "@ + printed@,
        Error::FormatArity => "Wrong number of arguments for format string"@,
        Error::ClosureOverflow => "Closure vars do not fit in const vec"@,
        Error::OutOfMemory => "Out of memory"@,
    }
}

fn type_label(t: &Type) -> (r: &'static str)
    ensures
        r@ == type_text(*t),
{
    match t {
        Type::Int => "Int",
        Type::True => "True",
        Type::Nil => "Nil",
        Type::Cons => "Cons",
        Type::Vec => "Vec",
        Type::HashTable => "HashTable",
        Type::Sequence => "Sequence",
        Type::String => "String",
        Type::Symbol => "Symbol",
        Type::Float => "Float",
        Type::Func => "Func",
        Type::Number => "Number",
        Type::List => "List",
    }
}

impl Error {
    /// An argument-count error for the callable `name`.
    pub fn arg_count(exp: u16, actual: u16, name: &str) -> (r: Error)
        ensures
            r matches Error::ArgCount(e, a, n) && e == exp && a == actual && n@ == name@,
    {
        Error::ArgCount(exp, actual, String::from_str(name))
    }

    /// The printed form of the error.
    pub fn message(&self) -> (r: String)
        ensures
            r@ == error_text(*self),
    {
        match self {
            Error::ArgCount(exp, act, name) => {
                let mut s = String::from_str("Expected ");
                s.append(crate::text::u64_text(*exp as u64).as_str());
                s.append(" argument(s) for `");
                s.append(name.as_str());
                s.append("', but found ");
                s.append(crate::text::u64_text(*act as u64).as_str());
                s
            },
            Error::Type(exp, act, printed) => {
                let mut s = String::from_str("expected ");
                s.append(type_label(exp));
                s.append(", found ");
                s.append(type_label(act));
                s.append(": ");
                s.append(printed.as_str());
                s
            },
            Error::FormatArity => String::from_str("Wrong number of arguments for format string"),
            Error::ClosureOverflow => String::from_str("Closure vars do not fit in const vec"),
            Error::OutOfMemory => String::from_str("Out of memory"),
        }
    }
}

} // verus!
