//! The payloads of heap cells: pairs, byte-code functions and symbols.

use crate::value::{spec_nil, spec_void, LispObj};
use vstd::prelude::*;
use vstd::string::StringExecFns;

verus! {

/// A heap cell with two value fields, `car` and `cdr`: the building block of
/// lists.
#[derive(Clone, Copy, PartialEq, Eq, Structural, Debug)]
pub struct Cons {
    pub car: LispObj,
    pub cdr: LispObj,
}

impl Cons {
    pub fn new(car: LispObj, cdr: LispObj) -> (r: Cons)
        ensures
            r.car == car,
            r.cdr == cdr,
    {
        Cons { car, cdr }
    }
}

/// A byte-compiled function: an immutable opcode sequence, a constant
/// vector, and the arity descriptor.
pub struct LispFn {
    pub op_codes: Vec<u8>,
    pub name: String,
    pub constants: Vec<LispObj>,
    pub rest_args: bool,
    pub required_args: u16,
    pub optional_args: u16,
    pub max_stack_usage: u16,
}

impl LispFn {
    /// A nameless function holding the single opcode `code` and nothing else.
    pub fn new(code: u8) -> (r: LispFn)
        ensures
            r.op_codes@ == seq![code],
            r.name@ == "void"@,
            r.constants@ == Seq::<LispObj>::empty(),
            r.rest_args == false,
            r.required_args == 0,
            r.optional_args == 0,
            r.max_stack_usage == 0,
    {
        let mut op_codes: Vec<u8> = Vec::new();
        op_codes.push(code);
        proof {
            assert(op_codes@ =~= seq![code]);
        }
        let constants: Vec<LispObj> = Vec::new();
        proof {
            assert(constants@ =~= Seq::<LispObj>::empty());
        }
        LispFn {
            op_codes,
            name: String::from_str("void"),
            constants,
            rest_args: false,
            required_args: 0,
            optional_args: 0,
            max_stack_usage: 0,
        }
    }
}

/// A symbol cell: a name, the global value slot, the function slot and the
/// property list. Interned symbols are additionally registered in the
/// context's intern table; identity is the cell's heap index.
pub struct Symbol {
    pub name: String,
    pub value: LispObj,
    pub function: LispObj,
    pub plist: LispObj,
    pub interned: bool,
}

impl Symbol {
    /// A fresh symbol cell with empty slots, not yet on any heap.
    pub fn with_name(name: String, interned: bool) -> (r: Symbol)
        ensures
            r.name@ == name@,
            r.value == spec_void(),
            r.function == spec_void(),
            r.plist == spec_nil(),
            r.interned == interned,
    {
        Symbol {
            name,
            value: LispObj::void(),
            function: LispObj::void(),
            plist: LispObj::nil(),
            interned,
        }
    }

    /// The symbol's print name.
    pub fn get_name(&self) -> (r: &str)
        ensures
            r@ == self.name@,
    {
        self.name.as_str()
    }
}

} // verus!
