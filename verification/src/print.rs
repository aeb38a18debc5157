//! The per-variant printer.
//!
//! Printing follows the tag: integers in decimal, strings quoted, symbols
//! by name, lists in parenthesised form with a dotted tail where the
//! chain does not end in nil. Recursion through the heap is bounded by a
//! fuel that the public entry sets to more than the cell count, so every
//! acyclic value prints fully and a cyclic one comes back as `None`
//! instead of diverging.

use crate::error::{Error, Type};
use crate::heap::{
    cell_data_of, cell_vals, val_ok, vals_ok, wf, CellData, Context,
};
use crate::text::{i64_text, int_text};
use crate::value::{
    fix_val, has_tag, spec_is_fixnum, LispObj, TAG_BUFFER, TAG_CONS, TAG_FLOAT, TAG_FN,
    TAG_HASHTABLE, TAG_LONG_STR, TAG_NIL, TAG_RECORD, TAG_SYMBOL, TAG_TRUE, TAG_VECTOR, TAG_VOID,
};
use vstd::pervasive::unreached;
use vstd::prelude::*;
use vstd::string::StringExecFns;

verus! {

pub open spec fn opt_view(r: Option<String>) -> Option<Seq<char>> {
    match r {
        Some(s) => Some(s@),
        None => None,
    }
}

/// The printed form of `v`, or `None` when the fuel runs out before the
/// value does (a cycle), when a word is dangling, or when the value is a
/// boxed float, whose digits the core does not render.
pub open spec fn print_val(cells: Seq<crate::heap::Cell>, v: LispObj, fuel: nat) -> Option<
    Seq<char>,
>
    decreases fuel, 1int, 0int,
{
    if fuel == 0 {
        None
    } else if spec_is_fixnum(v.bits) {
        Some(int_text(fix_val(v.bits)))
    } else if has_tag(v.bits, TAG_NIL) {
        Some("nil"@)
    } else if has_tag(v.bits, TAG_TRUE) {
        Some("t"@)
    } else if has_tag(v.bits, TAG_VOID) {
        Some("Void"@)
    } else if has_tag(v.bits, TAG_CONS) {
        if val_ok(cells, v) {
            match print_list_body(cells, v, fuel) {
                Some(s) => Some(seq!['('] + s + seq![')']),
                None => None,
            }
        } else {
            None
        }
    } else if has_tag(v.bits, TAG_LONG_STR) {
        if val_ok(cells, v) {
            match cell_data_of(cells, v) {
                CellData::Str(s) => Some(seq!['"'] + s@ + seq!['"']),
                _ => None,
            }
        } else {
            None
        }
    } else if has_tag(v.bits, TAG_SYMBOL) {
        if val_ok(cells, v) {
            match cell_data_of(cells, v) {
                CellData::Sym(s) => Some(s.name@),
                _ => None,
            }
        } else {
            None
        }
    } else if has_tag(v.bits, TAG_FN) {
        if val_ok(cells, v) {
            Some("#<byte-code-function>"@)
        } else {
            None
        }
    } else if has_tag(v.bits, TAG_VECTOR) {
        if val_ok(cells, v) {
            match cell_data_of(cells, v) {
                CellData::Vector(es) => match print_elems_from(cells, es@, 0, fuel) {
                    Some(s) => Some(seq!['['] + s + seq![']']),
                    None => None,
                },
                _ => None,
            }
        } else {
            None
        }
    } else if has_tag(v.bits, TAG_RECORD) {
        if val_ok(cells, v) {
            match cell_data_of(cells, v) {
                CellData::Record(es) => match print_elems_from(cells, es@, 0, fuel) {
                    Some(s) => Some("#s("@ + s + seq![')']),
                    None => None,
                },
                _ => None,
            }
        } else {
            None
        }
    } else if has_tag(v.bits, TAG_HASHTABLE) {
        if val_ok(cells, v) {
            Some("#<hash-table>"@)
        } else {
            None
        }
    } else if has_tag(v.bits, TAG_BUFFER) {
        if val_ok(cells, v) {
            Some("#<buffer>"@)
        } else {
            None
        }
    } else {
        None
    }
}

/// The elements of a proper or dotted cons chain, space-separated, with
/// ` . tail` where the chain ends in a non-nil non-cons value.
pub open spec fn print_list_body(cells: Seq<crate::heap::Cell>, v: LispObj, fuel: nat) -> Option<
    Seq<char>,
>
    decreases fuel, 0int, 0int,
{
    if fuel == 0 {
        None
    } else if !(val_ok(cells, v) && has_tag(v.bits, TAG_CONS)) {
        None
    } else {
        match cell_data_of(cells, v) {
            CellData::Cons(c) => match print_val(cells, c.car, (fuel - 1) as nat) {
                Some(car_s) => if has_tag(c.cdr.bits, TAG_NIL) {
                    Some(car_s)
                } else if has_tag(c.cdr.bits, TAG_CONS) {
                    match print_list_body(cells, c.cdr, (fuel - 1) as nat) {
                        Some(rest) => Some(car_s + seq![' '] + rest),
                        None => None,
                    }
                } else {
                    match print_val(cells, c.cdr, (fuel - 1) as nat) {
                        Some(tail) => Some(car_s + " . "@ + tail),
                        None => None,
                    }
                },
                None => None,
            },
            _ => None,
        }
    }
}

/// The elements of `es` from position `k` on, space-separated.
pub open spec fn print_elems_from(
    cells: Seq<crate::heap::Cell>,
    es: Seq<LispObj>,
    k: int,
    fuel: nat,
) -> Option<Seq<char>>
    decreases fuel, 0int, es.len() - k,
{
    if fuel == 0 {
        None
    } else if k < 0 || k >= es.len() {
        Some(Seq::empty())
    } else {
        match print_val(cells, es[k], (fuel - 1) as nat) {
            Some(s) => if k == es.len() - 1 {
                Some(s)
            } else {
                match print_elems_from(cells, es, k + 1, fuel) {
                    Some(rest) => Some(s + seq![' '] + rest),
                    None => None,
                }
            },
            None => None,
        }
    }
}

/// The fuel the public printer runs with: one more than the cell count,
/// capped at the machine word.
pub open spec fn print_fuel(cells: Seq<crate::heap::Cell>) -> nat {
    if cells.len() + 1 < usize::MAX as nat {
        (cells.len() + 1) as nat
    } else {
        usize::MAX as nat
    }
}

/// The printed form of `v` in context `cx`: enough fuel for any acyclic
/// value.
pub open spec fn printed(cx: Context, v: LispObj) -> Option<Seq<char>> {
    print_val(cx.cells@, v, print_fuel(cx.cells@))
}

fn print_rec(cx: &Context, v: LispObj, fuel: usize) -> (r: Option<String>)
    requires
        wf(*cx),
        val_ok(cx.cells@, v),
    ensures
        opt_view(r) == print_val(cx.cells@, v, fuel as nat),
    decreases fuel, 1int, 0int,
{
    if fuel == 0 {
        return None;
    }
    if v.is_fixnum() {
        let i = match v.as_int() {
            Some(i) => i,
            None => unreached(),
        };
        return Some(i64_text(i));
    }
    if v.is_nil() {
        return Some(String::from_str("nil"));
    }
    if v.is_true() {
        return Some(String::from_str("t"));
    }
    if v.is_void() {
        return Some(String::from_str("Void"));
    }
    let t: u64 = v.bits & 0xFFFF;
    if t == TAG_CONS as u64 {
        return match print_list_rec(cx, v, fuel) {
            Some(body) => {
                let mut s = String::from_str("(");
                s.append(body.as_str());
                s.append(")");
                proof {
                    assert(s@ =~= seq!['('] + body@ + seq![')']) by {
                        reveal_strlit("(");
                        reveal_strlit(")");
                    }
                }
                Some(s)
            },
            None => None,
        };
    }
    if t == TAG_LONG_STR as u64 {
        let contents = cx.get_str(v);
        let mut s = String::from_str("\"");
        s.append(contents.as_str());
        s.append("\"");
        proof {
            assert(s@ =~= seq!['"'] + contents@ + seq!['"']) by {
                reveal_strlit("\"");
            }
        }
        return Some(s);
    }
    if t == TAG_SYMBOL as u64 {
        return Some(cx.symbol_name(v));
    }
    if t == TAG_FN as u64 {
        return Some(String::from_str("#<byte-code-function>"));
    }
    if t == TAG_VECTOR as u64 {
        let i = v.ref_idx();
        let body = match cx.data_at(i) {
            CellData::Vector(es) => {
                proof {
                    assert(vals_ok(cx.cells@, cell_vals(cx.cells@[i as int].data)));
                }
                print_elems_rec(cx, es, 0, fuel)
            },
            _ => unreached(),
        };
        return match body {
            Some(body) => {
                let mut s = String::from_str("[");
                s.append(body.as_str());
                s.append("]");
                proof {
                    assert(s@ =~= seq!['['] + body@ + seq![']']) by {
                        reveal_strlit("[");
                        reveal_strlit("]");
                    }
                }
                Some(s)
            },
            None => None,
        };
    }
    if t == TAG_RECORD as u64 {
        let i = v.ref_idx();
        let body = match cx.data_at(i) {
            CellData::Record(es) => {
                proof {
                    assert(vals_ok(cx.cells@, cell_vals(cx.cells@[i as int].data)));
                }
                print_elems_rec(cx, es, 0, fuel)
            },
            _ => unreached(),
        };
        return match body {
            Some(body) => {
                let mut s = String::from_str("#s(");
                s.append(body.as_str());
                s.append(")");
                proof {
                    assert(s@ =~= "#s("@ + body@ + seq![')']) by {
                        reveal_strlit(")");
                    }
                }
                Some(s)
            },
            None => None,
        };
    }
    if t == TAG_HASHTABLE as u64 {
        return Some(String::from_str("#<hash-table>"));
    }
    if t == TAG_BUFFER as u64 {
        return Some(String::from_str("#<buffer>"));
    }
    None
}

fn print_list_rec(cx: &Context, v: LispObj, fuel: usize) -> (r: Option<String>)
    requires
        wf(*cx),
        val_ok(cx.cells@, v),
        has_tag(v.bits, TAG_CONS),
    ensures
        opt_view(r) == print_list_body(cx.cells@, v, fuel as nat),
    decreases fuel, 0int, 0int,
{
    if fuel == 0 {
        return None;
    }
    let car = cx.car(v);
    let cdr = cx.cdr(v);
    proof {
        let i = crate::value::spec_ref_idx(v.bits);
        assert(vals_ok(cx.cells@, cell_vals(cx.cells@[i].data)));
        assert(cell_vals(cx.cells@[i].data)[0] == car);
        assert(cell_vals(cx.cells@[i].data)[1] == cdr);
    }
    let car_s = match print_rec(cx, car, fuel - 1) {
        Some(s) => s,
        None => {
            return None;
        },
    };
    if cdr.is_nil() {
        Some(car_s)
    } else if cdr.is_cons() {
        match print_list_rec(cx, cdr, fuel - 1) {
            Some(rest) => {
                let mut s = car_s;
                s.append(" ");
                s.append(rest.as_str());
                proof {
                    reveal_strlit(" ");
                    assert(s@ =~= car_s@ + seq![' '] + rest@);
                }
                Some(s)
            },
            None => None,
        }
    } else {
        match print_rec(cx, cdr, fuel - 1) {
            Some(tail) => {
                let mut s = car_s;
                s.append(" . ");
                s.append(tail.as_str());
                proof {
                    assert(s@ =~= car_s@ + " . "@ + tail@);
                }
                Some(s)
            },
            None => None,
        }
    }
}

fn print_elems_rec(cx: &Context, es: &Vec<LispObj>, k: usize, fuel: usize) -> (r: Option<String>)
    requires
        wf(*cx),
        k <= es@.len(),
        vals_ok(cx.cells@, es@),
    ensures
        opt_view(r) == print_elems_from(cx.cells@, es@, k as int, fuel as nat),
    decreases fuel, 0int, es@.len() - k,
{
    if fuel == 0 {
        return None;
    }
    if k >= es.len() {
        proof {
            assert(print_elems_from(cx.cells@, es@, k as int, fuel as nat) == Some(
                Seq::<char>::empty(),
            ));
        }
        return Some(String::new());
    }
    let s = match print_rec(cx, es[k], fuel - 1) {
        Some(s) => s,
        None => {
            return None;
        },
    };
    if k == es.len() - 1 {
        Some(s)
    } else {
        match print_elems_rec(cx, es, k + 1, fuel) {
            Some(rest) => {
                let mut out = s;
                out.append(" ");
                out.append(rest.as_str());
                proof {
                    reveal_strlit(" ");
                    assert(out@ =~= s@ + seq![' '] + rest@);
                }
                Some(out)
            },
            None => None,
        }
    }
}

/// Print one value: its representation per variant, or `None` for a
/// cycle, a dangling word or a boxed float.
pub fn print_obj(cx: &Context, v: LispObj) -> (r: Option<String>)
    requires
        wf(*cx),
        val_ok(cx.cells@, v),
    ensures
        opt_view(r) == printed(*cx, v),
    {
    let n = cx.cells.len();
    let fuel = if n < usize::MAX {
        n + 1
    } else {
        usize::MAX
    };
    proof {
        assert(fuel as nat == print_fuel(cx.cells@));
    }
    print_rec(cx, v, fuel)
}

/// The runtime type class a value answers to, for diagnostics.
pub open spec fn spec_type_class(v: LispObj) -> Type {
    if spec_is_fixnum(v.bits) {
        Type::Int
    } else if has_tag(v.bits, TAG_NIL) {
        Type::Nil
    } else if has_tag(v.bits, TAG_TRUE) {
        Type::True
    } else if has_tag(v.bits, TAG_CONS) {
        Type::Cons
    } else if has_tag(v.bits, TAG_LONG_STR) {
        Type::String
    } else if has_tag(v.bits, TAG_SYMBOL) {
        Type::Symbol
    } else if has_tag(v.bits, TAG_FLOAT) {
        Type::Float
    } else if has_tag(v.bits, TAG_FN) {
        Type::Func
    } else if has_tag(v.bits, TAG_VECTOR) || has_tag(v.bits, TAG_RECORD) {
        Type::Vec
    } else if has_tag(v.bits, TAG_HASHTABLE) {
        Type::HashTable
    } else {
        Type::Sequence
    }
}

/// The executable type classification.
pub fn type_class(v: LispObj) -> (r: Type)
    ensures
        r == spec_type_class(v),
{
    if v.is_fixnum() {
        Type::Int
    } else {
        let t: u64 = v.bits & 0xFFFF;
        if t == TAG_NIL as u64 {
            Type::Nil
        } else if t == TAG_TRUE as u64 {
            Type::True
        } else if t == TAG_CONS as u64 {
            Type::Cons
        } else if t == TAG_LONG_STR as u64 {
            Type::String
        } else if t == TAG_SYMBOL as u64 {
            Type::Symbol
        } else if t == TAG_FLOAT as u64 {
            Type::Float
        } else if t == TAG_FN as u64 {
            Type::Func
        } else if t == TAG_VECTOR as u64 || t == TAG_RECORD as u64 {
            Type::Vec
        } else if t == TAG_HASHTABLE as u64 {
            Type::HashTable
        } else {
            Type::Sequence
        }
    }
}

impl Error {
    /// A type error carrying the expected class, the value's own class,
    /// and the value's printed form.
    pub fn from_object(exp: Type, cx: &Context, obj: LispObj) -> (r: Error)
        requires
            wf(*cx),
            val_ok(cx.cells@, obj),
            printed(*cx, obj) is Some,
        ensures
            r matches Error::Type(e, a, p) && e == exp && a == spec_type_class(obj) && Some(p@)
                == printed(*cx, obj),
    {
        let text = match print_obj(cx, obj) {
            Some(s) => s,
            None => unreached(),
        };
        let act = type_class(obj);
        Error::Type(exp, act, text)
    }
}

} // verus!
