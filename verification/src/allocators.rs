//! The built-in allocators: the public face of the core to the rest of
//! the interpreter. Cons lists, vectors, records, fresh symbols, byte-code
//! functions and closures.

use crate::error::Error;
use crate::heap::{
    alloc_post, cell_data_of, cell_live, heap_extended, heap_step, lemma_heap_step_trans,
    lemma_live_count_bounds, live_count, same_frame, val_ok, vals_ok, wf, CellData, Context,
};
use crate::object::{Cons, LispFn, Symbol};
use crate::value::{has_tag, spec_nil, spec_ref_idx, LispObj, TAG_CONS, TAG_SYMBOL};
use vstd::pervasive::unreached;
use vstd::prelude::*;
use vstd::string::StringExecFns;

verus! {

/// `v` is a cons chain over exactly `items`, in order, ending in nil:
/// the shape `list` builds and the shape a cdr-walk reads back.
pub open spec fn list_chain(cells: Seq<crate::heap::Cell>, v: LispObj, items: Seq<LispObj>) -> bool
    decreases items.len(),
{
    if items.len() == 0 {
        v == spec_nil()
    } else {
        &&& has_tag(v.bits, TAG_CONS)
        &&& val_ok(cells, v)
        &&& cell_data_of(cells, v) matches CellData::Cons(c) && c.car == items[0] && list_chain(
            cells,
            c.cdr,
            items.drop_first(),
        )
    }
}

/// A cons chain survives any heap growth that keeps live cells.
proof fn lemma_list_chain_extend(
    oldc: Seq<crate::heap::Cell>,
    newc: Seq<crate::heap::Cell>,
    v: LispObj,
    items: Seq<LispObj>,
)
    requires
        heap_extended(oldc, newc),
        list_chain(oldc, v, items),
    ensures
        list_chain(newc, v, items),
    decreases items.len(),
{
    if items.len() > 0 {
        let i = spec_ref_idx(v.bits);
        assert(cell_live(oldc, i));
        assert(newc[i] == oldc[i]);
        let c = match oldc[i].data {
            CellData::Cons(c) => c,
            _ => arbitrary(),
        };
        lemma_list_chain_extend(oldc, newc, c.cdr, items.drop_first());
    }
}

/// A copy of a byte vector.
fn copy_bytes(src: &Vec<u8>) -> (r: Vec<u8>)
    ensures
        r@ == src@,
{
    let mut r: Vec<u8> = Vec::new();
    let mut k: usize = 0;
    while k < src.len()
        invariant
            k <= src@.len(),
            r@ == src@.subrange(0, k as int),
        decreases src@.len() - k,
    {
        r.push(src[k]);
        k = k + 1;
        proof {
            assert(r@ =~= src@.subrange(0, k as int));
        }
    }
    proof {
        assert(r@ =~= src@);
    }
    r
}

/// A copy of a value slice.
fn copy_objs(src: &[LispObj]) -> (r: Vec<LispObj>)
    ensures
        r@ == src@,
{
    let mut r: Vec<LispObj> = Vec::new();
    let mut k: usize = 0;
    while k < src.len()
        invariant
            k <= src@.len(),
            r@ == src@.subrange(0, k as int),
        decreases src@.len() - k,
    {
        r.push(src[k]);
        k = k + 1;
        proof {
            assert(r@ =~= src@.subrange(0, k as int));
        }
    }
    proof {
        assert(r@ =~= src@);
    }
    r
}

/// Build a right-folded cons chain over `objects`, terminated by nil.
/// With no arguments the result is nil itself. Succeeds exactly when the
/// heap has room for one cell per argument.
pub fn list(objects: &[LispObj], cx: &mut Context) -> (r: Result<LispObj, Error>)
    requires
        wf(*old(cx)),
        vals_ok(old(cx).cells@, objects@),
    ensures
        wf(*final(cx)),
        same_frame(*old(cx), *final(cx)),
        heap_extended(old(cx).cells@, final(cx).cells@),
        heap_step(*old(cx), *final(cx)),
        r is Ok <==> live_count(*old(cx)) + objects@.len() <= old(cx).capacity,
        match r {
            Ok(v) => {
                &&& list_chain(final(cx).cells@, v, objects@)
                &&& live_count(*final(cx)) == live_count(*old(cx)) + objects@.len()
            },
            Err(e) => {
                &&& e == Error::OutOfMemory
                &&& *final(cx) == *old(cx)
            },
        },
{
    let ghost orig = *cx;
    proof {
        lemma_live_count_bounds(*cx);
    }
    let n = objects.len();
    let live = cx.cells.len() - cx.free.len();
    if n > cx.capacity - live {
        proof {
            crate::intern::lemma_step_refl_pub(*cx);
        }
        return Err(Error::OutOfMemory);
    }
    let mut head = LispObj::nil();
    let mut k = n;
    proof {
        assert(objects@.subrange(n as int, n as int) =~= Seq::<LispObj>::empty());
        crate::value::lemma_immediate_words();
        crate::intern::lemma_step_refl_pub(*cx);
    }
    while k > 0
        invariant
            k <= n,
            n == objects@.len(),
            wf(*cx),
            same_frame(orig, *cx),
            heap_extended(orig.cells@, cx.cells@),
            heap_step(orig, *cx),
            vals_ok(orig.cells@, objects@),
            live_count(*cx) == live_count(orig) + (n - k),
            live_count(orig) + n <= orig.capacity,
            val_ok(cx.cells@, head),
            list_chain(cx.cells@, head, objects@.subrange(k as int, n as int)),
        decreases k,
    {
        k = k - 1;
        let ghost prev = *cx;
        let ghost head_prev = head;
        let elem = objects[k];
        proof {
            assert(val_ok(orig.cells@, elem));
            crate::heap::lemma_val_ok_extend_pub(orig.cells@, cx.cells@, elem);
        }
        let made = cx.add_cons(Cons::new(elem, head));
        head = match made {
            Ok(v) => v,
            Err(_) => unreached(),
        };
        proof {
            lemma_heap_step_trans(orig, prev, *cx);
            assert(heap_extended(orig.cells@, cx.cells@)) by {
                assert forall|j: int| #[trigger] cell_live(orig.cells@, j) implies cx.cells@[j]
                    == orig.cells@[j] by {
                    assert(prev.cells@[j] == orig.cells@[j]);
                    assert(cell_live(prev.cells@, j));
                }
            }
            lemma_list_chain_extend(
                prev.cells@,
                cx.cells@,
                head_prev,
                objects@.subrange(k as int + 1, n as int),
            );
            let items = objects@.subrange(k as int, n as int);
            assert(items[0] == elem);
            assert(items.drop_first() =~= objects@.subrange(k as int + 1, n as int));
            assert(list_chain(cx.cells@, head, items));
        }
    }
    proof {
        assert(objects@.subrange(0, n as int) =~= objects@);
    }
    Ok(head)
}

/// A vector of `length` slots, every one holding `init`.
pub fn make_vector(length: usize, init: LispObj, cx: &mut Context) -> (r: Result<LispObj, Error>)
    requires
        wf(*old(cx)),
        val_ok(old(cx).cells@, init),
    ensures
        wf(*final(cx)),
        same_frame(*old(cx), *final(cx)),
        heap_step(*old(cx), *final(cx)),
        r is Ok <==> live_count(*old(cx)) < old(cx).capacity,
        match r {
            Ok(v) => {
                &&& has_tag(v.bits, crate::value::TAG_VECTOR)
                &&& val_ok(final(cx).cells@, v)
                &&& !cell_live(old(cx).cells@, spec_ref_idx(v.bits))
                &&& cell_data_of(final(cx).cells@, v) matches CellData::Vector(es) && es@.len()
                    == length && (forall|j: int| 0 <= j < es@.len() ==> es@[j] == init)
            },
            Err(e) => {
                &&& e == Error::OutOfMemory
                &&& *final(cx) == *old(cx)
            },
        },
{
    proof {
        lemma_live_count_bounds(*cx);
    }
    let mut es: Vec<LispObj> = Vec::new();
    let mut k: usize = 0;
    while k < length
        invariant
            k <= length,
            es@.len() == k as int,
            forall|j: int| 0 <= j < es@.len() ==> es@[j] == init,
        decreases length - k,
    {
        es.push(init);
        k = k + 1;
    }
    cx.add_vector(es)
}

/// A vector holding exactly the given values.
pub fn vector(objects: &[LispObj], cx: &mut Context) -> (r: Result<LispObj, Error>)
    requires
        wf(*old(cx)),
        vals_ok(old(cx).cells@, objects@),
    ensures
        wf(*final(cx)),
        same_frame(*old(cx), *final(cx)),
        heap_step(*old(cx), *final(cx)),
        r is Ok <==> live_count(*old(cx)) < old(cx).capacity,
        match r {
            Ok(v) => {
                &&& has_tag(v.bits, crate::value::TAG_VECTOR)
                &&& val_ok(final(cx).cells@, v)
                &&& !cell_live(old(cx).cells@, spec_ref_idx(v.bits))
                &&& cell_data_of(final(cx).cells@, v) matches CellData::Vector(es) && es@
                    == objects@
            },
            Err(e) => {
                &&& e == Error::OutOfMemory
                &&& *final(cx) == *old(cx)
            },
        },
{
    proof {
        lemma_live_count_bounds(*cx);
    }
    let es = copy_objs(objects);
    cx.add_vector(es)
}

/// A record whose first slot is the type tag value, followed by the
/// remaining slots.
pub fn record(type_: LispObj, slots: &[LispObj], cx: &mut Context) -> (r: Result<LispObj, Error>)
    requires
        wf(*old(cx)),
        val_ok(old(cx).cells@, type_),
        vals_ok(old(cx).cells@, slots@),
    ensures
        wf(*final(cx)),
        same_frame(*old(cx), *final(cx)),
        heap_step(*old(cx), *final(cx)),
        r is Ok <==> live_count(*old(cx)) < old(cx).capacity,
        match r {
            Ok(v) => {
                &&& has_tag(v.bits, crate::value::TAG_RECORD)
                &&& val_ok(final(cx).cells@, v)
                &&& !cell_live(old(cx).cells@, spec_ref_idx(v.bits))
                &&& cell_data_of(final(cx).cells@, v) matches CellData::Record(es) && es@ == seq![
                    type_,
                ] + slots@
            },
            Err(e) => {
                &&& e == Error::OutOfMemory
                &&& *final(cx) == *old(cx)
            },
        },
{
    proof {
        lemma_live_count_bounds(*cx);
    }
    let mut es: Vec<LispObj> = Vec::new();
    es.push(type_);
    let mut k: usize = 0;
    while k < slots.len()
        invariant
            k <= slots@.len(),
            es@ == seq![type_] + slots@.subrange(0, k as int),
        decreases slots@.len() - k,
    {
        es.push(slots[k]);
        k = k + 1;
        proof {
            assert(es@ =~= seq![type_] + slots@.subrange(0, k as int));
        }
    }
    proof {
        assert(es@ =~= seq![type_] + slots@);
        assert forall|j: int| 0 <= j < es@.len() implies val_ok(
            old(cx).cells@,
            #[trigger] es@[j],
        ) by {
            if j == 0 {
            } else {
                assert(es@[j] == slots@[j - 1]);
            }
        }
    }
    cx.add_record(es)
}

/// The identity: this core has no pure space, so `purecopy` returns its
/// argument unchanged, the very same word.
pub fn purecopy(obj: LispObj) -> (r: LispObj)
    ensures
        r == obj,
{
    obj
}

/// A fresh uninterned symbol with the given name. The returned cell was
/// not live before the call, so the new symbol is identical to no
/// pre-existing value.
pub fn make_symbol(name: &str, cx: &mut Context) -> (r: Result<LispObj, Error>)
    requires
        wf(*old(cx)),
    ensures
        wf(*final(cx)),
        same_frame(*old(cx), *final(cx)),
        heap_step(*old(cx), *final(cx)),
        r is Ok <==> live_count(*old(cx)) < old(cx).capacity,
        match r {
            Ok(v) => {
                &&& has_tag(v.bits, TAG_SYMBOL)
                &&& val_ok(final(cx).cells@, v)
                &&& !cell_live(old(cx).cells@, spec_ref_idx(v.bits))
                &&& cell_data_of(final(cx).cells@, v) matches CellData::Sym(s) && s.name@ == name@
                    && !s.interned
            },
            Err(e) => {
                &&& e == Error::OutOfMemory
                &&& *final(cx) == *old(cx)
            },
        },
{
    let sym = Symbol::with_name(String::from_str(name), false);
    proof {
        lemma_live_count_bounds(*cx);
        crate::value::lemma_immediate_words();
    }
    cx.add_symbol(sym)
}

/// Decode an arglist word and build a byte-code function over a copy of
/// the opcode bytes and a snapshot of the constants. Bits 0 to 6 of the
/// word are the required count, bit 7 the rest flag, bits 8 to 14 the
/// optional count. The depth, docstring, interactive spec and trailing
/// elements are accepted for the surrounding interpreter and ignored by
/// the core.
pub fn make_byte_code(
    arglist: i64,
    byte_code: &Vec<u8>,
    constants: &Vec<LispObj>,
    _depth: usize,
    _docstring: Option<LispObj>,
    _interactive_spec: Option<LispObj>,
    _elements: &[LispObj],
) -> (r: LispFn)
    ensures
        r.op_codes@ == byte_code@,
        r.constants@ == constants@,
        r.required_args == (arglist as u16) & 0x7F,
        r.optional_args == ((arglist as u16) >> 8) & 0x7F,
        r.rest_args == ((arglist as u16) & 0x80 != 0),
        r.name@ == Seq::<char>::empty(),
        r.max_stack_usage == 0,
{
    let word = arglist as u16;
    let required = word & 0x7F;
    let optional = (word >> 8u16) & 0x7F;
    let rest = word & 0x80 != 0;
    LispFn {
        op_codes: copy_bytes(byte_code),
        name: String::new(),
        constants: copy_objs_vec(constants),
        rest_args: rest,
        required_args: required,
        optional_args: optional,
        max_stack_usage: 0,
    }
}

/// A copy of a value vector.
fn copy_objs_vec(src: &Vec<LispObj>) -> (r: Vec<LispObj>)
    ensures
        r@ == src@,
{
    let mut r: Vec<LispObj> = Vec::new();
    let mut k: usize = 0;
    while k < src.len()
        invariant
            k <= src@.len(),
            r@ == src@.subrange(0, k as int),
        decreases src@.len() - k,
    {
        r.push(src[k]);
        k = k + 1;
        proof {
            assert(r@ =~= src@.subrange(0, k as int));
        }
    }
    proof {
        assert(r@ =~= src@);
    }
    r
}

/// Turn a prototype into a closure: the first `closure_vars.len()`
/// constants are replaced by the closure values, the opcodes are shared
/// unchanged. Fails with `ClosureOverflow` exactly when more than five
/// closure values are given or more than the prototype has constants.
pub fn make_closure(prototype: &LispFn, closure_vars: &[LispObj]) -> (r: Result<LispFn, Error>)
    ensures
        r is Ok <==> closure_vars@.len() <= 5 && closure_vars@.len()
            <= prototype.constants@.len(),
        match r {
            Ok(f) => {
                &&& f.op_codes@ == prototype.op_codes@
                &&& f.constants@ == closure_vars@ + prototype.constants@.subrange(
                    closure_vars@.len() as int,
                    prototype.constants@.len() as int,
                )
                &&& f.rest_args == prototype.rest_args
                &&& f.required_args == prototype.required_args
                &&& f.optional_args == prototype.optional_args
                &&& f.name@ == prototype.name@
                &&& f.max_stack_usage == prototype.max_stack_usage
            },
            Err(e) => e == Error::ClosureOverflow,
        },
{
    let vars = closure_vars.len();
    if !(vars <= 5 && vars <= prototype.constants.len()) {
        return Err(Error::ClosureOverflow);
    }
    let mut constants: Vec<LispObj> = Vec::new();
    let mut k: usize = 0;
    while k < vars
        invariant
            k <= vars,
            vars == closure_vars@.len(),
            constants@ == closure_vars@.subrange(0, k as int),
        decreases vars - k,
    {
        constants.push(closure_vars[k]);
        k = k + 1;
        proof {
            assert(constants@ =~= closure_vars@.subrange(0, k as int));
        }
    }
    let mut m: usize = vars;
    while m < prototype.constants.len()
        invariant
            vars <= m <= prototype.constants@.len(),
            vars == closure_vars@.len(),
            constants@ == closure_vars@ + prototype.constants@.subrange(vars as int, m as int),
        decreases prototype.constants@.len() - m,
    {
        constants.push(prototype.constants[m]);
        m = m + 1;
        proof {
            assert(constants@ =~= closure_vars@ + prototype.constants@.subrange(
                vars as int,
                m as int,
            ));
        }
    }
    proof {
        assert(closure_vars@.subrange(0, vars as int) =~= closure_vars@);
    }
    Ok(
        LispFn {
            op_codes: copy_bytes(&prototype.op_codes),
            name: prototype.name.clone(),
            constants,
            rest_args: prototype.rest_args,
            required_args: prototype.required_args,
            optional_args: prototype.optional_args,
            max_stack_usage: prototype.max_stack_usage,
        },
    )
}

} // verus!
