//! The symbol interning table.
//!
//! Interned symbols live in the context's table and share identity by
//! name: interning the same name twice returns the same cell. The table
//! is itself a root, so interned symbols live for the context's lifetime.
//! At start-up every built-in function of the core is registered under
//! its name symbol.

use crate::error::Error;
use crate::heap::{
    cell_data_of, cell_live, heap_extended, heap_step, interned_entry_ok, live_count, sym_name,
    sym_word, val_ok, wf, CellData, Context,
};
use crate::object::Symbol;
use crate::text::str_eq;
use crate::value::{
    fix_val, has_tag, spec_is_fixnum, spec_is_heap_ref, spec_nil, spec_ref_idx, spec_void,
    LispObj, TAG_SYMBOL,
};
use vstd::pervasive::unreached;
use vstd::prelude::*;
use vstd::string::StringExecFns;

verus! {

/// Does the table hold a symbol with this name?
pub open spec fn has_interned(ctx: Context, name: Seq<char>) -> bool {
    exists|k: int|
        0 <= k < ctx.interned@.len() && sym_name(ctx.cells@, #[trigger] ctx.interned@[k] as int)
            == name
}

/// `v` is the interned symbol of this name: a word for some table entry
/// whose cell carries the name.
pub open spec fn interned_result(ctx: Context, name: Seq<char>, v: LispObj) -> bool {
    exists|k: int|
        0 <= k < ctx.interned@.len() && sym_name(ctx.cells@, #[trigger] ctx.interned@[k] as int)
            == name && v == sym_word(ctx.interned@[k] as int)
}

/// Two interned symbols with equal names are the same cell: identity by
/// address.
pub proof fn lemma_interned_identity(ctx: Context, k1: int, k2: int)
    requires
        wf(ctx),
        0 <= k1 < ctx.interned@.len(),
        0 <= k2 < ctx.interned@.len(),
        sym_name(ctx.cells@, ctx.interned@[k1] as int) == sym_name(
            ctx.cells@,
            ctx.interned@[k2] as int,
        ),
    ensures
        ctx.interned@[k1] == ctx.interned@[k2],
{
    if k1 != k2 {
        assert(false);
    }
}

/// Interning is a function of the name: any two words that qualify as
/// the interned symbol of one name are the same word.
pub proof fn lemma_intern_same(ctx: Context, name: Seq<char>, v1: LispObj, v2: LispObj)
    requires
        wf(ctx),
        interned_result(ctx, name, v1),
        interned_result(ctx, name, v2),
    ensures
        v1 == v2,
{
    let k1 = choose|k: int|
        0 <= k < ctx.interned@.len() && sym_name(ctx.cells@, #[trigger] ctx.interned@[k] as int)
            == name && v1 == sym_word(ctx.interned@[k] as int);
    let k2 = choose|k: int|
        0 <= k < ctx.interned@.len() && sym_name(ctx.cells@, #[trigger] ctx.interned@[k] as int)
            == name && v2 == sym_word(ctx.interned@[k] as int);
    lemma_interned_identity(ctx, k1, k2);
}

/// A word whose cell was not live before an allocation differs from
/// every word that was valid before: a fresh symbol is not identical to
/// any pre-existing one.
pub proof fn lemma_fresh_distinct(o: Context, v: LispObj, w: LispObj)
    requires
        spec_is_heap_ref(v.bits),
        !cell_live(o.cells@, spec_ref_idx(v.bits)),
        spec_is_heap_ref(w.bits),
        val_ok(o.cells@, w),
    ensures
        v != w,
{
    assert(cell_live(o.cells@, spec_ref_idx(w.bits)));
    if v == w {
        assert(spec_ref_idx(v.bits) == spec_ref_idx(w.bits));
    }
}

impl Context {
    /// The table position of the interned symbol with this name, if any.
    fn find_interned(&self, name: &str) -> (r: Option<usize>)
        requires
            wf(*self),
        ensures
            match r {
                Some(k) => k < self.interned@.len() && sym_name(
                    self.cells@,
                    self.interned@[k as int] as int,
                ) == name@,
                None => !has_interned(*self, name@),
            },
    {
        let mut k: usize = 0;
        while k < self.interned.len()
            invariant
                wf(*self),
                k <= self.interned@.len(),
                forall|k2: int|
                    0 <= k2 < k as int ==> sym_name(
                        self.cells@,
                        #[trigger] self.interned@[k2] as int,
                    ) != name@,
            decreases self.interned@.len() - k,
        {
            proof {
                assert(interned_entry_ok(*self, k as int));
            }
            let i = self.interned[k];
            let found = match &self.cells[i].data {
                CellData::Sym(s) => str_eq(s.name.as_str(), name),
                _ => unreached(),
            };
            if found {
                return Some(k);
            }
            k = k + 1;
        }
        None
    }

    /// Return the symbol interned under `name`, interning it first if it
    /// is new. Fails only when a new symbol is needed and the heap is
    /// full.
    #[verifier::rlimit(50)]
    pub fn intern(&mut self, name: &str) -> (r: Result<LispObj, Error>)
        requires
            wf(*old(self)),
        ensures
            wf(*final(self)),
            final(self).roots == old(self).roots,
            final(self).capacity == old(self).capacity,
            final(self).threshold == old(self).threshold,
            heap_extended(old(self).cells@, final(self).cells@),
            heap_step(*old(self), *final(self)),
            live_count(*final(self)) <= live_count(*old(self)) + 1,
            match r {
                Ok(v) => {
                    &&& has_tag(v.bits, TAG_SYMBOL)
                    &&& val_ok(final(self).cells@, v)
                    &&& interned_result(*final(self), name@, v)
                    &&& cell_data_of(final(self).cells@, v) matches CellData::Sym(s) && s.name@
                        == name@ && s.interned
                    &&& (has_interned(*old(self), name@) ==> *final(self) == *old(self))
                    &&& (!has_interned(*old(self), name@) ==> {
                        &&& !cell_live(old(self).cells@, spec_ref_idx(v.bits))
                        &&& final(self).interned@ == old(self).interned@.push(
                            (spec_ref_idx(v.bits)) as usize,
                        )
                        &&& cell_data_of(final(self).cells@, v) matches CellData::Sym(s) && s.value
                            == spec_void() && s.function == spec_void() && s.plist == spec_nil()
                    })
                },
                Err(e) => {
                    &&& e == Error::OutOfMemory
                    &&& !has_interned(*old(self), name@)
                    &&& live_count(*old(self)) == old(self).capacity
                    &&& *final(self) == *old(self)
                },
            },
    {
        let ghost orig = *self;
        match self.find_interned(name) {
            Some(k) => {
                proof {
                    assert(interned_entry_ok(*self, k as int));
                    crate::heap::lemma_sym_word_ref_pub(self.interned@[k as int] as int);
                    lemma_step_refl_pub(*self);
                }
                let i = self.interned[k];
                let v = LispObj::from_index(i, TAG_SYMBOL);
                proof {
                    assert(v == sym_word(i as int));
                    assert(interned_result(*self, name@, v)) by {
                        assert(sym_name(self.cells@, self.interned@[k as int] as int) == name@);
                    }
                    assert(cell_data_of(self.cells@, v) matches CellData::Sym(s) && s.name@
                        == name@ && s.interned);
                    assert(val_ok(self.cells@, v));
                    assert(heap_extended(self.cells@, self.cells@));
                }
                Ok(v)
            },
            None => {
                let sym = Symbol::with_name(String::from_str(name), true);
                proof {
                    crate::value::lemma_immediate_words();
                }
                match self.add_symbol(sym) {
                    Ok(v) => {
                        let ghost mid = *self;
                        let idx = v.ref_idx();
                        self.interned.push(idx);
                        proof {
                            assert(!has_interned(mid, name@)) by {
                                assert forall|k: int| 0 <= k < mid.interned@.len() implies sym_name(
                                    mid.cells@,
                                    #[trigger] mid.interned@[k] as int,
                                ) != name@ by {
                                    assert(interned_entry_ok(orig, k));
                                    assert(cell_live(orig.cells@, orig.interned@[k] as int));
                                    assert(mid.cells@[orig.interned@[k] as int]
                                        == orig.cells@[orig.interned@[k] as int]);
                                    assert(sym_name(orig.cells@, orig.interned@[k] as int)
                                        != name@);
                                }
                            }
                            crate::value::lemma_word_from_parts(v.bits, idx as u64, TAG_SYMBOL);
                            lemma_wf_intern_push(mid, *self, idx as usize, name@, v);
                            assert(interned_result(*self, name@, v)) by {
                                let klast = self.interned@.len() - 1;
                                assert(self.interned@[klast] == idx as usize);
                                assert(sym_name(self.cells@, idx as int) == name@);
                                crate::value::lemma_word_from_parts(v.bits, idx as u64, TAG_SYMBOL);
                                assert(v == sym_word(self.interned@[klast] as int));
                            }
                            assert(heap_step(orig, *self)) by {
                                assert(heap_step(orig, mid));
                                assert forall|j: int| #[trigger] crate::heap::reachable(
                                    orig,
                                    j,
                                ) implies crate::heap::reachable(*self, j) && cell_live(
                                    self.cells@,
                                    j,
                                ) && self.cells@[j].data == orig.cells@[j].data by {
                                    lemma_reach_mono_interned(mid, *self, j);
                                }
                            }
                        }
                        Ok(v)
                    },
                    Err(e) => {
                        proof {
                            lemma_step_refl_pub(*self);
                        }
                        Err(e)
                    },
                }
            },
        }
    }
}

/// A reachability witness survives when the intern table only grows.
proof fn lemma_reach_mono_interned(o: Context, n: Context, j: int)
    requires
        n.cells == o.cells,
        n.roots == o.roots,
        o.interned@.len() <= n.interned@.len(),
        forall|k: int| 0 <= k < o.interned@.len() ==> #[trigger] n.interned@[k] == o.interned@[k],
        crate::heap::reachable(o, j),
    ensures
        crate::heap::reachable(n, j),
{
    let s = choose|s: int|
        #[trigger] crate::heap::is_root_idx(o, s) && crate::heap::reachable_from(o.cells@, s, j);
    let w = choose|w: LispObj|
        #[trigger] crate::heap::is_root_word(o, w) && crate::heap::ref_of(w) == Some(s);
    assert(crate::heap::is_root_word(n, w)) by {
        if exists|r: int|
            0 <= r < o.roots@.len() && (#[trigger] crate::heap::entry_vals(o.roots@[r])).contains(
                w,
            ) {
        } else {
            let t2 = choose|t2: int|
                0 <= t2 < o.interned@.len() && w == sym_word(o.interned@[t2] as int);
            assert(n.interned@[t2] == o.interned@[t2]);
        }
    }
    assert(crate::heap::is_root_idx(n, s));
    assert(crate::heap::reachable_from(n.cells@, s, j));
}

/// Adding one fresh, uniquely named, interned symbol cell to the table
/// keeps the context invariant.
proof fn lemma_wf_intern_push(o: Context, n: Context, idx: usize, name: Seq<char>, v: LispObj)
    requires
        wf(o),
        n.cells == o.cells,
        n.roots == o.roots,
        n.free == o.free,
        n.capacity == o.capacity,
        n.threshold == o.threshold,
        n.interned@ == o.interned@.push(idx),
        (idx as int) < o.cells@.len(),
        o.cells@[idx as int].data matches CellData::Sym(s) && s.interned && s.name@ == name,
        !has_interned(o, name),
        val_ok(o.cells@, v),
        v.bits == crate::value::spec_ref_bits(idx as int, TAG_SYMBOL),
    ensures
        wf(n),
{
    assert forall|w: LispObj| #[trigger] crate::heap::is_root_word(n, w) implies val_ok(
        o.cells@,
        w,
    ) by {
        if exists|r: int|
            0 <= r < n.roots@.len() && (#[trigger] crate::heap::entry_vals(n.roots@[r])).contains(
                w,
            ) {
            assert(crate::heap::is_root_word(o, w));
        } else {
            let t2 = choose|t2: int|
                0 <= t2 < n.interned@.len() && w == sym_word(n.interned@[t2] as int);
            if t2 < o.interned@.len() {
                assert(n.interned@[t2] == o.interned@[t2]);
                assert(crate::heap::is_root_word(o, w));
            } else {
                assert(n.interned@[t2] == idx);
                crate::heap::lemma_sym_word_ref_pub(idx as int);
                assert(w.bits == crate::value::spec_ref_bits(idx as int, TAG_SYMBOL));
                assert(w == v);
            }
        }
    }
    assert forall|k: int| 0 <= k < n.interned@.len() implies #[trigger] interned_entry_ok(
        n,
        k,
    ) by {
        if k < o.interned@.len() {
            assert(interned_entry_ok(o, k));
            assert(n.interned@[k] == o.interned@[k]);
        } else {
            assert(n.interned@[k] == idx);
        }
    }
    assert forall|k1: int, k2: int| 0 <= k1 < k2 < n.interned@.len() implies sym_name(
        n.cells@,
        #[trigger] n.interned@[k1] as int,
    ) != sym_name(n.cells@, #[trigger] n.interned@[k2] as int) by {
        if k2 < o.interned@.len() {
            assert(n.interned@[k1] == o.interned@[k1]);
            assert(n.interned@[k2] == o.interned@[k2]);
            assert(sym_name(o.cells@, o.interned@[k1] as int) != sym_name(
                o.cells@,
                o.interned@[k2] as int,
            ));
        } else {
            assert(n.interned@[k2] == idx);
            assert(n.interned@[k1] == o.interned@[k1]);
            assert(sym_name(o.cells@, n.interned@[k2] as int) == name);
            if sym_name(o.cells@, n.interned@[k1] as int) == name {
                assert(has_interned(o, name));
            }
        }
    }
}

/// How many built-in functions the core registers at start-up.
pub const BUILTIN_COUNT: usize = 11;

/// The name the built-in with number `i` is registered under.
pub open spec fn spec_builtin_name(i: int) -> Seq<char> {
    if i == 0 {
        "list"@
    } else if i == 1 {
        "make-closure"@
    } else if i == 2 {
        "make-byte-code"@
    } else if i == 3 {
        "make-vector"@
    } else if i == 4 {
        "vector"@
    } else if i == 5 {
        "record"@
    } else if i == 6 {
        "purecopy"@
    } else if i == 7 {
        "make-symbol"@
    } else if i == 8 {
        "message"@
    } else if i == 9 {
        "format"@
    } else {
        "format-message"@
    }
}

pub fn builtin_name(i: usize) -> (r: &'static str)
    requires
        i < BUILTIN_COUNT,
    ensures
        r@ == spec_builtin_name(i as int),
{
    if i == 0 {
        "list"
    } else if i == 1 {
        "make-closure"
    } else if i == 2 {
        "make-byte-code"
    } else if i == 3 {
        "make-vector"
    } else if i == 4 {
        "vector"
    } else if i == 5 {
        "record"
    } else if i == 6 {
        "purecopy"
    } else if i == 7 {
        "make-symbol"
    } else if i == 8 {
        "message"
    } else if i == 9 {
        "format"
    } else {
        "format-message"
    }
}

#[verifier::rlimit(100)]
proof fn lemma_builtin_names_distinct()
    ensures
        forall|i: int, j: int|
            0 <= i < BUILTIN_COUNT && 0 <= j < BUILTIN_COUNT && i != j ==> spec_builtin_name(i)
                != spec_builtin_name(j),
{
    reveal_strlit("list");
    reveal_strlit("make-closure");
    reveal_strlit("make-byte-code");
    reveal_strlit("make-vector");
    reveal_strlit("vector");
    reveal_strlit("record");
    reveal_strlit("purecopy");
    reveal_strlit("make-symbol");
    reveal_strlit("message");
    reveal_strlit("format");
    reveal_strlit("format-message");
    assert("list"@.len() == 4);
    assert("make-closure"@.len() == 12);
    assert("make-byte-code"@.len() == 14);
    assert("make-vector"@.len() == 11);
    assert("vector"@.len() == 6);
    assert("record"@.len() == 6);
    assert("purecopy"@.len() == 8);
    assert("make-symbol"@.len() == 11);
    assert("message"@.len() == 7);
    assert("format"@.len() == 6);
    assert("format-message"@.len() == 14);
    assert("vector"@[0] != "record"@[0]);
    assert("vector"@[0] != "format"@[0]);
    assert("record"@[0] != "format"@[0]);
    assert("make-vector"@[5] != "make-symbol"@[5]);
    assert("make-byte-code"@[0] != "format-message"@[0]);
}

/// The built-in with number `i` is registered: its name symbol is
/// interned and the symbol's function slot holds the descriptor `i`.
pub open spec fn has_builtin(ctx: Context, i: int) -> bool {
    exists|k: int|
        0 <= k < ctx.interned@.len() && ({
            let c = #[trigger] ctx.interned@[k] as int;
            &&& sym_name(ctx.cells@, c) == spec_builtin_name(i)
            &&& ctx.cells@[c].data matches CellData::Sym(s) && spec_is_fixnum(s.function.bits)
                && fix_val(s.function.bits) == i
        })
}

impl Context {
    /// Register every built-in function under its name symbol: the
    /// symbol is interned and its function slot set to the built-in's
    /// descriptor number. Succeeds whenever the heap has room for one
    /// cell per built-in; it fails, with `OutOfMemory`, only at a full
    /// heap.
    pub fn register_builtins(&mut self) -> (r: Result<(), Error>)
        requires
            wf(*old(self)),
        ensures
            wf(*final(self)),
            final(self).roots == old(self).roots,
            final(self).capacity == old(self).capacity,
            final(self).threshold == old(self).threshold,
            live_count(*old(self)) + BUILTIN_COUNT as int <= old(self).capacity ==> r is Ok,
            r matches Ok(u) ==> forall|i: int|
                0 <= i < BUILTIN_COUNT ==> has_builtin(*final(self), i),
            r matches Err(e) ==> e == Error::OutOfMemory && live_count(*final(self)) == final(self).capacity,
    {
        proof {
            lemma_builtin_names_distinct();
        }
        let mut i: usize = 0;
        while i < BUILTIN_COUNT
            invariant
                i <= BUILTIN_COUNT,
                wf(*self),
                self.roots == old(self).roots,
                self.capacity == old(self).capacity,
                self.threshold == old(self).threshold,
                live_count(*self) <= live_count(*old(self)) + i as int,
                forall|i2: int| 0 <= i2 < i as int ==> has_builtin(*self, i2),
                forall|i2: int, j2: int|
                    0 <= i2 < BUILTIN_COUNT && 0 <= j2 < BUILTIN_COUNT && i2 != j2
                        ==> spec_builtin_name(i2) != spec_builtin_name(j2),
            decreases BUILTIN_COUNT - i,
        {
            let ghost before = *self;
            let name = builtin_name(i);
            let sym = match self.intern(name) {
                Ok(v) => v,
                Err(e) => {
                    proof {
                        if live_count(*old(self)) + BUILTIN_COUNT as int <= old(self).capacity {
                            assert(live_count(before) == before.capacity);
                            assert(false);
                        }
                    }
                    return Err(e);
                },
            };
            let ghost mid = *self;
            proof {
                // earlier registrations survive the interning
                assert forall|i2: int| 0 <= i2 < i as int implies has_builtin(mid, i2) by {
                    assert(has_builtin(before, i2));
                    let k = choose|k: int|
                        0 <= k < before.interned@.len() && ({
                            let c = #[trigger] before.interned@[k] as int;
                            &&& sym_name(before.cells@, c) == spec_builtin_name(i2)
                            &&& before.cells@[c].data matches CellData::Sym(s) && spec_is_fixnum(
                                s.function.bits,
                            ) && fix_val(s.function.bits) == i2
                        });
                    assert(interned_entry_ok(before, k));
                    let c = before.interned@[k] as int;
                    assert(cell_live(before.cells@, c));
                    assert(mid.cells@[c] == before.cells@[c]);
                    if !has_interned(before, name@) {
                        assert(mid.interned@[k] == before.interned@[k]);
                    }
                }
            }
            let descriptor = LispObj::from_int(i as i64);
            proof {
                crate::value::lemma_tags_disjoint(descriptor.bits);
                assert(cell_data_of(mid.cells@, sym) matches CellData::Sym(s));
            }
            self.set_symbol_function(sym, descriptor);
            proof {
                let idx = spec_ref_idx(sym.bits);
                // the new registration
                assert(has_builtin(*self, i as int)) by {
                    let k = choose|k: int|
                        0 <= k < mid.interned@.len() && sym_name(
                            mid.cells@,
                            #[trigger] mid.interned@[k] as int,
                        ) == name@ && sym == sym_word(mid.interned@[k] as int);
                    assert(interned_entry_ok(mid, k));
                    crate::heap::lemma_sym_word_ref_pub(mid.interned@[k] as int);
                    assert(mid.interned@[k] as int == idx);
                    assert(self.cells@[idx] == mid.cells@.update(
                        idx,
                        self.cells@[idx],
                    )[idx]);
                    assert(sym_name(self.cells@, idx) == name@);
                    assert(self.cells@[idx].data matches CellData::Sym(s) && s.function
                        == descriptor);
                }
                // and the earlier ones again
                assert forall|i2: int| 0 <= i2 < i as int implies has_builtin(*self, i2) by {
                    assert(has_builtin(mid, i2));
                    let k = choose|k: int|
                        0 <= k < mid.interned@.len() && ({
                            let c = #[trigger] mid.interned@[k] as int;
                            &&& sym_name(mid.cells@, c) == spec_builtin_name(i2)
                            &&& mid.cells@[c].data matches CellData::Sym(s) && spec_is_fixnum(
                                s.function.bits,
                            ) && fix_val(s.function.bits) == i2
                        });
                    assert(interned_entry_ok(mid, k));
                    let c = mid.interned@[k] as int;
                    assert(cell_live(mid.cells@, c));
                    if c == idx {
                        assert(sym_name(mid.cells@, idx) == name@);
                        assert(spec_builtin_name(i2) == spec_builtin_name(i as int));
                        assert(false);
                    } else {
                        assert(self.cells@[c] == mid.cells@[c]);
                    }
                }
            }
            i = i + 1;
        }
        Ok(())
    }
}

/// A well-formed context that stands still is a (trivial) heap step.
pub proof fn lemma_step_refl_pub(o: Context)
    requires
        wf(o),
    ensures
        heap_step(o, o),
{
    assert forall|j: int| #[trigger] crate::heap::reachable(o, j) implies crate::heap::reachable(
        o,
        j,
    ) && cell_live(o.cells@, j) && o.cells@[j].data == o.cells@[j].data by {
        crate::heap::lemma_reachable_live_pub(o, j);
    }
}

} // verus!
