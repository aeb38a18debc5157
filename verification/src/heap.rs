//! The garbage-collected heap.
//!
//! A [`Context`] owns the cells, the root set and the intern table, and is
//! the single entry point for allocation and collection. Heap-tagged words
//! carry the index of their cell; a cell is destroyed only by the sweep
//! phase, and only when it cannot be reached from the root set.

use crate::buffer::Buffer;
use crate::error::Error;
use crate::object::{Cons, LispFn, Symbol};
use crate::value::{
    has_tag, spec_is_heap_ref, TAG_BUFFER, spec_ref_bits, spec_ref_idx, spec_tag, LispObj, TAG_CONS, TAG_FLOAT, TAG_FN,
    TAG_HASHTABLE, TAG_LONG_STR, TAG_RECORD, TAG_SYMBOL, TAG_VECTOR,
};
use vstd::pervasive::unreached;
use vstd::prelude::*;

verus! {

/// The payload of one heap cell. `Free` marks a slot whose previous
/// occupant was swept; the allocator may hand it out again.
pub enum CellData {
    Free,
    Cons(Cons),
    Str(String),
    Sym(Symbol),
    Vector(Vec<LispObj>),
    Record(Vec<LispObj>),
    Func(LispFn),
    Float(u64),
    Table(Vec<(LispObj, LispObj)>),
    Buf(Buffer),
}

/// One heap cell: the payload plus the header bits of the collector. The
/// mark bit is set during the mark phase and cleared again by the sweep;
/// outside a collection every header bit is clear. The forwarded bit is
/// reserved for evacuation and stays clear.
pub struct Cell {
    pub mark: bool,
    pub forwarded: bool,
    pub data: CellData,
}

/// One entry of the root set: a single rooted slot, or a rooted container
/// of values.
pub enum RootEntry {
    Slot(LispObj),
    Container(Vec<LispObj>),
}

/// The collector context: cells, the root-set stack, the intern table, the
/// free list, and the allocation bookkeeping.
pub struct Context {
    pub cells: Vec<Cell>,
    pub roots: Vec<RootEntry>,
    pub interned: Vec<usize>,
    pub free: Vec<usize>,
    pub capacity: usize,
    pub threshold: u64,
    pub since_gc: u64,
}

/// The tag code that words referring to this payload carry.
pub open spec fn data_code(d: CellData) -> u16 {
    match d {
        CellData::Free => 0,
        CellData::Cons(_) => TAG_CONS,
        CellData::Str(_) => TAG_LONG_STR,
        CellData::Sym(_) => TAG_SYMBOL,
        CellData::Vector(_) => TAG_VECTOR,
        CellData::Record(_) => TAG_RECORD,
        CellData::Func(_) => TAG_FN,
        CellData::Float(_) => TAG_FLOAT,
        CellData::Table(_) => TAG_HASHTABLE,
        CellData::Buf(_) => TAG_BUFFER,
    }
}

/// Keys and values of a table, interleaved in entry order.
pub open spec fn pair_vals(t: Seq<(LispObj, LispObj)>) -> Seq<LispObj> {
    Seq::new(
        2 * t.len(),
        |k: int|
            if k % 2 == 0 {
                t[k / 2].0
            } else {
                t[k / 2].1
            },
    )
}

/// Every value a cell's payload owns, in payload order. These are exactly
/// the edges the collector traces.
pub open spec fn cell_vals(d: CellData) -> Seq<LispObj> {
    match d {
        CellData::Free => Seq::empty(),
        CellData::Cons(c) => seq![c.car, c.cdr],
        CellData::Str(_) => Seq::empty(),
        CellData::Sym(s) => seq![s.value, s.function, s.plist],
        CellData::Vector(v) => v@,
        CellData::Record(v) => v@,
        CellData::Func(f) => f.constants@,
        CellData::Float(_) => Seq::empty(),
        CellData::Table(t) => pair_vals(t@),
        CellData::Buf(_) => Seq::empty(),
    }
}

/// The heap index a word refers to, if any.
pub open spec fn ref_of(v: LispObj) -> Option<int> {
    if spec_is_heap_ref(v.bits) {
        Some(spec_ref_idx(v.bits))
    } else {
        None
    }
}

pub open spec fn cell_live(cells: Seq<Cell>, i: int) -> bool {
    0 <= i < cells.len() && !(cells[i].data is Free)
}

/// A word is valid for a heap when it is an immediate, or refers to a live
/// cell whose payload answers to the word's tag.
pub open spec fn val_ok(cells: Seq<Cell>, v: LispObj) -> bool {
    spec_is_heap_ref(v.bits) ==> {
        let i = spec_ref_idx(v.bits);
        &&& cell_live(cells, i)
        &&& data_code(cells[i].data) as u64 == spec_tag(v.bits)
    }
}

pub open spec fn vals_ok(cells: Seq<Cell>, vs: Seq<LispObj>) -> bool {
    forall|k: int| 0 <= k < vs.len() ==> val_ok(cells, vs[k])
}

/// Every value owned by any cell is valid: the heap is closed.
pub open spec fn heap_vals_ok(cells: Seq<Cell>) -> bool {
    forall|i: int| 0 <= i < cells.len() ==> vals_ok(cells, #[trigger] cell_vals(cells[i].data))
}

pub open spec fn entry_vals(e: RootEntry) -> Seq<LispObj> {
    match e {
        RootEntry::Slot(v) => seq![v],
        RootEntry::Container(vs) => vs@,
    }
}

/// The word under which an interned symbol cell is a root.
pub open spec fn sym_word(i: int) -> LispObj {
    LispObj { bits: spec_ref_bits(i, TAG_SYMBOL) }
}

/// Is `v` one of the words the collector starts from: a value in some root
/// entry, or an interned symbol?
pub open spec fn is_root_word(ctx: Context, v: LispObj) -> bool {
    ||| exists|r: int|
        0 <= r < ctx.roots@.len() && (#[trigger] entry_vals(ctx.roots@[r])).contains(v)
    ||| exists|k: int| 0 <= k < ctx.interned@.len() && v == sym_word(ctx.interned@[k] as int)
}

/// The heap indices the root words refer to.
pub open spec fn is_root_idx(ctx: Context, j: int) -> bool {
    exists|v: LispObj| #[trigger] is_root_word(ctx, v) && ref_of(v) == Some(j)
}

/// Does some value owned by cell `i` refer to cell `j`?
pub open spec fn cell_points_to(cells: Seq<Cell>, i: int, j: int) -> bool {
    &&& cell_live(cells, i)
    &&& exists|k: int|
        0 <= k < cell_vals(cells[i].data).len() && ref_of(
            #[trigger] cell_vals(cells[i].data)[k],
        ) == Some(j)
}

pub open spec fn is_heap_path(cells: Seq<Cell>, p: Seq<int>) -> bool {
    forall|k: int| 0 <= k < p.len() - 1 ==> cell_points_to(cells, #[trigger] p[k], p[k + 1])
}

pub open spec fn reachable_from(cells: Seq<Cell>, s: int, j: int) -> bool {
    exists|p: Seq<int>|
        #![trigger is_heap_path(cells, p)]
        p.len() >= 1 && p[0] == s && p[p.len() - 1] == j && is_heap_path(cells, p)
}

/// Cell `j` can be reached from the root set.
pub open spec fn reachable(ctx: Context, j: int) -> bool {
    exists|s: int| #[trigger] is_root_idx(ctx, s) && reachable_from(ctx.cells@, s, j)
}

/// The print name of the symbol in cell `i`.
pub open spec fn sym_name(cells: Seq<Cell>, i: int) -> Seq<char> {
    match cells[i].data {
        CellData::Sym(s) => s.name@,
        _ => Seq::empty(),
    }
}

pub open spec fn interned_entry_ok(ctx: Context, k: int) -> bool {
    let i = ctx.interned@[k] as int;
    &&& 0 <= i < ctx.cells@.len()
    &&& ctx.cells@[i].data matches CellData::Sym(s) && s.interned
}

/// Two distinct interned symbols never share a name.
pub open spec fn interned_names_unique(ctx: Context) -> bool {
    forall|k1: int, k2: int|
        0 <= k1 < k2 < ctx.interned@.len() ==> sym_name(
            ctx.cells@,
            #[trigger] ctx.interned@[k1] as int,
        ) != sym_name(ctx.cells@, #[trigger] ctx.interned@[k2] as int)
}

/// The free list holds exactly the free slots, each once.
pub open spec fn free_list_ok(ctx: Context) -> bool {
    &&& ctx.free@.no_duplicates()
    &&& forall|k: int|
        0 <= k < ctx.free@.len() ==> (#[trigger] ctx.free@[k] as int) < ctx.cells@.len()
            && ctx.cells@[ctx.free@[k] as int].data is Free
    &&& forall|i: int|
        0 <= i < ctx.cells@.len() && (#[trigger] ctx.cells@[i].data) is Free
            ==> ctx.free@.contains(i as usize)
}

/// Outside a collection every header bit is clear.
pub open spec fn all_unmarked(cells: Seq<Cell>) -> bool {
    forall|i: int|
        0 <= i < cells.len() ==> !(#[trigger] cells[i]).mark && !cells[i].forwarded
}

/// The context invariant: every constructor establishes it, every
/// operation preserves it.
pub open spec fn wf(ctx: Context) -> bool {
    &&& ctx.capacity as int <= 0x1_0000_0000_0000
    &&& ctx.cells@.len() <= ctx.capacity
    &&& heap_vals_ok(ctx.cells@)
    &&& forall|v: LispObj| #[trigger] is_root_word(ctx, v) ==> val_ok(ctx.cells@, v)
    &&& forall|k: int| 0 <= k < ctx.interned@.len() ==> #[trigger] interned_entry_ok(ctx, k)
    &&& interned_names_unique(ctx)
    &&& free_list_ok(ctx)
    &&& all_unmarked(ctx.cells@)
}

/// Number of live cells.
pub open spec fn live_count(ctx: Context) -> int {
    ctx.cells@.len() - ctx.free@.len()
}

/// The parts of a context that allocation never touches.
pub open spec fn same_frame(a: Context, b: Context) -> bool {
    &&& b.roots == a.roots
    &&& b.interned == a.interned
    &&& b.capacity == a.capacity
    &&& b.threshold == a.threshold
}

/// The new heap keeps every live cell of the old heap unchanged, at the
/// same index. This is what makes values stable across allocation.
pub open spec fn heap_extended(oldc: Seq<Cell>, newc: Seq<Cell>) -> bool {
    &&& oldc.len() <= newc.len()
    &&& forall|j: int| #[trigger] cell_live(oldc, j) ==> newc[j] == oldc[j]
}

/// The payload of the cell a heap word refers to.
pub open spec fn cell_data_of(cells: Seq<Cell>, v: LispObj) -> CellData {
    cells[spec_ref_idx(v.bits)].data
}

/// What one allocation or one collection promises the rooted world: every
/// cell reachable before is still reachable, still live, and holds the
/// same payload. Steps compose: see [`lemma_heap_step_trans`].
pub open spec fn heap_step(o: Context, n: Context) -> bool {
    forall|j: int|
        #[trigger] reachable(o, j) ==> reachable(n, j) && cell_live(n.cells@, j) && n.cells@[j].data
            == o.cells@[j].data
}

/// Heap steps compose, so a whole allocation sequence preserves every
/// value that was reachable when it started.
pub proof fn lemma_heap_step_trans(a: Context, b: Context, c: Context)
    requires
        heap_step(a, b),
        heap_step(b, c),
    ensures
        heap_step(a, c),
{
    assert forall|j: int| #[trigger] reachable(a, j) implies reachable(c, j) && cell_live(
        c.cells@,
        j,
    ) && c.cells@[j].data == a.cells@[j].data by {
        assert(reachable(b, j));
    }
}

/// A well-formed context that stands still is trivially a heap step.
proof fn lemma_step_refl(o: Context)
    requires
        wf(o),
    ensures
        heap_step(o, o),
{
    assert forall|j: int| #[trigger] reachable(o, j) implies reachable(o, j) && cell_live(
        o.cells@,
        j,
    ) && o.cells@[j].data == o.cells@[j].data by {
        lemma_reachable_live_pub(o, j);
    }
}

/// In a well-formed context a reachable cell is live.
pub proof fn lemma_reachable_live_pub(ctx: Context, j: int)
    requires
        wf(ctx),
        reachable(ctx, j),
    ensures
        cell_live(ctx.cells@, j),
{
    let s = choose|s: int| #[trigger] is_root_idx(ctx, s) && reachable_from(ctx.cells@, s, j);
    let p = choose|p: Seq<int>|
        #![trigger is_heap_path(ctx.cells@, p)]
        p.len() >= 1 && p[0] == s && p[p.len() - 1] == j && is_heap_path(ctx.cells@, p);
    if p.len() == 1 {
        let w = choose|w: LispObj| #[trigger] is_root_word(ctx, w) && ref_of(w) == Some(s);
        assert(val_ok(ctx.cells@, w));
    } else {
        let i = p[p.len() - 2];
        assert(cell_points_to(ctx.cells@, i, j));
        let k = choose|k: int|
            0 <= k < cell_vals(ctx.cells@[i].data).len() && ref_of(
                #[trigger] cell_vals(ctx.cells@[i].data)[k],
            ) == Some(j);
        assert(vals_ok(ctx.cells@, cell_vals(ctx.cells@[i].data)));
        assert(val_ok(ctx.cells@, cell_vals(ctx.cells@[i].data)[k]));
    }
}

/// Growing the heap while the roots stand still preserves reachability.
proof fn lemma_extended_step(o: Context, n: Context)
    requires
        wf(o),
        n.roots == o.roots,
        n.interned == o.interned,
        heap_extended(o.cells@, n.cells@),
    ensures
        heap_step(o, n),
{
    assert forall|j: int| #[trigger] reachable(o, j) implies reachable(n, j) && cell_live(
        n.cells@,
        j,
    ) && n.cells@[j].data == o.cells@[j].data by {
        lemma_reachable_live_pub(o, j);
        assert(n.cells@[j] == o.cells@[j]);
        let s = choose|s: int| #[trigger] is_root_idx(o, s) && reachable_from(o.cells@, s, j);
        let p = choose|p: Seq<int>|
            #![trigger is_heap_path(o.cells@, p)]
            p.len() >= 1 && p[0] == s && p[p.len() - 1] == j && is_heap_path(o.cells@, p);
        assert(is_heap_path(n.cells@, p)) by {
            assert forall|m: int| 0 <= m < p.len() - 1 implies cell_points_to(
                n.cells@,
                #[trigger] p[m],
                p[m + 1],
            ) by {
                assert(cell_points_to(o.cells@, p[m], p[m + 1]));
                assert(cell_live(o.cells@, p[m]));
                assert(n.cells@[p[m]] == o.cells@[p[m]]);
            }
        }
        assert(is_root_idx(n, s)) by {
            let w = choose|w: LispObj| #[trigger] is_root_word(o, w) && ref_of(w) == Some(s);
            assert(is_root_word(n, w));
        }
        assert(reachable_from(n.cells@, s, j));
    }
}

/// The stability law for rooted values: across any operation that is a
/// heap step - an allocation, a collection, or a sequence of them - a
/// value in the root set keeps its cell, so every variant query, car,
/// cdr, element or slot read through it returns the same answer as
/// before. The word itself is unchanged, so its tag reads identically.
pub proof fn lemma_rooted_value_stable(o: Context, n: Context, v: LispObj)
    requires
        wf(o),
        heap_step(o, n),
        is_root_word(o, v),
        spec_is_heap_ref(v.bits),
    ensures
        cell_live(n.cells@, spec_ref_idx(v.bits)),
        cell_data_of(n.cells@, v) == cell_data_of(o.cells@, v),
        val_ok(n.cells@, v),
{
    lemma_root_reach(o, v);
    assert(reachable(o, spec_ref_idx(v.bits)));
    assert(val_ok(o.cells@, v));
}

/// What every allocation guarantees: the invariant holds again, nothing
/// but the heap and the bookkeeping changed, and on success the returned
/// word refers to a fresh live cell holding exactly `d` while every
/// previously live cell is untouched. Failure is `OutOfMemory`, exactly
/// when the heap is at capacity, and leaves the context as it was.
pub open spec fn alloc_post(o: Context, n: Context, r: Result<LispObj, Error>, d: CellData) -> bool {
    &&& wf(n)
    &&& same_frame(o, n)
    &&& heap_step(o, n)
    &&& match r {
        Ok(v) => {
            let i = spec_ref_idx(v.bits);
            &&& live_count(o) < o.capacity
            &&& spec_is_heap_ref(v.bits)
            &&& spec_tag(v.bits) == data_code(d) as u64
            &&& !cell_live(o.cells@, i)
            &&& cell_live(n.cells@, i)
            &&& n.cells@[i].data == d
            &&& val_ok(n.cells@, v)
            &&& heap_extended(o.cells@, n.cells@)
            &&& n.cells@.len() <= o.cells@.len() + 1
            &&& forall|j: int|
                0 <= j < n.cells@.len() && j != i && j < o.cells@.len() ==> n.cells@[j]
                    == o.cells@[j]
            &&& live_count(n) == live_count(o) + 1
        },
        Err(e) => {
            &&& e == Error::OutOfMemory
            &&& live_count(o) == o.capacity
            &&& n == o
        },
    }
}

/// Validity of a word is kept by any heap growth that keeps live cells.
pub proof fn lemma_val_ok_extend_pub(oldc: Seq<Cell>, newc: Seq<Cell>, v: LispObj)
    requires
        heap_extended(oldc, newc),
        val_ok(oldc, v),
    ensures
        val_ok(newc, v),
{
    lemma_val_ok_extend(oldc, newc, v);
}

proof fn lemma_val_ok_extend(oldc: Seq<Cell>, newc: Seq<Cell>, v: LispObj)
    requires
        heap_extended(oldc, newc),
        val_ok(oldc, v),
    ensures
        val_ok(newc, v),
{
    if spec_is_heap_ref(v.bits) {
        let i = spec_ref_idx(v.bits);
        assert(cell_live(oldc, i));
        assert(newc[i] == oldc[i]);
    }
}

impl Context {
    /// A fresh context with the given cell capacity and collection
    /// threshold. The heap, the root set and the intern table start empty.
    pub fn with_limits(capacity: usize, threshold: u64) -> (r: Context)
        requires
            capacity as int <= 0x1_0000_0000_0000,
        ensures
            wf(r),
            r.cells@.len() == 0,
            r.roots@.len() == 0,
            r.interned@.len() == 0,
            r.capacity == capacity,
            r.threshold == threshold,
            live_count(r) == 0,
    {
        Context {
            cells: Vec::new(),
            roots: Vec::new(),
            interned: Vec::new(),
            free: Vec::new(),
            capacity,
            threshold,
            since_gc: 0,
        }
    }

    /// A fresh context with room for every workload of this crate.
    pub fn new() -> (r: Context)
        ensures
            wf(r),
            r.cells@.len() == 0,
            r.roots@.len() == 0,
            r.interned@.len() == 0,
            r.capacity as int == 0x1_0000_0000_0000 || r.capacity == usize::MAX,
            live_count(r) == 0,
    {
        let word_cap: u64 = 0x1_0000_0000_0000;
        let cap: usize = if (usize::MAX as u64) < word_cap {
            usize::MAX
        } else {
            word_cap as usize
        };
        Context::with_limits(cap, 0x10_0000)
    }

    /// Heap-allocate one cell holding `d` and return the word that refers
    /// to it. Fails with `OutOfMemory` exactly when every one of the
    /// `capacity` slots is live.
    ///
    /// Allocation itself never collects: the mutator runs the heuristic
    /// check at its own safe points through [`Context::maybe_collect`],
    /// so a borrowed value is never invalidated in the middle of a
    /// builder.
    pub fn allocate(&mut self, d: CellData) -> (r: Result<LispObj, Error>)
        requires
            wf(*old(self)),
            !(d is Free),
            vals_ok(old(self).cells@, cell_vals(d)),
        ensures
            alloc_post(*old(self), *final(self), r, d),
    {
        proof {
            lemma_seq_no_dup_len(self.free@, self.cells@.len() as int);
        }
        let code = match &d {
            CellData::Free => unreached(),
            CellData::Cons(_) => TAG_CONS,
            CellData::Str(_) => TAG_LONG_STR,
            CellData::Sym(_) => TAG_SYMBOL,
            CellData::Vector(_) => TAG_VECTOR,
            CellData::Record(_) => TAG_RECORD,
            CellData::Func(_) => TAG_FN,
            CellData::Float(_) => TAG_FLOAT,
            CellData::Table(_) => TAG_HASHTABLE,
            CellData::Buf(_) => TAG_BUFFER,
        };
        let ghost oldself = *self;
        let idx: usize;
        if self.free.len() > 0 {
            idx = match self.free.pop() {
                Some(i) => i,
                None => unreached(),
            };
            proof {
                assert(oldself.free@[oldself.free@.len() - 1] == idx as usize);
            }
            self.cells.set(idx, Cell { mark: false, forwarded: false, data: d });
            proof {
                assert forall|k: int| 0 <= k < self.free@.len() implies (
                #[trigger] self.free@[k] as int) < self.cells@.len()
                    && self.cells@[self.free@[k] as int].data is Free by {
                    assert(oldself.free@[k] == self.free@[k]);
                    assert(oldself.free@.no_duplicates());
                    assert(oldself.free@[oldself.free@.len() - 1] == idx);
                    assert(k != oldself.free@.len() - 1);
                }
                assert forall|j: int|
                    0 <= j < self.cells@.len() && (#[trigger] self.cells@[j].data) is Free implies
                    self.free@.contains(j as usize) by {
                    assert(j != idx as int);
                    assert(oldself.cells@[j].data is Free);
                    assert(oldself.free@.contains(j as usize));
                    let k = choose|k: int|
                        0 <= k < oldself.free@.len() && oldself.free@[k] == j as usize;
                    assert(k != oldself.free@.len() - 1);
                    assert(self.free@[k] == j as usize);
                }
                assert(self.free@.no_duplicates());
            }
        } else {
            if self.cells.len() == self.capacity {
                proof {
                    assert(self.free@.len() == 0);
                    assert(live_count(oldself) == oldself.capacity);
                    lemma_step_refl(*self);
                }
                return Err(Error::OutOfMemory);
            }
            idx = self.cells.len();
            self.cells.push(Cell { mark: false, forwarded: false, data: d });
            proof {
                assert forall|j: int|
                    0 <= j < self.cells@.len() && (#[trigger] self.cells@[j].data) is Free implies
                    self.free@.contains(j as usize) by {
                    assert(j != idx as int);
                    assert(oldself.cells@[j].data is Free);
                }
            }
        }
        if self.since_gc < u64::MAX {
            self.since_gc = self.since_gc + 1;
        }
        proof {
            assert(heap_extended(oldself.cells@, self.cells@)) by {
                assert forall|j: int|
                    #[trigger] cell_live(oldself.cells@, j) implies self.cells@[j]
                    == oldself.cells@[j] by {}
            }
            assert(!cell_live(oldself.cells@, idx as int));
        }
        let v = LispObj::from_index(idx, code);
        proof {
            lemma_wf_after_alloc(oldself, *self, idx as int, d);
            lemma_extended_step(oldself, *self);
        }
        Ok(v)
    }
}

/// In a well-formed context the live count is between zero and the
/// capacity.
pub proof fn lemma_live_count_bounds(ctx: Context)
    requires
        wf(ctx),
    ensures
        0 <= live_count(ctx) <= ctx.capacity,
        ctx.free@.len() <= ctx.cells@.len(),
{
    lemma_seq_no_dup_len(ctx.free@, ctx.cells@.len() as int);
}

/// A sequence without duplicates whose entries all lie below `n` is no
/// longer than `n`.
proof fn lemma_seq_no_dup_len(s: Seq<usize>, n: int)
    requires
        s.no_duplicates(),
        forall|k: int| 0 <= k < s.len() ==> (#[trigger] s[k] as int) < n,
        n >= 0,
    ensures
        s.len() <= n,
{
    let ints = s.map_values(|u: usize| u as int);
    assert(ints.no_duplicates()) by {
        assert forall|k1: int, k2: int|
            0 <= k1 < ints.len() && 0 <= k2 < ints.len() && k1 != k2 implies ints[k1]
            != ints[k2] by {
            assert(s[k1] != s[k2]);
        }
    }
    ints.unique_seq_to_set();
    let bound = vstd::set_lib::set_int_range(0, n);
    vstd::set_lib::lemma_int_range(0, n);
    assert(ints.to_set().subset_of(bound)) by {
        assert forall|x: int| ints.to_set().contains(x) implies bound.contains(x) by {
            assert(ints.contains(x));
            let k = choose|k: int| 0 <= k < ints.len() && ints[k] == x;
            assert((s[k] as int) < n);
        }
    }
    vstd::set_lib::lemma_len_subset(ints.to_set(), bound);
}

impl Context {
    /// Allocate a cons cell.
    pub fn add_cons(&mut self, c: Cons) -> (r: Result<LispObj, Error>)
        requires
            wf(*old(self)),
            val_ok(old(self).cells@, c.car),
            val_ok(old(self).cells@, c.cdr),
        ensures
            alloc_post(*old(self), *final(self), r, CellData::Cons(c)),
    {
        proof {
            assert(cell_vals(CellData::Cons(c)) =~= seq![c.car, c.cdr]);
            assert forall|k: int|
                0 <= k < cell_vals(CellData::Cons(c)).len() implies val_ok(
                old(self).cells@,
                #[trigger] cell_vals(CellData::Cons(c))[k],
            ) by {
                if k == 0 {
                } else {
                    assert(cell_vals(CellData::Cons(c))[k] == c.cdr);
                }
            }
        }
        self.allocate(CellData::Cons(c))
    }

    /// Allocate a string cell.
    pub fn add_str(&mut self, s: String) -> (r: Result<LispObj, Error>)
        requires
            wf(*old(self)),
        ensures
            alloc_post(*old(self), *final(self), r, CellData::Str(s)),
    {
        self.allocate(CellData::Str(s))
    }

    /// Allocate a boxed float cell from its IEEE bit pattern.
    pub fn add_float_bits(&mut self, bits: u64) -> (r: Result<LispObj, Error>)
        requires
            wf(*old(self)),
        ensures
            alloc_post(*old(self), *final(self), r, CellData::Float(bits)),
    {
        self.allocate(CellData::Float(bits))
    }

    /// Allocate a symbol cell.
    pub fn add_symbol(&mut self, s: Symbol) -> (r: Result<LispObj, Error>)
        requires
            wf(*old(self)),
            val_ok(old(self).cells@, s.value),
            val_ok(old(self).cells@, s.function),
            val_ok(old(self).cells@, s.plist),
        ensures
            alloc_post(*old(self), *final(self), r, CellData::Sym(s)),
    {
        proof {
            let d = CellData::Sym(s);
            assert(cell_vals(d) =~= seq![s.value, s.function, s.plist]);
            assert forall|k: int| 0 <= k < cell_vals(d).len() implies val_ok(
                old(self).cells@,
                #[trigger] cell_vals(d)[k],
            ) by {
                if k == 0 {
                } else if k == 1 {
                    assert(cell_vals(d)[k] == s.function);
                } else {
                    assert(cell_vals(d)[k] == s.plist);
                }
            }
        }
        self.allocate(CellData::Sym(s))
    }

    /// Allocate a vector cell.
    pub fn add_vector(&mut self, elems: Vec<LispObj>) -> (r: Result<LispObj, Error>)
        requires
            wf(*old(self)),
            vals_ok(old(self).cells@, elems@),
        ensures
            alloc_post(*old(self), *final(self), r, CellData::Vector(elems)),
    {
        self.allocate(CellData::Vector(elems))
    }

    /// Allocate a record cell.
    pub fn add_record(&mut self, slots: Vec<LispObj>) -> (r: Result<LispObj, Error>)
        requires
            wf(*old(self)),
            vals_ok(old(self).cells@, slots@),
        ensures
            alloc_post(*old(self), *final(self), r, CellData::Record(slots)),
    {
        self.allocate(CellData::Record(slots))
    }

    /// Allocate a byte-code function cell.
    pub fn add_fn(&mut self, f: LispFn) -> (r: Result<LispObj, Error>)
        requires
            wf(*old(self)),
            vals_ok(old(self).cells@, f.constants@),
        ensures
            alloc_post(*old(self), *final(self), r, CellData::Func(f)),
    {
        self.allocate(CellData::Func(f))
    }

    /// Allocate a buffer cell around a gap buffer.
    pub fn add_buffer(&mut self, b: Buffer) -> (r: Result<LispObj, Error>)
        requires
            wf(*old(self)),
        ensures
            alloc_post(*old(self), *final(self), r, CellData::Buf(b)),
    {
        self.allocate(CellData::Buf(b))
    }

    /// Allocate a hash-table cell from its entries.
    pub fn add_table(&mut self, entries: Vec<(LispObj, LispObj)>) -> (r: Result<LispObj, Error>)
        requires
            wf(*old(self)),
            forall|k: int|
                0 <= k < entries@.len() ==> val_ok(old(self).cells@, (#[trigger] entries@[k]).0)
                    && val_ok(old(self).cells@, entries@[k].1),
        ensures
            alloc_post(*old(self), *final(self), r, CellData::Table(entries)),
    {
        proof {
            let d = CellData::Table(entries);
            assert forall|k: int| 0 <= k < cell_vals(d).len() implies val_ok(
                old(self).cells@,
                #[trigger] cell_vals(d)[k],
            ) by {
                if k % 2 == 0 {
                    assert(cell_vals(d)[k] == entries@[k / 2].0);
                } else {
                    assert(cell_vals(d)[k] == entries@[k / 2].1);
                }
            }
        }
        self.allocate(CellData::Table(entries))
    }

    /// Borrow the payload of cell `i`.
    pub fn data_at(&self, i: usize) -> (r: &CellData)
        requires
            i < self.cells@.len(),
        ensures
            *r == self.cells@[i as int].data,
    {
        &self.cells[i].data
    }

    /// The car of a cons value.
    pub fn car(&self, v: LispObj) -> (r: LispObj)
        requires
            wf(*self),
            has_tag(v.bits, TAG_CONS),
            val_ok(self.cells@, v),
        ensures
            cell_data_of(self.cells@, v) matches CellData::Cons(c) && r == c.car,
    {
        let i = v.ref_idx();
        match &self.cells[i].data {
            CellData::Cons(c) => c.car,
            _ => unreached(),
        }
    }

    /// The cdr of a cons value.
    pub fn cdr(&self, v: LispObj) -> (r: LispObj)
        requires
            wf(*self),
            has_tag(v.bits, TAG_CONS),
            val_ok(self.cells@, v),
        ensures
            cell_data_of(self.cells@, v) matches CellData::Cons(c) && r == c.cdr,
    {
        let i = v.ref_idx();
        match &self.cells[i].data {
            CellData::Cons(c) => c.cdr,
            _ => unreached(),
        }
    }

    /// Overwrite the car of a cons cell.
    pub fn set_car(&mut self, v: LispObj, x: LispObj)
        requires
            wf(*old(self)),
            has_tag(v.bits, TAG_CONS),
            val_ok(old(self).cells@, v),
            val_ok(old(self).cells@, x),
        ensures
            wf(*final(self)),
            mut_frame(*old(self), *final(self)),
            cell_data_of(old(self).cells@, v) matches CellData::Cons(c0) && final(self).cells@
                =~= old(self).cells@.update(
                spec_ref_idx(v.bits),
                Cell { mark: false, forwarded: false, data: CellData::Cons(Cons { car: x, cdr: c0.cdr }) },
            ),
    {
        let i = v.ref_idx();
        let old_cdr = self.cdr(v);
        let ghost oldself = *self;
        self.cells.set(
            i,
            Cell { mark: false, forwarded: false, data: CellData::Cons(Cons { car: x, cdr: old_cdr }) },
        );
        proof {
            let d = CellData::Cons(Cons { car: x, cdr: old_cdr });
            assert(vals_ok(oldself.cells@, cell_vals(oldself.cells@[i as int].data)));
            assert(val_ok(oldself.cells@, old_cdr)) by {
                assert(cell_vals(oldself.cells@[i as int].data)[1] == old_cdr);
            }
            assert forall|k: int| 0 <= k < cell_vals(d).len() implies val_ok(
                oldself.cells@,
                #[trigger] cell_vals(d)[k],
            ) by {
                if k == 0 {
                    assert(cell_vals(d)[k] == x);
                } else {
                    assert(cell_vals(d)[k] == old_cdr);
                }
            }
            lemma_wf_after_same_code_update(oldself, *self, i as int, d);
        }
    }

    /// Overwrite the cdr of a cons cell.
    pub fn set_cdr(&mut self, v: LispObj, x: LispObj)
        requires
            wf(*old(self)),
            has_tag(v.bits, TAG_CONS),
            val_ok(old(self).cells@, v),
            val_ok(old(self).cells@, x),
        ensures
            wf(*final(self)),
            mut_frame(*old(self), *final(self)),
            cell_data_of(old(self).cells@, v) matches CellData::Cons(c0) && final(self).cells@
                =~= old(self).cells@.update(
                spec_ref_idx(v.bits),
                Cell { mark: false, forwarded: false, data: CellData::Cons(Cons { car: c0.car, cdr: x }) },
            ),
    {
        let i = v.ref_idx();
        let old_car = self.car(v);
        let ghost oldself = *self;
        self.cells.set(
            i,
            Cell { mark: false, forwarded: false, data: CellData::Cons(Cons { car: old_car, cdr: x }) },
        );
        proof {
            let d = CellData::Cons(Cons { car: old_car, cdr: x });
            assert(vals_ok(oldself.cells@, cell_vals(oldself.cells@[i as int].data)));
            assert(val_ok(oldself.cells@, old_car)) by {
                assert(cell_vals(oldself.cells@[i as int].data)[0] == old_car);
            }
            assert forall|k: int| 0 <= k < cell_vals(d).len() implies val_ok(
                oldself.cells@,
                #[trigger] cell_vals(d)[k],
            ) by {
                if k == 0 {
                    assert(cell_vals(d)[k] == old_car);
                } else {
                    assert(cell_vals(d)[k] == x);
                }
            }
            lemma_wf_after_same_code_update(oldself, *self, i as int, d);
        }
    }

    /// A copy of the contents of a string cell.
    pub fn get_str(&self, v: LispObj) -> (r: String)
        requires
            wf(*self),
            has_tag(v.bits, TAG_LONG_STR),
            val_ok(self.cells@, v),
        ensures
            cell_data_of(self.cells@, v) matches CellData::Str(s) && r@ == s@,
    {
        let i = v.ref_idx();
        match &self.cells[i].data {
            CellData::Str(s) => s.clone(),
            _ => unreached(),
        }
    }

    /// A copy of the print name of a symbol value.
    pub fn symbol_name(&self, v: LispObj) -> (r: String)
        requires
            wf(*self),
            has_tag(v.bits, TAG_SYMBOL),
            val_ok(self.cells@, v),
        ensures
            cell_data_of(self.cells@, v) matches CellData::Sym(s) && r@ == s.name@,
    {
        let i = v.ref_idx();
        match &self.cells[i].data {
            CellData::Sym(s) => s.name.clone(),
            _ => unreached(),
        }
    }

    /// The function slot of a symbol value.
    pub fn symbol_function(&self, v: LispObj) -> (r: LispObj)
        requires
            wf(*self),
            has_tag(v.bits, TAG_SYMBOL),
            val_ok(self.cells@, v),
        ensures
            cell_data_of(self.cells@, v) matches CellData::Sym(s) && r == s.function,
    {
        let i = v.ref_idx();
        match &self.cells[i].data {
            CellData::Sym(s) => s.function,
            _ => unreached(),
        }
    }

    /// The global value slot of a symbol value.
    pub fn symbol_value(&self, v: LispObj) -> (r: LispObj)
        requires
            wf(*self),
            has_tag(v.bits, TAG_SYMBOL),
            val_ok(self.cells@, v),
        ensures
            cell_data_of(self.cells@, v) matches CellData::Sym(s) && r == s.value,
    {
        let i = v.ref_idx();
        match &self.cells[i].data {
            CellData::Sym(s) => s.value,
            _ => unreached(),
        }
    }

    /// Overwrite the function slot of a symbol cell. The name, the intern
    /// flag and the other slots stay.
    pub fn set_symbol_function(&mut self, v: LispObj, x: LispObj)
        requires
            wf(*old(self)),
            has_tag(v.bits, TAG_SYMBOL),
            val_ok(old(self).cells@, v),
            val_ok(old(self).cells@, x),
        ensures
            wf(*final(self)),
            mut_frame(*old(self), *final(self)),
            cell_data_of(old(self).cells@, v) matches CellData::Sym(s0) && final(self).cells@
                =~= old(self).cells@.update(
                spec_ref_idx(v.bits),
                Cell {
                    mark: false,
                    forwarded: false,
                    data: CellData::Sym(
                        Symbol {
                            name: s0.name,
                            value: s0.value,
                            function: x,
                            plist: s0.plist,
                            interned: s0.interned,
                        },
                    ),
                },
            ),
    {
        let i = v.ref_idx();
        let (nm, val, pl, inted) = match &self.cells[i].data {
            CellData::Sym(s) => (s.name.clone(), s.value, s.plist, s.interned),
            _ => unreached(),
        };
        let ghost oldself = *self;
        let d = CellData::Sym(Symbol { name: nm, value: val, function: x, plist: pl, interned: inted });
        proof {
            assert(cell_data_of(oldself.cells@, v) matches CellData::Sym(s0) && sym_name(
                oldself.cells@,
                i as int,
            ) == s0.name@);
        }
        self.cells.set(i, Cell { mark: false, forwarded: false, data: d });
        proof {
            let vs0 = cell_vals(oldself.cells@[i as int].data);
            assert(vals_ok(oldself.cells@, vs0));
            assert(val_ok(oldself.cells@, val) && val_ok(oldself.cells@, pl)) by {
                assert(vs0[0] == val);
                assert(vs0[2] == pl);
            }
            assert forall|k: int| 0 <= k < cell_vals(d).len() implies val_ok(
                oldself.cells@,
                #[trigger] cell_vals(d)[k],
            ) by {
                if k == 0 {
                    assert(cell_vals(d)[k] == val);
                } else if k == 1 {
                    assert(cell_vals(d)[k] == x);
                } else {
                    assert(cell_vals(d)[k] == pl);
                }
            }
            lemma_wf_after_same_code_update(oldself, *self, i as int, d);
        }
    }

    /// The IEEE bit pattern held by a boxed float value. The embedding
    /// shell turns it back into its machine float.
    pub fn float_bits(&self, v: LispObj) -> (r: u64)
        requires
            wf(*self),
            has_tag(v.bits, TAG_FLOAT),
            val_ok(self.cells@, v),
        ensures
            cell_data_of(self.cells@, v) matches CellData::Float(b) && r == b,
    {
        let i = v.ref_idx();
        match &self.cells[i].data {
            CellData::Float(b) => *b,
            _ => unreached(),
        }
    }

    /// The length of a vector value.
    pub fn vector_len(&self, v: LispObj) -> (r: usize)
        requires
            wf(*self),
            has_tag(v.bits, TAG_VECTOR),
            val_ok(self.cells@, v),
        ensures
            cell_data_of(self.cells@, v) matches CellData::Vector(es) && r == es@.len(),
    {
        let i = v.ref_idx();
        match &self.cells[i].data {
            CellData::Vector(es) => es.len(),
            _ => unreached(),
        }
    }

    /// One element of a vector value.
    pub fn vector_get(&self, v: LispObj, k: usize) -> (r: LispObj)
        requires
            wf(*self),
            has_tag(v.bits, TAG_VECTOR),
            val_ok(self.cells@, v),
            cell_data_of(self.cells@, v) matches CellData::Vector(es) && k < es@.len(),
        ensures
            cell_data_of(self.cells@, v) matches CellData::Vector(es) && r == es@[k as int],
    {
        let i = v.ref_idx();
        match &self.cells[i].data {
            CellData::Vector(es) => es[k],
            _ => unreached(),
        }
    }
}

/// The parts of a context that in-place cell mutation never touches.
pub open spec fn mut_frame(a: Context, b: Context) -> bool {
    &&& same_frame(a, b)
    &&& b.free == a.free
    &&& b.since_gc == a.since_gc
    &&& b.cells@.len() == a.cells@.len()
}

proof fn lemma_val_ok_same_code_update(oldc: Seq<Cell>, newc: Seq<Cell>, idx: int, v: LispObj)
    requires
        newc =~= oldc.update(idx, newc[idx]),
        0 <= idx < oldc.len(),
        !(newc[idx].data is Free),
        data_code(newc[idx].data) == data_code(oldc[idx].data),
        val_ok(oldc, v),
    ensures
        val_ok(newc, v),
{
    if spec_is_heap_ref(v.bits) {
        let i = spec_ref_idx(v.bits);
        if i == idx {
        } else {
            assert(newc[i] == oldc[i]);
        }
    }
}

/// Replacing one live cell's payload with one of the same tag code - and,
/// for symbols, the same name and intern flag - keeps the invariant.
proof fn lemma_wf_after_same_code_update(oldctx: Context, newctx: Context, idx: int, d: CellData)
    requires
        wf(oldctx),
        mut_frame(oldctx, newctx),
        0 <= idx < oldctx.cells@.len(),
        newctx.cells@ =~= oldctx.cells@.update(
            idx,
            Cell { mark: false, forwarded: false, data: d },
        ),
        !(d is Free),
        !(oldctx.cells@[idx].data is Free),
        data_code(d) == data_code(oldctx.cells@[idx].data),
        vals_ok(oldctx.cells@, cell_vals(d)),
        d matches CellData::Sym(s) ==> (oldctx.cells@[idx].data matches CellData::Sym(s0)
            && s.name@ == s0.name@ && s.interned == s0.interned),
    ensures
        wf(newctx),
{
    let oldc = oldctx.cells@;
    let newc = newctx.cells@;
    assert forall|i: int| 0 <= i < newc.len() implies vals_ok(
        newc,
        #[trigger] cell_vals(newc[i].data),
    ) by {
        let vs = if i == idx {
            cell_vals(d)
        } else {
            cell_vals(oldc[i].data)
        };
        assert(cell_vals(newc[i].data) == vs);
        assert(vals_ok(oldc, vs));
        assert forall|k: int| 0 <= k < vs.len() implies val_ok(newc, #[trigger] vs[k]) by {
            lemma_val_ok_same_code_update(oldc, newc, idx, vs[k]);
        }
    }
    assert forall|v: LispObj| #[trigger] is_root_word(newctx, v) implies val_ok(newc, v) by {
        assert(is_root_word(oldctx, v));
        lemma_val_ok_same_code_update(oldc, newc, idx, v);
    }
    assert forall|k: int| 0 <= k < newctx.interned@.len() implies #[trigger] interned_entry_ok(
        newctx,
        k,
    ) by {
        assert(interned_entry_ok(oldctx, k));
    }
    assert forall|k1: int, k2: int| 0 <= k1 < k2 < newctx.interned@.len() implies sym_name(
        newc,
        #[trigger] newctx.interned@[k1] as int,
    ) != sym_name(newc, #[trigger] newctx.interned@[k2] as int) by {
        assert(interned_entry_ok(oldctx, k1));
        assert(interned_entry_ok(oldctx, k2));
        let i1 = newctx.interned@[k1] as int;
        let i2 = newctx.interned@[k2] as int;
        assert(sym_name(oldc, i1) != sym_name(oldc, i2));
        assert(sym_name(newc, i1) == sym_name(oldc, i1));
        assert(sym_name(newc, i2) == sym_name(oldc, i2));
    }
}

/// After one fresh cell is written at `idx`, the whole context invariant
/// still holds.
proof fn lemma_wf_after_alloc(oldctx: Context, newctx: Context, idx: int, d: CellData)
    requires
        wf(oldctx),
        !(d is Free),
        vals_ok(oldctx.cells@, cell_vals(d)),
        same_frame(oldctx, newctx),
        heap_extended(oldctx.cells@, newctx.cells@),
        newctx.cells@.len() <= newctx.capacity,
        newctx.cells@.len() <= oldctx.cells@.len() + 1,
        newctx.cells@.len() == oldctx.cells@.len() || idx == oldctx.cells@.len(),
        0 <= idx < newctx.cells@.len(),
        !cell_live(oldctx.cells@, idx),
        newctx.cells@[idx] == (Cell { mark: false, forwarded: false, data: d }),
        forall|j: int|
            0 <= j < newctx.cells@.len() && j != idx && j < oldctx.cells@.len()
                ==> newctx.cells@[j] == oldctx.cells@[j],
        // free list already adjusted by the caller:
        free_list_ok(newctx),
    ensures
        wf(newctx),
{
    let oldc = oldctx.cells@;
    let newc = newctx.cells@;
    assert forall|i: int| 0 <= i < newc.len() implies vals_ok(
        newc,
        #[trigger] cell_vals(newc[i].data),
    ) by {
        if i == idx {
            assert forall|k: int| 0 <= k < cell_vals(d).len() implies val_ok(
                newc,
                #[trigger] cell_vals(d)[k],
            ) by {
                lemma_val_ok_extend(oldc, newc, cell_vals(d)[k]);
            }
        } else {
            assert(0 <= i < oldc.len());
            assert(newc[i] == oldc[i]);
            assert(vals_ok(oldc, cell_vals(oldc[i].data)));
            assert forall|k: int| 0 <= k < cell_vals(newc[i].data).len() implies val_ok(
                newc,
                #[trigger] cell_vals(newc[i].data)[k],
            ) by {
                assert(val_ok(oldc, cell_vals(oldc[i].data)[k]));
                lemma_val_ok_extend(oldc, newc, cell_vals(oldc[i].data)[k]);
            }
        }
    }
    assert forall|v: LispObj| #[trigger] is_root_word(newctx, v) implies val_ok(newc, v) by {
        assert(is_root_word(oldctx, v));
        lemma_val_ok_extend(oldc, newc, v);
    }
    assert forall|k: int| 0 <= k < newctx.interned@.len() implies #[trigger] interned_entry_ok(
        newctx,
        k,
    ) by {
        assert(interned_entry_ok(oldctx, k));
        let i = newctx.interned@[k] as int;
        assert(cell_live(oldc, i));
    }
    assert forall|k1: int, k2: int| 0 <= k1 < k2 < newctx.interned@.len() implies sym_name(
        newc,
        #[trigger] newctx.interned@[k1] as int,
    ) != sym_name(newc, #[trigger] newctx.interned@[k2] as int) by {
        assert(interned_entry_ok(oldctx, k1));
        assert(interned_entry_ok(oldctx, k2));
        let i1 = newctx.interned@[k1] as int;
        let i2 = newctx.interned@[k2] as int;
        assert(cell_live(oldc, i1) && cell_live(oldc, i2));
        assert(newc[i1] == oldc[i1] && newc[i2] == oldc[i2]);
        assert(sym_name(oldc, i1) != sym_name(oldc, i2));
    }
    assert(all_unmarked(newc)) by {
        assert forall|i: int| 0 <= i < newc.len() implies !(#[trigger] newc[i]).mark
            && !newc[i].forwarded by {
            if i != idx {
                assert(0 <= i < oldc.len());
                assert(newc[i] == oldc[i]);
            }
        }
    }
}

/// How many cells the mark table still shows unmarked.
pub open spec fn count_unmarked(s: Seq<bool>) -> nat
    decreases s.len(),
{
    if s.len() == 0 {
        0
    } else {
        count_unmarked(s.drop_last()) + if s.last() {
            0nat
        } else {
            1nat
        }
    }
}

proof fn lemma_count_unmarked_update(s: Seq<bool>, i: int)
    requires
        0 <= i < s.len(),
        !s[i],
    ensures
        count_unmarked(s.update(i, true)) + 1 == count_unmarked(s),
    decreases s.len(),
{
    let t = s.update(i, true);
    if i == s.len() - 1 {
        assert(t.drop_last() =~= s.drop_last());
    } else {
        assert(t.drop_last() =~= s.drop_last().update(i, true));
        lemma_count_unmarked_update(s.drop_last(), i);
        assert(t.last() == s.last());
    }
}

/// A root word that refers to the heap makes its cell reachable: the
/// one-step path.
proof fn lemma_root_reach(ctx: Context, v: LispObj)
    requires
        is_root_word(ctx, v),
        spec_is_heap_ref(v.bits),
    ensures
        reachable(ctx, spec_ref_idx(v.bits)),
{
    let i = spec_ref_idx(v.bits);
    assert(is_root_idx(ctx, i));
    let p: Seq<int> = seq![i];
    assert(is_heap_path(ctx.cells@, p));
    assert(p.len() >= 1 && p[0] == i && p[p.len() - 1] == i);
    assert(reachable_from(ctx.cells@, i, i));
}

/// Reachability follows the heap's edges.
proof fn lemma_reachable_step(ctx: Context, i: int, j: int)
    requires
        reachable(ctx, i),
        cell_points_to(ctx.cells@, i, j),
    ensures
        reachable(ctx, j),
{
    let s = choose|s: int| #[trigger] is_root_idx(ctx, s) && reachable_from(ctx.cells@, s, i);
    let p = choose|p: Seq<int>|
        #![trigger is_heap_path(ctx.cells@, p)]
        p.len() >= 1 && p[0] == s && p[p.len() - 1] == i && is_heap_path(ctx.cells@, p);
    let q = p.push(j);
    assert(is_heap_path(ctx.cells@, q)) by {
        assert forall|k: int| 0 <= k < q.len() - 1 implies cell_points_to(
            ctx.cells@,
            #[trigger] q[k],
            q[k + 1],
        ) by {
            if k < p.len() - 1 {
                assert(q[k] == p[k] && q[k + 1] == p[k + 1]);
            } else {
                assert(q[k] == p[p.len() - 1] && q[k + 1] == j);
            }
        }
    }
    assert(q.len() >= 1 && q[0] == s && q[q.len() - 1] == j);
    assert(reachable_from(ctx.cells@, s, j));
}

/// Every stop on a rooted path is itself reachable.
proof fn lemma_path_nodes_reachable(ctx: Context, s: int, p: Seq<int>, k: int)
    requires
        is_root_idx(ctx, s),
        p.len() >= 1,
        p[0] == s,
        is_heap_path(ctx.cells@, p),
        0 <= k < p.len(),
    ensures
        reachable(ctx, p[k]),
{
    let q = p.subrange(0, k + 1);
    assert(is_heap_path(ctx.cells@, q)) by {
        assert forall|m: int| 0 <= m < q.len() - 1 implies cell_points_to(
            ctx.cells@,
            #[trigger] q[m],
            q[m + 1],
        ) by {
            assert(q[m] == p[m] && q[m + 1] == p[m + 1]);
        }
    }
    assert(q.len() >= 1 && q[0] == s && q[q.len() - 1] == p[k]);
    assert(reachable_from(ctx.cells@, s, p[k]));
}

/// A worklist entry is a valid word whose cell, if any, is reachable.
pub open spec fn wl_ok(ctx: Context, v: LispObj) -> bool {
    &&& val_ok(ctx.cells@, v)
    &&& spec_is_heap_ref(v.bits) ==> reachable(ctx, spec_ref_idx(v.bits))
}

/// At the end of the mark phase the mark table is closed: roots are
/// marked and marks follow every edge. Then every rooted path ends in a
/// marked cell.
proof fn lemma_paths_marked(ctx: Context, marks: Seq<bool>, p: Seq<int>)
    requires
        marks.len() == ctx.cells@.len(),
        forall|v: LispObj|
            #[trigger] is_root_word(ctx, v) && spec_is_heap_ref(v.bits) ==> 0 <= spec_ref_idx(
                v.bits,
            ) < marks.len() && marks[spec_ref_idx(v.bits)],
        forall|i: int, k: int|
            0 <= i < marks.len() && marks[i] && 0 <= k < cell_vals(ctx.cells@[i].data).len()
                ==> ({
                let v = #[trigger] cell_vals(ctx.cells@[i].data)[k];
                spec_is_heap_ref(v.bits) ==> 0 <= spec_ref_idx(v.bits) < marks.len()
                    && marks[spec_ref_idx(v.bits)]
            }),
        p.len() >= 1,
        is_root_idx(ctx, p[0]),
        is_heap_path(ctx.cells@, p),
    ensures
        0 <= p[p.len() - 1] < marks.len() && marks[p[p.len() - 1]],
    decreases p.len(),
{
    if p.len() == 1 {
        let s = p[0];
        let v = choose|v: LispObj| #[trigger] is_root_word(ctx, v) && ref_of(v) == Some(s);
        assert(spec_is_heap_ref(v.bits) && spec_ref_idx(v.bits) == s);
    } else {
        let q = p.drop_last();
        assert(is_heap_path(ctx.cells@, q)) by {
            assert forall|m: int| 0 <= m < q.len() - 1 implies cell_points_to(
                ctx.cells@,
                #[trigger] q[m],
                q[m + 1],
            ) by {
                assert(q[m] == p[m] && q[m + 1] == p[m + 1]);
            }
        }
        lemma_paths_marked(ctx, marks, q);
        let i = p[p.len() - 2];
        let j = p[p.len() - 1];
        assert(cell_points_to(ctx.cells@, i, j));
        let k = choose|k: int|
            0 <= k < cell_vals(ctx.cells@[i].data).len() && ref_of(
                #[trigger] cell_vals(ctx.cells@[i].data)[k],
            ) == Some(j);
        assert(marks[i]);
        let v = cell_vals(ctx.cells@[i].data)[k];
        assert(spec_is_heap_ref(v.bits) && spec_ref_idx(v.bits) == j);
    }
}

proof fn lemma_contains_prefix<A>(s: Seq<A>, t: Seq<A>, x: A)
    requires
        s.contains(x),
        t.len() >= s.len(),
        forall|k: int| 0 <= k < s.len() ==> s[k] == #[trigger] t[k],
    ensures
        t.contains(x),
{
    let k = choose|k: int| 0 <= k < s.len() && s[k] == x;
    assert(t[k] == x);
}

proof fn lemma_witness_after_pop(wl_pre: Seq<LispObj>, wl_new: Seq<LispObj>, v: LispObj, w: LispObj)
    requires
        wl_pre.len() >= 1,
        v == wl_pre[wl_pre.len() - 1],
        wl_new.len() >= wl_pre.len() - 1,
        forall|m: int| 0 <= m < wl_pre.len() - 1 ==> wl_pre[m] == #[trigger] wl_new[m],
        wl_pre.contains(w),
    ensures
        w == v || wl_new.contains(w),
{
    let m = choose|m: int| 0 <= m < wl_pre.len() && wl_pre[m] == w;
    if m < wl_pre.len() - 1 {
        assert(wl_new[m] == w);
    }
}

/// Push every value owned by cell `i` onto the worklist.
fn push_cell_vals(wl: &mut Vec<LispObj>, cells: &Vec<Cell>, i: usize)
    requires
        i < cells@.len(),
        !(cells@[i as int].data is Free),
    ensures
        final(wl)@ == old(wl)@ + cell_vals(cells@[i as int].data),
{
    let ghost vals = cell_vals(cells@[i as int].data);
    match &cells[i].data {
        CellData::Free => unreached(),
        CellData::Cons(c) => {
            wl.push(c.car);
            wl.push(c.cdr);
            proof {
                assert(wl@ =~= old(wl)@ + vals);
            }
        },
        CellData::Str(_) => {
            proof {
                assert(wl@ =~= old(wl)@ + vals);
            }
        },
        CellData::Sym(s) => {
            wl.push(s.value);
            wl.push(s.function);
            wl.push(s.plist);
            proof {
                assert(wl@ =~= old(wl)@ + vals);
            }
        },
        CellData::Vector(es) => {
            push_all(wl, es);
        },
        CellData::Record(es) => {
            push_all(wl, es);
        },
        CellData::Func(f) => {
            push_all(wl, &f.constants);
        },
        CellData::Float(_) => {
            proof {
                assert(wl@ =~= old(wl)@ + vals);
            }
        },
        CellData::Table(tb) => {
            push_pairs(wl, tb);
        },
        CellData::Buf(_) => {
            proof {
                assert(wl@ =~= old(wl)@ + vals);
            }
        },
    }
}

impl Context {
    /// The words the collector starts from: every root entry's values and
    /// every interned symbol.
    fn gather_roots(&self) -> (wl: Vec<LispObj>)
        requires
            wf(*self),
        ensures
            forall|m: int| 0 <= m < wl@.len() ==> wl_ok(*self, #[trigger] wl@[m]),
            forall|v: LispObj| #[trigger] is_root_word(*self, v) ==> wl@.contains(v),
    {
        let mut worklist: Vec<LispObj> = Vec::new();
        let mut r: usize = 0;
        while r < self.roots.len()
            invariant
                wf(*self),
                r <= self.roots@.len(),
                forall|m: int|
                    0 <= m < worklist@.len() ==> is_root_word(*self, #[trigger] worklist@[m]),
                forall|r2: int, k2: int|
                    0 <= r2 < r as int && 0 <= k2 < entry_vals(self.roots@[r2]).len()
                        ==> worklist@.contains(#[trigger] entry_vals(self.roots@[r2])[k2]),
            decreases self.roots@.len() - r,
        {
            let ghost wl_before = worklist@;
            match &self.roots[r] {
                RootEntry::Slot(v) => {
                    worklist.push(*v);
                    proof {
                        assert(entry_vals(self.roots@[r as int]) =~= seq![*v]);
                    }
                },
                RootEntry::Container(vs) => {
                    push_all(&mut worklist, vs);
                    proof {
                        assert(entry_vals(self.roots@[r as int]) == vs@);
                    }
                },
            }
            proof {
                assert(worklist@.len() >= wl_before.len());
                assert forall|m: int| 0 <= m < worklist@.len() implies is_root_word(
                    *self,
                    #[trigger] worklist@[m],
                ) by {
                    if m < wl_before.len() {
                        assert(worklist@[m] == wl_before[m]);
                    } else {
                        assert(worklist@[m] == entry_vals(self.roots@[r as int])[m
                            - wl_before.len()]);
                        assert(entry_vals(self.roots@[r as int]).contains(worklist@[m]));
                    }
                }
                assert forall|r2: int, k2: int|
                    0 <= r2 < r as int + 1 && 0 <= k2 < entry_vals(
                        self.roots@[r2],
                    ).len() implies worklist@.contains(
                    #[trigger] entry_vals(self.roots@[r2])[k2],
                ) by {
                    if r2 < r as int {
                        lemma_contains_prefix(
                            wl_before,
                            worklist@,
                            entry_vals(self.roots@[r2])[k2],
                        );
                    } else {
                        assert(worklist@[wl_before.len() + k2] == entry_vals(self.roots@[r2])[k2]);
                    }
                }
            }
            r = r + 1;
        }
        let mut t: usize = 0;
        while t < self.interned.len()
            invariant
                wf(*self),
                t <= self.interned@.len(),
                forall|m: int|
                    0 <= m < worklist@.len() ==> is_root_word(*self, #[trigger] worklist@[m]),
                forall|r2: int, k2: int|
                    0 <= r2 < self.roots@.len() && 0 <= k2 < entry_vals(self.roots@[r2]).len()
                        ==> worklist@.contains(#[trigger] entry_vals(self.roots@[r2])[k2]),
                forall|t2: int|
                    0 <= t2 < t as int ==> worklist@.contains(
                        sym_word(#[trigger] self.interned@[t2] as int),
                    ),
            decreases self.interned@.len() - t,
        {
            let ghost wl_before = worklist@;
            proof {
                assert(interned_entry_ok(*self, t as int));
            }
            let i = self.interned[t];
            let w = LispObj::from_index(i, crate::value::TAG_SYMBOL);
            proof {
                assert(w == sym_word(i as int));
                assert(is_root_word(*self, w));
            }
            worklist.push(w);
            proof {
                assert forall|r2: int, k2: int|
                    0 <= r2 < self.roots@.len() && 0 <= k2 < entry_vals(
                        self.roots@[r2],
                    ).len() implies worklist@.contains(
                    #[trigger] entry_vals(self.roots@[r2])[k2],
                ) by {
                    lemma_contains_prefix(wl_before, worklist@, entry_vals(self.roots@[r2])[k2]);
                }
                assert forall|t2: int| 0 <= t2 < t as int + 1 implies worklist@.contains(
                    sym_word(#[trigger] self.interned@[t2] as int),
                ) by {
                    if t2 < t as int {
                        lemma_contains_prefix(
                            wl_before,
                            worklist@,
                            sym_word(self.interned@[t2] as int),
                        );
                    } else {
                        assert(worklist@[wl_before.len() as int] == w);
                    }
                }
            }
            t = t + 1;
        }
        proof {
            assert forall|v: LispObj| #[trigger] is_root_word(*self, v) implies worklist@.contains(
                v,
            ) by {
                if exists|r2: int|
                    0 <= r2 < self.roots@.len() && (#[trigger] entry_vals(
                        self.roots@[r2],
                    )).contains(v) {
                    let r2 = choose|r2: int|
                        0 <= r2 < self.roots@.len() && (#[trigger] entry_vals(
                            self.roots@[r2],
                        )).contains(v);
                    let k2 = choose|k2: int|
                        0 <= k2 < entry_vals(self.roots@[r2]).len() && entry_vals(
                            self.roots@[r2],
                        )[k2] == v;
                    assert(worklist@.contains(entry_vals(self.roots@[r2])[k2]));
                } else {
                    let t2 = choose|t2: int|
                        0 <= t2 < self.interned@.len() && v == sym_word(
                            self.interned@[t2] as int,
                        );
                    assert(worklist@.contains(sym_word(self.interned@[t2] as int)));
                }
            }
            assert forall|m: int| 0 <= m < worklist@.len() implies wl_ok(
                *self,
                #[trigger] worklist@[m],
            ) by {
                assert(is_root_word(*self, worklist@[m]));
                assert(val_ok(self.cells@, worklist@[m]));
                if spec_is_heap_ref(worklist@[m].bits) {
                    lemma_root_reach(*self, worklist@[m]);
                }
            }
        }
        worklist
    }

    /// Trace the heap from the given worklist. The returned table marks
    /// exactly the cells the trace visited: all of them reachable, and
    /// together closed under the heap's edges.
    fn mark_phase(&self, wl: Vec<LispObj>) -> (marks: Vec<bool>)
        requires
            wf(*self),
            forall|m: int| 0 <= m < wl@.len() ==> wl_ok(*self, #[trigger] wl@[m]),
            forall|v: LispObj| #[trigger] is_root_word(*self, v) ==> wl@.contains(v),
        ensures
            marks@.len() == self.cells@.len(),
            forall|i: int|
                0 <= i < marks@.len() && #[trigger] marks@[i] ==> reachable(*self, i)
                    && cell_live(self.cells@, i),
            forall|v: LispObj|
                #[trigger] is_root_word(*self, v) && spec_is_heap_ref(v.bits) ==> 0
                    <= spec_ref_idx(v.bits) < marks@.len() && marks@[spec_ref_idx(v.bits)],
            forall|i: int, k: int|
                0 <= i < marks@.len() && marks@[i] && 0 <= k < cell_vals(
                    self.cells@[i].data,
                ).len() ==> ({
                    let w = #[trigger] cell_vals(self.cells@[i].data)[k];
                    spec_is_heap_ref(w.bits) ==> 0 <= spec_ref_idx(w.bits) < marks@.len()
                        && marks@[spec_ref_idx(w.bits)]
                }),
    {
        let n = self.cells.len();
        let mut worklist = wl;
        let mut marks: Vec<bool> = vec![false; n];
        while worklist.len() > 0
            invariant
                wf(*self),
                n == self.cells@.len(),
                marks@.len() == n as int,
                forall|m: int| 0 <= m < worklist@.len() ==> wl_ok(*self, #[trigger] worklist@[m]),
                forall|i: int|
                    0 <= i < n as int && #[trigger] marks@[i] ==> reachable(*self, i) && cell_live(
                        self.cells@,
                        i,
                    ),
                forall|v: LispObj|
                    #[trigger] is_root_word(*self, v) && spec_is_heap_ref(v.bits)
                        ==> marks@[spec_ref_idx(v.bits)] || worklist@.contains(v),
                forall|i: int, k: int|
                    0 <= i < n as int && marks@[i] && 0 <= k < cell_vals(
                        self.cells@[i].data,
                    ).len() ==> ({
                        let w = #[trigger] cell_vals(self.cells@[i].data)[k];
                        spec_is_heap_ref(w.bits) ==> marks@[spec_ref_idx(w.bits)]
                            || worklist@.contains(w)
                    }),
            decreases count_unmarked(marks@), worklist@.len(),
        {
            let ghost wl_pre = worklist@;
            let v = match worklist.pop() {
                Some(v) => v,
                None => unreached(),
            };
            let ghost wl1 = worklist@;
            proof {
                assert(wl_pre[wl_pre.len() - 1] == v);
                assert(wl_ok(*self, v));
                assert forall|m: int| 0 <= m < wl1.len() implies wl_ok(
                    *self,
                    #[trigger] wl1[m],
                ) by {
                    assert(wl1[m] == wl_pre[m]);
                }
            }
            if v.is_heap_ref() {
                proof {
                    assert(val_ok(self.cells@, v));
                }
                let i = v.ref_idx();
                if !(marks[i]) {
                    let ghost marks_old = marks@;
                    marks.set(i, true);
                    proof {
                        lemma_count_unmarked_update(marks_old, i as int);
                    }
                    push_cell_vals(&mut worklist, &self.cells, i);
                    proof {
                        let ii = i as int;
                        let vals = cell_vals(self.cells@[ii].data);
                        assert(worklist@ == wl1 + vals);
                        assert(reachable(*self, ii));
                        assert(vals_ok(self.cells@, vals));
                        assert forall|m: int| 0 <= m < worklist@.len() implies wl_ok(
                            *self,
                            #[trigger] worklist@[m],
                        ) by {
                            if m < wl1.len() {
                                assert(worklist@[m] == wl1[m]);
                            } else {
                                let w = worklist@[m];
                                assert(w == vals[m - wl1.len()]);
                                assert(val_ok(self.cells@, w));
                                if spec_is_heap_ref(w.bits) {
                                    assert(cell_points_to(self.cells@, ii, spec_ref_idx(w.bits)));
                                    lemma_reachable_step(*self, ii, spec_ref_idx(w.bits));
                                }
                            }
                        }
                        assert forall|v2: LispObj|
                            #[trigger] is_root_word(*self, v2) && spec_is_heap_ref(
                                v2.bits,
                            ) implies marks@[spec_ref_idx(v2.bits)] || worklist@.contains(v2) by {
                            if !marks_old[spec_ref_idx(v2.bits)] {
                                lemma_witness_after_pop(wl_pre, worklist@, v, v2);
                            }
                        }
                        assert forall|i2: int, k: int|
                            0 <= i2 < n as int && marks@[i2] && 0 <= k < cell_vals(
                                self.cells@[i2].data,
                            ).len() implies ({
                            let w = #[trigger] cell_vals(self.cells@[i2].data)[k];
                            spec_is_heap_ref(w.bits) ==> marks@[spec_ref_idx(w.bits)]
                                || worklist@.contains(w)
                        }) by {
                            let w = cell_vals(self.cells@[i2].data)[k];
                            if spec_is_heap_ref(w.bits) {
                                if i2 == ii {
                                    assert(worklist@[wl1.len() + k] == w);
                                } else {
                                    if !marks_old[spec_ref_idx(w.bits)] {
                                        lemma_witness_after_pop(wl_pre, worklist@, v, w);
                                    }
                                }
                            }
                        }
                    }
                } else {
                    proof {
                        restore_after_plain_pop(*self, wl_pre, worklist@, v, marks@, n as int);
                    }
                }
            } else {
                proof {
                    restore_after_plain_pop(*self, wl_pre, worklist@, v, marks@, n as int);
                }
            }
        }
        proof {
            assert forall|v2: LispObj|
                #[trigger] is_root_word(*self, v2) && spec_is_heap_ref(v2.bits) implies 0
                <= spec_ref_idx(v2.bits) < marks@.len() && marks@[spec_ref_idx(v2.bits)] by {
                assert(val_ok(self.cells@, v2));
            }
            assert forall|i: int, k: int|
                0 <= i < marks@.len() && marks@[i] && 0 <= k < cell_vals(
                    self.cells@[i].data,
                ).len() implies ({
                let w = #[trigger] cell_vals(self.cells@[i].data)[k];
                spec_is_heap_ref(w.bits) ==> 0 <= spec_ref_idx(w.bits) < marks@.len()
                    && marks@[spec_ref_idx(w.bits)]
            }) by {
                let w = cell_vals(self.cells@[i].data)[k];
                assert(vals_ok(self.cells@, cell_vals(self.cells@[i].data)));
                assert(val_ok(self.cells@, w));
            }
        }
        marks
    }

    /// Free every cell the mark table does not name, give the freed slots
    /// to the free list, and leave every marked cell untouched.
    fn sweep_phase(&mut self, marks: &Vec<bool>)
        requires
            wf(*old(self)),
            marks@.len() == old(self).cells@.len(),
            forall|i: int|
                0 <= i < marks@.len() && #[trigger] marks@[i] ==> cell_live(old(self).cells@, i),
        ensures
            final(self).roots == old(self).roots,
            final(self).interned == old(self).interned,
            final(self).capacity == old(self).capacity,
            final(self).threshold == old(self).threshold,
            final(self).since_gc == old(self).since_gc,
            final(self).cells@.len() == old(self).cells@.len(),
            forall|j: int|
                0 <= j < marks@.len() && #[trigger] marks@[j] ==> final(self).cells@[j] == old(self).cells@[j],
            forall|j: int|
                0 <= j < marks@.len() && !(#[trigger] marks@[j]) ==> final(self).cells@[j].mark
                    == false && final(self).cells@[j].forwarded == false && final(self).cells@[j].data is Free,
            free_list_ok(*final(self)),
    {
        let ghost orig = *self;
        let ghost cells0 = orig.cells@;
        let n = self.cells.len();
        let mut i: usize = 0;
        while i < n
            invariant
                i <= n,
                n == cells0.len(),
                cells0 == orig.cells@,
                marks@.len() == n as int,
                wf(orig),
                forall|i2: int|
                    0 <= i2 < marks@.len() && #[trigger] marks@[i2] ==> cell_live(cells0, i2),
                self.roots == orig.roots,
                self.interned == orig.interned,
                self.capacity == orig.capacity,
                self.threshold == orig.threshold,
                self.since_gc == orig.since_gc,
                self.cells@.len() == n as int,
                forall|j: int| i as int <= j < n as int ==> self.cells@[j] == cells0[j],
                forall|j: int| 0 <= j < i as int && marks@[j] ==> self.cells@[j] == cells0[j],
                forall|j: int|
                    0 <= j < i as int && !marks@[j] ==> (#[trigger] self.cells@[j]).mark == false
                        && self.cells@[j].forwarded == false && self.cells@[j].data is Free,
                orig.free@.len() <= self.free@.len(),
                forall|k: int| 0 <= k < orig.free@.len() ==> self.free@[k] == orig.free@[k],
                forall|k: int|
                    orig.free@.len() <= k < self.free@.len() ==> (#[trigger] self.free@[k] as int)
                        < i as int && !(cells0[self.free@[k] as int].data is Free),
                forall|k1: int, k2: int|
                    orig.free@.len() <= k1 < k2 < self.free@.len() ==> self.free@[k1]
                        < self.free@[k2],
                self.free@.no_duplicates(),
                forall|k: int|
                    0 <= k < self.free@.len() ==> (#[trigger] self.free@[k] as int) < n as int
                        && self.cells@[self.free@[k] as int].data is Free,
                forall|j: int|
                    0 <= j < n as int && (#[trigger] self.cells@[j].data) is Free
                        ==> self.free@.contains(j as usize),
            decreases n - i,
        {
            let ghost pre = *self;
            if marks[i] {
            } else {
                let is_free = match &self.cells[i].data {
                    CellData::Free => true,
                    _ => false,
                };
                if !is_free {
                    self.cells.set(i, Cell { mark: false, forwarded: false, data: CellData::Free });
                    self.free.push(i);
                    proof {
                        assert forall|j: int|
                            0 <= j < n as int && (#[trigger] self.cells@[j].data)
                                is Free implies self.free@.contains(j as usize) by {
                            if j == i as int {
                                assert(self.free@[self.free@.len() - 1] == i as usize);
                            } else {
                                assert(pre.cells@[j].data is Free);
                                assert(pre.free@.contains(j as usize));
                                lemma_contains_prefix(pre.free@, self.free@, j as usize);
                            }
                        }
                        assert(self.free@.no_duplicates()) by {
                            assert forall|k1: int, k2: int|
                                0 <= k1 < self.free@.len() && 0 <= k2 < self.free@.len() && k1
                                != k2 implies self.free@[k1] != self.free@[k2] by {
                                let last = self.free@.len() - 1;
                                if k1 == last || k2 == last {
                                    let ko = if k1 == last {
                                        k2
                                    } else {
                                        k1
                                    };
                                    assert(self.free@[last] == i as usize);
                                    assert(self.free@[ko] == pre.free@[ko]);
                                    if ko < orig.free@.len() {
                                        assert(free_list_ok(orig));
                                        assert(cells0[orig.free@[ko] as int].data is Free);
                                    } else {
                                        assert((pre.free@[ko] as int) < i as int);
                                    }
                                } else {
                                    assert(pre.free@[k1] == self.free@[k1]);
                                    assert(pre.free@[k2] == self.free@[k2]);
                                }
                            }
                        }
                    }
                } else {
                    proof {
                        assert(self.cells@[i as int] == cells0[i as int]);
                        assert(!cells0[i as int].mark && !cells0[i as int].forwarded);
                    }
                }
            }
            i = i + 1;
        }
    }

    /// Run one full mark-sweep collection.
    ///
    /// Afterwards exactly the cells reachable from the root set are live,
    /// each unchanged at its old index, so every rooted value keeps its
    /// meaning; and what is reachable afterwards is what was reachable
    /// before.
    pub fn collect(&mut self)
        requires
            wf(*old(self)),
        ensures
            wf(*final(self)),
            same_frame(*old(self), *final(self)),
            final(self).cells@.len() == old(self).cells@.len(),
            final(self).since_gc == 0,
            forall|j: int|
                cell_live(final(self).cells@, j) ==> #[trigger] reachable(*old(self), j),
            forall|j: int|
                #[trigger] reachable(*old(self), j) ==> cell_live(final(self).cells@, j)
                    && final(self).cells@[j].data == old(self).cells@[j].data,
            forall|j: int| #[trigger] reachable(*final(self), j) <==> reachable(*old(self), j),
            heap_step(*old(self), *final(self)),
    {
        let ghost orig = *self;
        let worklist = self.gather_roots();
        let marks = self.mark_phase(worklist);
        let ghost marks_fin = marks@;
        self.sweep_phase(&marks);
        self.since_gc = 0;
        proof {
            lemma_collect_wf(orig, *self, marks_fin);
            lemma_collect_reach(orig, *self, marks_fin);
            assert forall|j: int| #[trigger] reachable(orig, j) implies reachable(*self, j)
                && cell_live(self.cells@, j) && self.cells@[j].data == orig.cells@[j].data by {}
        }
    }

    /// Collect when the allocation counter has crossed the threshold: the
    /// heuristic check run at allocation sites by the mutator.
    pub fn maybe_collect(&mut self)
        requires
            wf(*old(self)),
        ensures
            wf(*final(self)),
            same_frame(*old(self), *final(self)),
            old(self).since_gc < old(self).threshold ==> *final(self) == *old(self),
            old(self).since_gc >= old(self).threshold ==> {
                &&& final(self).since_gc == 0
                &&& final(self).cells@.len() == old(self).cells@.len()
                &&& (forall|j: int|
                    cell_live(final(self).cells@, j) ==> #[trigger] reachable(*old(self), j))
                &&& (forall|j: int|
                    #[trigger] reachable(*old(self), j) ==> cell_live(final(self).cells@, j)
                        && final(self).cells@[j].data == old(self).cells@[j].data)
                &&& (forall|j: int|
                    #[trigger] reachable(*final(self), j) <==> reachable(*old(self), j))
            },
    {
        if self.since_gc >= self.threshold {
            self.collect();
        }
    }
}

/// After a pop that marked nothing new, the mark/worklist obligations
/// still hold: every former witness either survived the pop or was the
/// popped word itself, whose cell is marked.
proof fn restore_after_plain_pop(
    ctx: Context,
    wl_pre: Seq<LispObj>,
    wl_new: Seq<LispObj>,
    v: LispObj,
    marks: Seq<bool>,
    n: int,
)
    requires
        n == ctx.cells@.len(),
        marks.len() == n,
        wl_pre.len() >= 1,
        v == wl_pre[wl_pre.len() - 1],
        wl_new == wl_pre.subrange(0, wl_pre.len() - 1),
        spec_is_heap_ref(v.bits) ==> 0 <= spec_ref_idx(v.bits) < n && marks[spec_ref_idx(v.bits)],
        forall|v2: LispObj|
            #[trigger] is_root_word(ctx, v2) && spec_is_heap_ref(v2.bits)
                ==> marks[spec_ref_idx(v2.bits)] || wl_pre.contains(v2),
        forall|i: int, k: int|
            0 <= i < n && marks[i] && 0 <= k < cell_vals(ctx.cells@[i].data).len() ==> ({
                let w = #[trigger] cell_vals(ctx.cells@[i].data)[k];
                spec_is_heap_ref(w.bits) ==> marks[spec_ref_idx(w.bits)] || wl_pre.contains(w)
            }),
    ensures
        forall|v2: LispObj|
            #[trigger] is_root_word(ctx, v2) && spec_is_heap_ref(v2.bits)
                ==> marks[spec_ref_idx(v2.bits)] || wl_new.contains(v2),
        forall|i: int, k: int|
            0 <= i < n && marks[i] && 0 <= k < cell_vals(ctx.cells@[i].data).len() ==> ({
                let w = #[trigger] cell_vals(ctx.cells@[i].data)[k];
                spec_is_heap_ref(w.bits) ==> marks[spec_ref_idx(w.bits)] || wl_new.contains(w)
            }),
{
    assert forall|v2: LispObj|
        #[trigger] is_root_word(ctx, v2) && spec_is_heap_ref(v2.bits) && !marks[spec_ref_idx(
        v2.bits,
    )] implies wl_new.contains(v2) by {
        lemma_witness_after_pop(wl_pre, wl_new, v, v2);
        assert(v2 != v);
    }
    assert forall|i: int, k: int|
        0 <= i < n && marks[i] && 0 <= k < cell_vals(ctx.cells@[i].data).len() && spec_is_heap_ref(
            (#[trigger] cell_vals(ctx.cells@[i].data)[k]).bits,
        ) && !marks[spec_ref_idx(cell_vals(ctx.cells@[i].data)[k].bits)] implies wl_new.contains(
        cell_vals(ctx.cells@[i].data)[k],
    ) by {
        let w = cell_vals(ctx.cells@[i].data)[k];
        lemma_witness_after_pop(wl_pre, wl_new, v, w);
        assert(w != v);
    }
}

/// The context after a sweep guided by a sound, closed mark table is
/// well-formed again.
proof fn lemma_collect_wf(orig: Context, fin: Context, marks: Seq<bool>)
    requires
        collect_glue(orig, fin, marks),
    ensures
        wf(fin),
        forall|j: int| cell_live(fin.cells@, j) ==> #[trigger] reachable(orig, j),
        forall|j: int|
            #[trigger] reachable(orig, j) ==> cell_live(fin.cells@, j) && fin.cells@[j].data
                == orig.cells@[j].data,
{
    let n = orig.cells@.len() as int;
    let cells0 = orig.cells@;
    let newc = fin.cells@;
    assert forall|j: int| #[trigger] reachable(orig, j) implies 0 <= j < n && marks[j] by {
        lemma_reachable_is_marked(orig, marks, j);
    }
    assert forall|j: int| #[trigger] cell_live(newc, j) implies marks[j] by {
        if !marks[j] {
            assert(newc[j].data is Free);
        }
    }
    assert forall|i2: int| 0 <= i2 < newc.len() implies vals_ok(
        newc,
        #[trigger] cell_vals(newc[i2].data),
    ) by {
        if marks[i2] {
            assert(newc[i2] == cells0[i2]);
            assert(vals_ok(cells0, cell_vals(cells0[i2].data)));
            assert forall|k: int| 0 <= k < cell_vals(newc[i2].data).len() implies val_ok(
                newc,
                #[trigger] cell_vals(newc[i2].data)[k],
            ) by {
                let w = cell_vals(newc[i2].data)[k];
                assert(val_ok(cells0, w));
                if spec_is_heap_ref(w.bits) {
                    let j = spec_ref_idx(w.bits);
                    assert(marks[j]);
                    assert(newc[j] == cells0[j]);
                }
            }
        } else {
            assert(newc[i2].data is Free);
            assert(cell_vals(newc[i2].data) =~= Seq::empty());
        }
    }
    assert forall|v2: LispObj| #[trigger] is_root_word(fin, v2) implies val_ok(newc, v2) by {
        assert(is_root_word(orig, v2));
        assert(val_ok(cells0, v2));
        if spec_is_heap_ref(v2.bits) {
            let j = spec_ref_idx(v2.bits);
            assert(marks[j]);
            assert(newc[j] == cells0[j]);
        }
    }
    assert forall|k: int| 0 <= k < fin.interned@.len() implies #[trigger] interned_entry_ok(
        fin,
        k,
    ) by {
        assert(interned_entry_ok(orig, k));
        let j = fin.interned@[k] as int;
        assert(is_root_word(orig, sym_word(j)));
        lemma_sym_word_ref_pub(j);
        assert(marks[j]);
        assert(newc[j] == cells0[j]);
    }
    assert forall|k1: int, k2: int| 0 <= k1 < k2 < fin.interned@.len() implies sym_name(
        newc,
        #[trigger] fin.interned@[k1] as int,
    ) != sym_name(newc, #[trigger] fin.interned@[k2] as int) by {
        assert(interned_entry_ok(orig, k1));
        assert(interned_entry_ok(orig, k2));
        let j1 = fin.interned@[k1] as int;
        let j2 = fin.interned@[k2] as int;
        lemma_sym_word_ref_pub(j1);
        lemma_sym_word_ref_pub(j2);
        assert(is_root_word(orig, sym_word(j1)));
        assert(is_root_word(orig, sym_word(j2)));
        assert(marks[j1] && marks[j2]);
        assert(newc[j1] == cells0[j1] && newc[j2] == cells0[j2]);
        assert(sym_name(cells0, j1) != sym_name(cells0, j2));
    }
    assert(all_unmarked(newc)) by {
        assert forall|i2: int| 0 <= i2 < newc.len() implies !(#[trigger] newc[i2]).mark
            && !newc[i2].forwarded by {
            if marks[i2] {
                assert(newc[i2] == cells0[i2]);
            }
        }
    }
}

/// The shared glue between the phases of a collection, in terms of the
/// original context, the final context and the mark table.
pub open spec fn collect_glue(orig: Context, fin: Context, marks: Seq<bool>) -> bool {
    &&& wf(orig)
    &&& fin.roots == orig.roots
    &&& fin.interned == orig.interned
    &&& fin.capacity == orig.capacity
    &&& fin.threshold == orig.threshold
    &&& fin.cells@.len() == orig.cells@.len()
    &&& marks.len() == orig.cells@.len()
    &&& (forall|i: int|
        0 <= i < marks.len() && #[trigger] marks[i] ==> reachable(orig, i) && cell_live(
            orig.cells@,
            i,
        ))
    &&& (forall|v: LispObj|
        #[trigger] is_root_word(orig, v) && spec_is_heap_ref(v.bits) ==> 0 <= spec_ref_idx(v.bits)
            < marks.len() && marks[spec_ref_idx(v.bits)])
    &&& (forall|i: int, k: int|
        0 <= i < marks.len() && marks[i] && 0 <= k < cell_vals(orig.cells@[i].data).len() ==> ({
            let w = #[trigger] cell_vals(orig.cells@[i].data)[k];
            spec_is_heap_ref(w.bits) ==> 0 <= spec_ref_idx(w.bits) < marks.len() && marks[spec_ref_idx(
                w.bits,
            )]
        }))
    &&& (forall|j: int|
        0 <= j < marks.len() && #[trigger] marks[j] ==> fin.cells@[j] == orig.cells@[j])
    &&& (forall|j: int|
        0 <= j < marks.len() && !(#[trigger] marks[j]) ==> fin.cells@[j].mark == false
            && fin.cells@[j].forwarded == false && fin.cells@[j].data is Free)
    &&& free_list_ok(fin)
}

proof fn lemma_reachable_is_marked(orig: Context, marks: Seq<bool>, j: int)
    requires
        collect_glue_marks_only(orig, marks),
        reachable(orig, j),
    ensures
        0 <= j < marks.len() && marks[j],
{
    let s = choose|s: int| #[trigger] is_root_idx(orig, s) && reachable_from(orig.cells@, s, j);
    let p = choose|p: Seq<int>|
        #![trigger is_heap_path(orig.cells@, p)]
        p.len() >= 1 && p[0] == s && p[p.len() - 1] == j && is_heap_path(orig.cells@, p);
    lemma_paths_marked(orig, marks, p);
}

/// The part of the glue that speaks of the mark table alone.
pub open spec fn collect_glue_marks_only(orig: Context, marks: Seq<bool>) -> bool {
    &&& marks.len() == orig.cells@.len()
    &&& (forall|v: LispObj|
        #[trigger] is_root_word(orig, v) && spec_is_heap_ref(v.bits) ==> 0 <= spec_ref_idx(v.bits)
            < marks.len() && marks[spec_ref_idx(v.bits)])
    &&& (forall|i: int, k: int|
        0 <= i < marks.len() && marks[i] && 0 <= k < cell_vals(orig.cells@[i].data).len() ==> ({
            let w = #[trigger] cell_vals(orig.cells@[i].data)[k];
            spec_is_heap_ref(w.bits) ==> 0 <= spec_ref_idx(w.bits) < marks.len() && marks[spec_ref_idx(
                w.bits,
            )]
        }))
}

/// Collection changes which cells are live but never which cells are
/// reachable.
proof fn lemma_collect_reach(orig: Context, fin: Context, marks: Seq<bool>)
    requires
        collect_glue(orig, fin, marks),
    ensures
        forall|j: int| #[trigger] reachable(fin, j) <==> reachable(orig, j),
{
    let cells0 = orig.cells@;
    let newc = fin.cells@;
    assert forall|j: int| #[trigger] reachable(fin, j) implies reachable(orig, j) by {
        let s = choose|s: int| #[trigger] is_root_idx(fin, s) && reachable_from(newc, s, j);
        let p = choose|p: Seq<int>|
            #![trigger is_heap_path(newc, p)]
            p.len() >= 1 && p[0] == s && p[p.len() - 1] == j && is_heap_path(newc, p);
        assert(is_heap_path(cells0, p)) by {
            assert forall|m: int| 0 <= m < p.len() - 1 implies cell_points_to(
                cells0,
                #[trigger] p[m],
                p[m + 1],
            ) by {
                assert(cell_points_to(newc, p[m], p[m + 1]));
                assert(cell_live(newc, p[m]));
                assert(marks[p[m]]) by {
                    if !marks[p[m]] {
                        assert(newc[p[m]].data is Free);
                    }
                }
                assert(newc[p[m]] == cells0[p[m]]);
            }
        }
        assert(is_root_idx(orig, s)) by {
            let w = choose|w: LispObj| #[trigger] is_root_word(fin, w) && ref_of(w) == Some(s);
            assert(is_root_word(orig, w));
        }
        assert(reachable_from(cells0, s, j));
    }
    assert forall|j: int| #[trigger] reachable(orig, j) implies reachable(fin, j) by {
        let s = choose|s: int| #[trigger] is_root_idx(orig, s) && reachable_from(cells0, s, j);
        let p = choose|p: Seq<int>|
            #![trigger is_heap_path(cells0, p)]
            p.len() >= 1 && p[0] == s && p[p.len() - 1] == j && is_heap_path(cells0, p);
        assert(is_heap_path(newc, p)) by {
            assert forall|m: int| 0 <= m < p.len() - 1 implies cell_points_to(
                newc,
                #[trigger] p[m],
                p[m + 1],
            ) by {
                assert(cell_points_to(cells0, p[m], p[m + 1]));
                lemma_path_nodes_reachable(orig, s, p, m);
                lemma_reachable_is_marked(orig, marks, p[m]);
                assert(newc[p[m]] == cells0[p[m]]);
            }
        }
        assert(is_root_idx(fin, s)) by {
            let w = choose|w: LispObj| #[trigger] is_root_word(orig, w) && ref_of(w) == Some(s);
            assert(is_root_word(fin, w));
        }
        assert(reachable_from(newc, s, j));
    }
}

pub proof fn lemma_sym_word_ref_pub(j: int)
    requires
        0 <= j < 0x1_0000_0000_0000,
    ensures
        spec_is_heap_ref(sym_word(j).bits),
        spec_ref_idx(sym_word(j).bits) == j,
{
    let idx = j as u64;
    let t = crate::value::TAG_SYMBOL;
    let w: u64 = spec_ref_bits(j, t);
    assert(w & 0xFFFF == t as u64 && (idx < 0x1_0000_0000_0000 ==> w >> 16 == idx)) by (bit_vector)
        requires
            w == ((idx << 16) | t as u64),
    ;
}


/// Append every element of `es` to the worklist.
fn push_all(wl: &mut Vec<LispObj>, es: &Vec<LispObj>)
    ensures
        final(wl)@ == old(wl)@ + es@,
{
    let mut k: usize = 0;
    while k < es.len()
        invariant
            k <= es@.len(),
            wl@ == old(wl)@ + es@.subrange(0, k as int),
        decreases es@.len() - k,
    {
        wl.push(es[k]);
        k = k + 1;
        proof {
            assert(wl@ =~= old(wl)@ + es@.subrange(0, k as int));
        }
    }
    proof {
        assert(es@.subrange(0, es@.len() as int) =~= es@);
        assert(wl@ =~= old(wl)@ + es@);
    }
}

/// Append key and value of every table entry to the worklist, in entry
/// order.
fn push_pairs(wl: &mut Vec<LispObj>, es: &Vec<(LispObj, LispObj)>)
    ensures
        final(wl)@ == old(wl)@ + pair_vals(es@),
{
    let mut k: usize = 0;
    while k < es.len()
        invariant
            k <= es@.len(),
            wl@ == old(wl)@ + pair_vals(es@.subrange(0, k as int)),
        decreases es@.len() - k,
    {
        let (a, b) = es[k];
        wl.push(a);
        wl.push(b);
        k = k + 1;
        proof {
            let sub = es@.subrange(0, k as int);
            assert(pair_vals(sub) =~= pair_vals(es@.subrange(0, k as int - 1)) + seq![
                es@[k as int - 1].0,
                es@[k as int - 1].1,
            ]) by {
                assert forall|m: int| 0 <= m < pair_vals(sub).len() implies pair_vals(sub)[m] == (
                pair_vals(es@.subrange(0, k as int - 1)) + seq![
                    es@[k as int - 1].0,
                    es@[k as int - 1].1,
                ])[m] by {
                    if m < 2 * (k as int - 1) {
                    } else if m == 2 * (k as int - 1) {
                        assert(m % 2 == 0 && m / 2 == k as int - 1);
                    } else {
                        assert(m == 2 * (k as int - 1) + 1);
                        assert(m % 2 == 1 && m / 2 == k as int - 1);
                    }
                }
            }
            assert(wl@ =~= old(wl)@ + pair_vals(sub));
        }
    }
    proof {
        assert(es@.subrange(0, es@.len() as int) =~= es@);
        assert(wl@ =~= old(wl)@ + pair_vals(es@));
    }
}

} // verus!
