//! The root set and its handles.
//!
//! A value held across an allocation must be visible to the collector, so
//! the mutator registers it in the context's root set and works through a
//! guard. Guards carry the index of their root-set entry and cannot be
//! copied; the entry can only be released by giving the guard back, and
//! only in stack order, so the root set behaves as the stack of nested
//! scopes it models. A guard is created already initialised, so no root
//! is ever registered empty, and a released guard is gone for good.

use crate::heap::{
    entry_vals, is_root_word, val_ok, wf, Context, RootEntry,
};
use crate::value::LispObj;
use vstd::pervasive::unreached;
use vstd::pervasive::VecAdditionalExecFns;
use vstd::prelude::*;

verus! {

/// A handle to one entry of the root set. Not copyable: releasing the
/// entry consumes the guard.
pub struct RootGuard {
    pub index: usize,
}

/// The parts of a context that root-set operations never touch.
pub open spec fn roots_frame(a: Context, b: Context) -> bool {
    &&& b.cells == a.cells
    &&& b.interned == a.interned
    &&& b.free == a.free
    &&& b.capacity == a.capacity
    &&& b.threshold == a.threshold
    &&& b.since_gc == a.since_gc
}

/// Everything the root set holds is still a valid word of the unchanged
/// heap, so the whole invariant carries over.
proof fn lemma_wf_roots_only(o: Context, n: Context)
    requires
        wf(o),
        roots_frame(o, n),
        forall|w: LispObj| #[trigger] is_root_word(n, w) ==> val_ok(o.cells@, w),
    ensures
        wf(n),
{
    assert forall|k: int| 0 <= k < n.interned@.len() implies #[trigger] crate::heap::interned_entry_ok(
        n,
        k,
    ) by {
        assert(crate::heap::interned_entry_ok(o, k));
    }
    assert(crate::heap::interned_names_unique(n)) by {
        assert forall|k1: int, k2: int|
            0 <= k1 < k2 < n.interned@.len() implies crate::heap::sym_name(
            n.cells@,
            #[trigger] n.interned@[k1] as int,
        ) != crate::heap::sym_name(n.cells@, #[trigger] n.interned@[k2] as int) by {
            assert(crate::heap::sym_name(o.cells@, o.interned@[k1] as int)
                != crate::heap::sym_name(o.cells@, o.interned@[k2] as int));
        }
    }
}

impl Context {
    /// Root one value. The new entry goes on top of the root-set stack
    /// and the returned guard is the only way to reach or release it.
    pub fn push_root(&mut self, v: LispObj) -> (g: RootGuard)
        requires
            wf(*old(self)),
            val_ok(old(self).cells@, v),
            old(self).roots@.len() < usize::MAX,
        ensures
            wf(*final(self)),
            roots_frame(*old(self), *final(self)),
            g.index == old(self).roots@.len(),
            final(self).roots@ == old(self).roots@.push(RootEntry::Slot(v)),
    {
        let g = RootGuard { index: self.roots.len() };
        let ghost oldself = *self;
        self.roots.push(RootEntry::Slot(v));
        proof {
            assert forall|w: LispObj| #[trigger] is_root_word(*self, w) implies val_ok(
                oldself.cells@,
                w,
            ) by {
                lemma_root_word_after_update(oldself, *self, oldself.roots@.len() as int, w, v);
            }
            lemma_wf_roots_only(oldself, *self);
        }
        g
    }

    /// Root an empty container of values.
    pub fn push_root_vec(&mut self) -> (g: RootGuard)
        requires
            wf(*old(self)),
            old(self).roots@.len() < usize::MAX,
        ensures
            wf(*final(self)),
            roots_frame(*old(self), *final(self)),
            g.index == old(self).roots@.len(),
            final(self).roots@.len() == old(self).roots@.len() + 1,
            forall|r: int|
                0 <= r < old(self).roots@.len() ==> final(self).roots@[r] == old(self).roots@[r],
            final(self).roots@[g.index as int] is Container,
            entry_vals(final(self).roots@[g.index as int]) == Seq::<LispObj>::empty(),
    {
        let g = RootGuard { index: self.roots.len() };
        let ghost oldself = *self;
        let fresh: Vec<LispObj> = Vec::new();
        self.roots.push(RootEntry::Container(fresh));
        proof {
            assert(entry_vals(self.roots@[g.index as int]) =~= Seq::<LispObj>::empty());
            assert forall|w: LispObj| #[trigger] is_root_word(*self, w) implies val_ok(
                oldself.cells@,
                w,
            ) by {
                let r = choose|r: int|
                    0 <= r < self.roots@.len() && (#[trigger] entry_vals(self.roots@[r])).contains(
                        w,
                    );
                if exists|r: int|
                    0 <= r < self.roots@.len() && (#[trigger] entry_vals(self.roots@[r])).contains(
                        w,
                    ) {
                    if r < oldself.roots@.len() {
                        assert(is_root_word(oldself, w));
                    } else {
                        assert(entry_vals(self.roots@[r]) =~= Seq::<LispObj>::empty());
                    }
                } else {
                    assert(is_root_word(oldself, w));
                }
            }
            lemma_wf_roots_only(oldself, *self);
        }
        g
    }

    /// Release the top entry of the root set. Only the guard that was
    /// created for it can do so: roots leave in the reverse order of
    /// their arrival.
    pub fn pop_root(&mut self, g: RootGuard)
        requires
            wf(*old(self)),
            g.index as int + 1 == old(self).roots@.len(),
        ensures
            wf(*final(self)),
            roots_frame(*old(self), *final(self)),
            final(self).roots@ == old(self).roots@.drop_last(),
    {
        let ghost oldself = *self;
        let popped = self.roots.pop();
        proof {
            assert(self.roots@ =~= oldself.roots@.drop_last());
            assert forall|w: LispObj| #[trigger] is_root_word(*self, w) implies val_ok(
                oldself.cells@,
                w,
            ) by {
                lemma_root_word_shrunk(oldself, *self, w);
            }
            lemma_wf_roots_only(oldself, *self);
        }
    }

    /// Read the value a slot guard protects.
    pub fn root_value(&self, g: &RootGuard) -> (r: LispObj)
        requires
            wf(*self),
            g.index < self.roots@.len(),
            self.roots@[g.index as int] is Slot,
        ensures
            self.roots@[g.index as int] == RootEntry::Slot(r),
            val_ok(self.cells@, r),
            is_root_word(*self, r),
    {
        let r = match &self.roots[g.index] {
            RootEntry::Slot(v) => *v,
            RootEntry::Container(_) => unreached(),
        };
        proof {
            assert(entry_vals(self.roots@[g.index as int])[0] == r);
            assert(entry_vals(self.roots@[g.index as int]).contains(r));
            assert(is_root_word(*self, r));
        }
        r
    }

    /// Overwrite the value a slot guard protects. What it held before
    /// stays on the heap until the next collection.
    pub fn set_root(&mut self, g: &RootGuard, v: LispObj)
        requires
            wf(*old(self)),
            g.index < old(self).roots@.len(),
            old(self).roots@[g.index as int] is Slot,
            val_ok(old(self).cells@, v),
        ensures
            wf(*final(self)),
            roots_frame(*old(self), *final(self)),
            final(self).roots@ == old(self).roots@.update(g.index as int, RootEntry::Slot(v)),
    {
        let ghost oldself = *self;
        self.roots.set(g.index, RootEntry::Slot(v));
        proof {
            assert forall|w: LispObj| #[trigger] is_root_word(*self, w) implies val_ok(
                oldself.cells@,
                w,
            ) by {
                lemma_root_word_after_update(oldself, *self, g.index as int, w, v);
            }
            lemma_wf_roots_only(oldself, *self);
        }
    }

    /// Append a value to a rooted container.
    pub fn root_vec_push(&mut self, g: &RootGuard, v: LispObj)
        requires
            wf(*old(self)),
            g.index < old(self).roots@.len(),
            old(self).roots@[g.index as int] is Container,
            val_ok(old(self).cells@, v),
            entry_vals(old(self).roots@[g.index as int]).len() < usize::MAX,
        ensures
            wf(*final(self)),
            roots_frame(*old(self), *final(self)),
            final(self).roots@.len() == old(self).roots@.len(),
            forall|r: int|
                0 <= r < old(self).roots@.len() && r != g.index as int ==> final(self).roots@[r]
                    == old(self).roots@[r],
            entry_vals(final(self).roots@[g.index as int]) == entry_vals(
                old(self).roots@[g.index as int],
            ).push(v),
            final(self).roots@[g.index as int] is Container,
    {
        let ghost oldself = *self;
        let mut taken = RootEntry::Slot(LispObj::nil());
        self.roots.set_and_swap(g.index, &mut taken);
        let mut vs = match taken {
            RootEntry::Container(vs) => vs,
            RootEntry::Slot(_) => unreached(),
        };
        vs.push(v);
        self.roots.set(g.index, RootEntry::Container(vs));
        proof {
            assert(self.roots@ =~= oldself.roots@.update(
                g.index as int,
                self.roots@[g.index as int],
            ));
            assert(entry_vals(self.roots@[g.index as int]) =~= entry_vals(
                oldself.roots@[g.index as int],
            ).push(v));
            assert forall|k: int|
                0 <= k < entry_vals(self.roots@[g.index as int]).len() implies entry_vals(
                oldself.roots@[g.index as int],
            ).contains(#[trigger] entry_vals(self.roots@[g.index as int])[k]) || seq![v].contains(
                entry_vals(self.roots@[g.index as int])[k],
            ) by {
                let before = entry_vals(oldself.roots@[g.index as int]);
                if k < before.len() {
                    assert(entry_vals(self.roots@[g.index as int])[k] == before[k]);
                    assert(before.contains(before[k]));
                } else {
                    assert(seq![v][0] == v);
                }
            }
            assert forall|w: LispObj| #[trigger] is_root_word(*self, w) implies val_ok(
                oldself.cells@,
                w,
            ) by {
                lemma_root_word_after_vec_change(oldself, *self, g.index as int, w, seq![v]);
            }
            lemma_wf_roots_only(oldself, *self);
        }
    }

    /// Remove and return the last value of a rooted container, if any.
    pub fn root_vec_pop(&mut self, g: &RootGuard) -> (r: Option<LispObj>)
        requires
            wf(*old(self)),
            g.index < old(self).roots@.len(),
            old(self).roots@[g.index as int] is Container,
        ensures
            wf(*final(self)),
            roots_frame(*old(self), *final(self)),
            final(self).roots@.len() == old(self).roots@.len(),
            forall|r: int|
                0 <= r < old(self).roots@.len() && r != g.index as int ==> final(self).roots@[r]
                    == old(self).roots@[r],
            final(self).roots@[g.index as int] is Container,
            ({
                let before = entry_vals(old(self).roots@[g.index as int]);
                if before.len() > 0 {
                    r == Some(before[before.len() - 1]) && entry_vals(
                        final(self).roots@[g.index as int],
                    ) == before.drop_last()
                } else {
                    r is None && entry_vals(final(self).roots@[g.index as int]) == before
                }
            }),
    {
        let ghost oldself = *self;
        let mut taken = RootEntry::Slot(LispObj::nil());
        self.roots.set_and_swap(g.index, &mut taken);
        let mut vs = match taken {
            RootEntry::Container(vs) => vs,
            RootEntry::Slot(_) => unreached(),
        };
        let r = vs.pop();
        self.roots.set(g.index, RootEntry::Container(vs));
        proof {
            let before = entry_vals(oldself.roots@[g.index as int]);
            if before.len() > 0 {
                assert(entry_vals(self.roots@[g.index as int]) =~= before.drop_last());
            } else {
                assert(entry_vals(self.roots@[g.index as int]) =~= before);
            }
            assert forall|k: int|
                0 <= k < entry_vals(self.roots@[g.index as int]).len() implies entry_vals(
                oldself.roots@[g.index as int],
            ).contains(#[trigger] entry_vals(self.roots@[g.index as int])[k]) || Seq::<
                LispObj,
            >::empty().contains(entry_vals(self.roots@[g.index as int])[k]) by {
                let before = entry_vals(oldself.roots@[g.index as int]);
                let now = entry_vals(self.roots@[g.index as int]);
                assert(now[k] == before[k]);
                assert(before.contains(before[k]));
            }
            assert forall|w: LispObj| #[trigger] is_root_word(*self, w) implies val_ok(
                oldself.cells@,
                w,
            ) by {
                lemma_root_word_after_vec_change(oldself, *self, g.index as int, w, Seq::empty());
            }
            lemma_wf_roots_only(oldself, *self);
        }
        r
    }

    /// Drain the tail of a rooted container: every value from position
    /// `start` on is removed and handed back, in order, as an ordinary
    /// vector no longer visible to the collector.
    pub fn root_vec_drain(&mut self, g: &RootGuard, start: usize) -> (r: Vec<LispObj>)
        requires
            wf(*old(self)),
            g.index < old(self).roots@.len(),
            old(self).roots@[g.index as int] is Container,
            start <= entry_vals(old(self).roots@[g.index as int]).len(),
        ensures
            wf(*final(self)),
            roots_frame(*old(self), *final(self)),
            final(self).roots@.len() == old(self).roots@.len(),
            forall|r2: int|
                0 <= r2 < old(self).roots@.len() && r2 != g.index as int ==> final(self).roots@[r2]
                    == old(self).roots@[r2],
            final(self).roots@[g.index as int] is Container,
            ({
                let before = entry_vals(old(self).roots@[g.index as int]);
                entry_vals(final(self).roots@[g.index as int]) == before.subrange(0, start as int)
                    && r@ == before.subrange(start as int, before.len() as int)
            }),
    {
        let ghost oldself = *self;
        let mut taken = RootEntry::Slot(LispObj::nil());
        self.roots.set_and_swap(g.index, &mut taken);
        let mut vs = match taken {
            RootEntry::Container(vs) => vs,
            RootEntry::Slot(_) => unreached(),
        };
        let r = vs.split_off(start);
        self.roots.set(g.index, RootEntry::Container(vs));
        proof {
            assert forall|k: int|
                0 <= k < entry_vals(self.roots@[g.index as int]).len() implies entry_vals(
                oldself.roots@[g.index as int],
            ).contains(#[trigger] entry_vals(self.roots@[g.index as int])[k]) || Seq::<
                LispObj,
            >::empty().contains(entry_vals(self.roots@[g.index as int])[k]) by {
                let before = entry_vals(oldself.roots@[g.index as int]);
                let now = entry_vals(self.roots@[g.index as int]);
                assert(now[k] == before[k]);
                assert(before.contains(before[k]));
            }
            assert forall|w: LispObj| #[trigger] is_root_word(*self, w) implies val_ok(
                oldself.cells@,
                w,
            ) by {
                lemma_root_word_after_vec_change(oldself, *self, g.index as int, w, Seq::empty());
            }
            lemma_wf_roots_only(oldself, *self);
        }
        r
    }

    /// Shorten a rooted container to `len` values.
    pub fn root_vec_truncate(&mut self, g: &RootGuard, len: usize)
        requires
            wf(*old(self)),
            g.index < old(self).roots@.len(),
            old(self).roots@[g.index as int] is Container,
        ensures
            wf(*final(self)),
            roots_frame(*old(self), *final(self)),
            final(self).roots@.len() == old(self).roots@.len(),
            forall|r: int|
                0 <= r < old(self).roots@.len() && r != g.index as int ==> final(self).roots@[r]
                    == old(self).roots@[r],
            final(self).roots@[g.index as int] is Container,
            ({
                let before = entry_vals(old(self).roots@[g.index as int]);
                if len as int <= before.len() {
                    entry_vals(final(self).roots@[g.index as int]) == before.subrange(
                        0,
                        len as int,
                    )
                } else {
                    entry_vals(final(self).roots@[g.index as int]) == before
                }
            }),
    {
        let ghost oldself = *self;
        let mut taken = RootEntry::Slot(LispObj::nil());
        self.roots.set_and_swap(g.index, &mut taken);
        let mut vs = match taken {
            RootEntry::Container(vs) => vs,
            RootEntry::Slot(_) => unreached(),
        };
        vs.truncate(len);
        self.roots.set(g.index, RootEntry::Container(vs));
        proof {
            assert forall|k: int|
                0 <= k < entry_vals(self.roots@[g.index as int]).len() implies entry_vals(
                oldself.roots@[g.index as int],
            ).contains(#[trigger] entry_vals(self.roots@[g.index as int])[k]) || Seq::<
                LispObj,
            >::empty().contains(entry_vals(self.roots@[g.index as int])[k]) by {
                let before = entry_vals(oldself.roots@[g.index as int]);
                let now = entry_vals(self.roots@[g.index as int]);
                assert(now[k] == before[k]);
                assert(before.contains(before[k]));
            }
            assert forall|w: LispObj| #[trigger] is_root_word(*self, w) implies val_ok(
                oldself.cells@,
                w,
            ) by {
                lemma_root_word_after_vec_change(oldself, *self, g.index as int, w, Seq::empty());
            }
            lemma_wf_roots_only(oldself, *self);
        }
    }

    /// Empty a rooted container.
    pub fn root_vec_clear(&mut self, g: &RootGuard)
        requires
            wf(*old(self)),
            g.index < old(self).roots@.len(),
            old(self).roots@[g.index as int] is Container,
        ensures
            wf(*final(self)),
            roots_frame(*old(self), *final(self)),
            final(self).roots@.len() == old(self).roots@.len(),
            forall|r: int|
                0 <= r < old(self).roots@.len() && r != g.index as int ==> final(self).roots@[r]
                    == old(self).roots@[r],
            final(self).roots@[g.index as int] is Container,
            entry_vals(final(self).roots@[g.index as int]) == Seq::<LispObj>::empty(),
    {
        self.root_vec_truncate(g, 0);
        proof {
            assert(entry_vals(self.roots@[g.index as int]) =~= Seq::<LispObj>::empty());
        }
    }

    /// Swap-remove one value of a rooted container: the last value moves
    /// into the hole.
    pub fn root_vec_swap_remove(&mut self, g: &RootGuard, k: usize) -> (r: LispObj)
        requires
            wf(*old(self)),
            g.index < old(self).roots@.len(),
            old(self).roots@[g.index as int] is Container,
            k < entry_vals(old(self).roots@[g.index as int]).len(),
        ensures
            wf(*final(self)),
            roots_frame(*old(self), *final(self)),
            final(self).roots@.len() == old(self).roots@.len(),
            forall|r2: int|
                0 <= r2 < old(self).roots@.len() && r2 != g.index as int ==> final(self).roots@[r2]
                    == old(self).roots@[r2],
            final(self).roots@[g.index as int] is Container,
            ({
                let before = entry_vals(old(self).roots@[g.index as int]);
                r == before[k as int] && entry_vals(final(self).roots@[g.index as int])
                    == before.update(k as int, before[before.len() - 1]).drop_last()
            }),
    {
        let ghost oldself = *self;
        let mut taken = RootEntry::Slot(LispObj::nil());
        self.roots.set_and_swap(g.index, &mut taken);
        let mut vs = match taken {
            RootEntry::Container(vs) => vs,
            RootEntry::Slot(_) => unreached(),
        };
        let r = vs.swap_remove(k);
        self.roots.set(g.index, RootEntry::Container(vs));
        proof {
            assert forall|k2: int|
                0 <= k2 < entry_vals(self.roots@[g.index as int]).len() implies entry_vals(
                oldself.roots@[g.index as int],
            ).contains(#[trigger] entry_vals(self.roots@[g.index as int])[k2]) || Seq::<
                LispObj,
            >::empty().contains(entry_vals(self.roots@[g.index as int])[k2]) by {
                let before = entry_vals(oldself.roots@[g.index as int]);
                let now = entry_vals(self.roots@[g.index as int]);
                if k2 == k as int {
                    assert(now[k2] == before[before.len() - 1]);
                    assert(before.contains(before[before.len() - 1]));
                } else {
                    assert(now[k2] == before[k2]);
                    assert(before.contains(before[k2]));
                }
            }
            assert forall|w: LispObj| #[trigger] is_root_word(*self, w) implies val_ok(
                oldself.cells@,
                w,
            ) by {
                lemma_root_word_after_vec_change(oldself, *self, g.index as int, w, Seq::empty());
            }
            lemma_wf_roots_only(oldself, *self);
        }
        r
    }

    /// The number of values in a rooted container.
    pub fn root_vec_len(&self, g: &RootGuard) -> (r: usize)
        requires
            g.index < self.roots@.len(),
            self.roots@[g.index as int] is Container,
        ensures
            r == entry_vals(self.roots@[g.index as int]).len(),
    {
        match &self.roots[g.index] {
            RootEntry::Container(vs) => vs.len(),
            RootEntry::Slot(_) => unreached(),
        }
    }

    /// Read one value of a rooted container.
    pub fn root_vec_get(&self, g: &RootGuard, k: usize) -> (r: LispObj)
        requires
            wf(*self),
            g.index < self.roots@.len(),
            self.roots@[g.index as int] is Container,
            k < entry_vals(self.roots@[g.index as int]).len(),
        ensures
            r == entry_vals(self.roots@[g.index as int])[k as int],
            val_ok(self.cells@, r),
            is_root_word(*self, r),
    {
        let r = match &self.roots[g.index] {
            RootEntry::Container(vs) => vs[k],
            RootEntry::Slot(_) => unreached(),
        };
        proof {
            assert(entry_vals(self.roots@[g.index as int]).contains(r));
            assert(is_root_word(*self, r));
        }
        r
    }
}

/// A binding of the rooted association map: the key at an even
/// position, its value right after it.
pub open spec fn has_binding(vals: Seq<LispObj>, k: LispObj, v: LispObj) -> bool {
    exists|i: int|
        #![trigger vals[i]]
        0 <= i && i + 1 < vals.len() && i % 2 == 0 && vals[i] == k && vals[i + 1] == v
}

/// Is any value bound under `k`?
pub open spec fn has_key(vals: Seq<LispObj>, k: LispObj) -> bool {
    exists|i: int|
        #![trigger vals[i]]
        0 <= i && i + 1 < vals.len() && i % 2 == 0 && vals[i] == k
}

/// The container is a well-formed association map: keys and values
/// alternate and no key occurs twice.
pub open spec fn map_entry_wf(vals: Seq<LispObj>) -> bool {
    &&& vals.len() % 2 == 0
    &&& forall|i: int, j: int|
        #![trigger vals[i], vals[j]]
        0 <= i < j < vals.len() && i % 2 == 0 && j % 2 == 0 ==> vals[i] != vals[j]
}

/// The even position of `key` in an association vector, if any.
fn map_find(vs: &Vec<LispObj>, key: LispObj) -> (r: Option<usize>)
    requires
        vs@.len() % 2 == 0,
    ensures
        match r {
            Some(p) => p % 2 == 0 && p + 1 < vs@.len() && vs@[p as int] == key,
            None => !has_key(vs@, key),
        },
{
    let n = vs.len();
    let mut p: usize = 0;
    while p < n
        invariant
            p <= n,
            p % 2 == 0,
            n % 2 == 0,
            n == vs@.len(),
            forall|m: int| #![trigger vs@[m]] 0 <= m < p as int && m % 2 == 0 ==> vs@[m] != key,
        decreases n - p,
    {
        if vs[p] == key {
            return Some(p);
        }
        p = p + 2;
    }
    None
}

impl Context {
    /// Root an empty association map: a rooted container read and
    /// written two values at a time, one binding each.
    pub fn push_root_map(&mut self) -> (g: RootGuard)
        requires
            wf(*old(self)),
            old(self).roots@.len() < usize::MAX,
        ensures
            wf(*final(self)),
            roots_frame(*old(self), *final(self)),
            g.index == old(self).roots@.len(),
            final(self).roots@.len() == old(self).roots@.len() + 1,
            forall|r: int|
                0 <= r < old(self).roots@.len() ==> final(self).roots@[r] == old(self).roots@[r],
            final(self).roots@[g.index as int] is Container,
            entry_vals(final(self).roots@[g.index as int]) == Seq::<LispObj>::empty(),
            map_entry_wf(entry_vals(final(self).roots@[g.index as int])),
    {
        let g = self.push_root_vec();
        g
    }

    /// The value bound under `key` in a rooted map, if any.
    pub fn root_map_get(&self, g: &RootGuard, key: LispObj) -> (r: Option<LispObj>)
        requires
            wf(*self),
            g.index < self.roots@.len(),
            self.roots@[g.index as int] is Container,
            entry_vals(self.roots@[g.index as int]).len() % 2 == 0,
        ensures
            ({
                let vals = entry_vals(self.roots@[g.index as int]);
                match r {
                    Some(v) => has_binding(vals, key, v) && val_ok(self.cells@, v),
                    None => !has_key(vals, key),
                }
            }),
    {
        let found = match &self.roots[g.index] {
            RootEntry::Container(vs) => map_find(vs, key),
            RootEntry::Slot(_) => unreached(),
        };
        match found {
            Some(p) => {
                let v = match &self.roots[g.index] {
                    RootEntry::Container(vs) => vs[p + 1],
                    RootEntry::Slot(_) => unreached(),
                };
                proof {
                    let vals = entry_vals(self.roots@[g.index as int]);
                    assert(vals[p as int] == key && vals[p as int + 1] == v);
                    assert(vals.contains(v));
                    assert(is_root_word(*self, v));
                }
                Some(v)
            },
            None => None,
        }
    }

    /// Bind `value` under `key` in a rooted map: an existing binding is
    /// overwritten, a new key appended. Every other binding stays.
    pub fn root_map_insert(&mut self, g: &RootGuard, key: LispObj, value: LispObj)
        requires
            wf(*old(self)),
            g.index < old(self).roots@.len(),
            old(self).roots@[g.index as int] is Container,
            map_entry_wf(entry_vals(old(self).roots@[g.index as int])),
            val_ok(old(self).cells@, key),
            val_ok(old(self).cells@, value),
            entry_vals(old(self).roots@[g.index as int]).len() + 2 <= usize::MAX,
        ensures
            wf(*final(self)),
            roots_frame(*old(self), *final(self)),
            final(self).roots@.len() == old(self).roots@.len(),
            forall|r2: int|
                0 <= r2 < old(self).roots@.len() && r2 != g.index as int ==> final(self).roots@[r2]
                    == old(self).roots@[r2],
            final(self).roots@[g.index as int] is Container,
            map_entry_wf(entry_vals(final(self).roots@[g.index as int])),
            has_binding(entry_vals(final(self).roots@[g.index as int]), key, value),
            forall|k2: LispObj, w: LispObj|
                #![trigger has_binding(entry_vals(final(self).roots@[g.index as int]), k2, w)]
                #![trigger has_binding(entry_vals(old(self).roots@[g.index as int]), k2, w)]
                k2 != key ==> (has_binding(entry_vals(final(self).roots@[g.index as int]), k2, w)
                    <==> has_binding(entry_vals(old(self).roots@[g.index as int]), k2, w)),
    {
        let ghost oldself = *self;
        let ghost before = entry_vals(oldself.roots@[g.index as int]);
        let mut taken = RootEntry::Slot(LispObj::nil());
        self.roots.set_and_swap(g.index, &mut taken);
        let mut vs = match taken {
            RootEntry::Container(vs) => vs,
            RootEntry::Slot(_) => unreached(),
        };
        let found = map_find(&vs, key);
        match found {
            Some(p) => {
                vs.set(p + 1, value);
            },
            None => {
                vs.push(key);
                vs.push(value);
            },
        }
        self.roots.set(g.index, RootEntry::Container(vs));
        proof {
            let now = entry_vals(self.roots@[g.index as int]);
            assert(has_binding(now, key, value)) by {
                match found {
                    Some(p) => {
                        assert(now[p as int] == key);
                        assert(now[p as int + 1] == value);
                    },
                    None => {
                        assert(now[now.len() - 2] == key && now[now.len() - 1] == value);
                        assert((now.len() - 2) % 2 == 0);
                    },
                }
            }
            assert(map_entry_wf(now)) by {
                assert forall|i: int, j: int|
                    #![trigger now[i], now[j]]
                    0 <= i < j < now.len() && i % 2 == 0 && j % 2 == 0 implies now[i] != now[j] by {
                    if j < before.len() {
                        assert(now[i] == before[i] && now[j] == before[j]);
                    } else {
                        assert(now[j] == key);
                        assert(now[i] == before[i]);
                        assert(!has_key(before, key));
                    }
                }
            }
            assert forall|k2: LispObj, w: LispObj|
                #![trigger has_binding(now, k2, w)]
                #![trigger has_binding(before, k2, w)]
                k2 != key implies (has_binding(now, k2, w) <==> has_binding(before, k2, w)) by {
                if has_binding(now, k2, w) {
                    let i = choose|i: int|
                        #![trigger now[i]]
                        0 <= i && i + 1 < now.len() && i % 2 == 0 && now[i] == k2 && now[i + 1]
                            == w;
                    assert(before[i] == k2 && before[i + 1] == w);
                    assert(has_binding(before, k2, w));
                }
                if has_binding(before, k2, w) {
                    let i = choose|i: int|
                        #![trigger before[i]]
                        0 <= i && i + 1 < before.len() && i % 2 == 0 && before[i] == k2 && before[i
                            + 1] == w;
                    assert(now[i] == k2 && now[i + 1] == w);
                    assert(has_binding(now, k2, w));
                }
            }
            assert forall|k: int|
                0 <= k < now.len() implies before.contains(#[trigger] now[k]) || seq![
                key,
                value,
            ].contains(now[k]) by {
                if k < before.len() {
                    if before.len() < now.len() || !(k % 2 == 1 && now[k] == value) {
                        if now[k] == before[k] {
                            assert(before.contains(before[k]));
                        } else {
                            assert(seq![key, value][1] == value);
                        }
                    } else {
                        assert(seq![key, value][1] == value);
                    }
                } else if k == before.len() as int {
                    assert(seq![key, value][0] == key);
                } else {
                    assert(seq![key, value][1] == value);
                }
            }
            assert forall|w2: LispObj| #[trigger] is_root_word(*self, w2) implies val_ok(
                oldself.cells@,
                w2,
            ) by {
                lemma_root_word_after_vec_change(
                    oldself,
                    *self,
                    g.index as int,
                    w2,
                    seq![key, value],
                );
            }
            lemma_wf_roots_only(oldself, *self);
        }
    }

    /// Drop the binding under `key` from a rooted map, if there is one;
    /// the last binding moves into the hole. Every other binding stays.
    pub fn root_map_remove(&mut self, g: &RootGuard, key: LispObj)
        requires
            wf(*old(self)),
            g.index < old(self).roots@.len(),
            old(self).roots@[g.index as int] is Container,
            map_entry_wf(entry_vals(old(self).roots@[g.index as int])),
        ensures
            wf(*final(self)),
            roots_frame(*old(self), *final(self)),
            final(self).roots@.len() == old(self).roots@.len(),
            forall|r2: int|
                0 <= r2 < old(self).roots@.len() && r2 != g.index as int ==> final(self).roots@[r2]
                    == old(self).roots@[r2],
            final(self).roots@[g.index as int] is Container,
            map_entry_wf(entry_vals(final(self).roots@[g.index as int])),
            !has_key(entry_vals(final(self).roots@[g.index as int]), key),
            forall|k2: LispObj, w: LispObj|
                #![trigger has_binding(entry_vals(final(self).roots@[g.index as int]), k2, w)]
                #![trigger has_binding(entry_vals(old(self).roots@[g.index as int]), k2, w)]
                k2 != key ==> (has_binding(entry_vals(final(self).roots@[g.index as int]), k2, w)
                    <==> has_binding(entry_vals(old(self).roots@[g.index as int]), k2, w)),
    {
        let ghost oldself = *self;
        let ghost before = entry_vals(oldself.roots@[g.index as int]);
        let mut taken = RootEntry::Slot(LispObj::nil());
        self.roots.set_and_swap(g.index, &mut taken);
        let mut vs = match taken {
            RootEntry::Container(vs) => vs,
            RootEntry::Slot(_) => unreached(),
        };
        let found = map_find(&vs, key);
        match found {
            Some(p) => {
                let n = vs.len();
                let last_key = vs[n - 2];
                let last_value = vs[n - 1];
                vs.set(p, last_key);
                vs.set(p + 1, last_value);
                vs.truncate(n - 2);
            },
            None => {},
        }
        self.roots.set(g.index, RootEntry::Container(vs));
        proof {
            let now = entry_vals(self.roots@[g.index as int]);
            match found {
                None => {
                    assert(now == before);
                    assert forall|k2: LispObj, w: LispObj|
                        #![trigger has_binding(now, k2, w)]
                        #![trigger has_binding(before, k2, w)]
                        k2 != key implies (has_binding(now, k2, w) <==> has_binding(
                        before,
                        k2,
                        w,
                    )) by {}
                },
                Some(pe) => {
                    let p = pe as int;
                    let n0 = before.len() as int;
                    assert(now.len() == n0 - 2);
                    assert(forall|k: int|
                        0 <= k < now.len() && k != p && k != p + 1 ==> #[trigger] now[k]
                            == before[k]);
                    assert(p + 1 < now.len() ==> now[p] == before[n0 - 2] && now[p + 1]
                        == before[n0 - 1]);
                    assert(!has_key(now, key)) by {
                        if has_key(now, key) {
                            let i = choose|i: int|
                                #![trigger now[i]]
                                0 <= i && i + 1 < now.len() && i % 2 == 0 && now[i] == key;
                            if i == p {
                                assert(now[i] == before[n0 - 2]);
                                assert(before[n0 - 2] != key);
                            } else {
                                assert(now[i] == before[i]);
                                assert(before[i] != key);
                            }
                        }
                    }
                    assert(map_entry_wf(now)) by {
                        assert forall|i: int, j: int|
                            #![trigger now[i], now[j]]
                            0 <= i < j < now.len() && i % 2 == 0 && j % 2 == 0 implies now[i]
                            != now[j] by {
                            assert(now[i] == before[i] || now[i] == before[n0 - 2]);
                            assert(now[j] == before[j] || now[j] == before[n0 - 2]);
                        }
                    }
                    assert forall|k2: LispObj, w: LispObj|
                        #![trigger has_binding(now, k2, w)]
                        #![trigger has_binding(before, k2, w)]
                        k2 != key implies (has_binding(now, k2, w) <==> has_binding(
                        before,
                        k2,
                        w,
                    )) by {
                        if has_binding(now, k2, w) {
                            let i = choose|i: int|
                                #![trigger now[i]]
                                0 <= i && i + 1 < now.len() && i % 2 == 0 && now[i] == k2 && now[i
                                    + 1] == w;
                            if i == p {
                                assert(now[i] == before[n0 - 2] && now[i + 1] == before[n0 - 1]);
                                assert((n0 - 2) % 2 == 0);
                                assert(has_binding(before, k2, w));
                            } else {
                                assert(now[i] == before[i] && now[i + 1] == before[i + 1]);
                                assert(has_binding(before, k2, w));
                            }
                        }
                        if has_binding(before, k2, w) {
                            let i = choose|i: int|
                                #![trigger before[i]]
                                0 <= i && i + 1 < before.len() && i % 2 == 0 && before[i] == k2
                                    && before[i + 1] == w;
                            assert(i != p) by {
                                if i == p {
                                    assert(before[i] == key);
                                }
                            }
                            if i < now.len() {
                                assert(now[i] == before[i] && now[i + 1] == before[i + 1]);
                                assert(has_binding(now, k2, w));
                            } else {
                                assert(i == n0 - 2);
                                assert(p + 1 < now.len());
                                assert(now[p] == before[i] && now[p + 1] == before[i + 1]);
                                assert(has_binding(now, k2, w));
                            }
                        }
                    }
                },
            }
            assert forall|k: int|
                0 <= k < now.len() implies before.contains(#[trigger] now[k]) || Seq::<
                LispObj,
            >::empty().contains(now[k]) by {
                assert(now[k] == before[k] || now[k] == before[before.len() - 2] || now[k]
                    == before[before.len() - 1]);
            }
            assert forall|w2: LispObj| #[trigger] is_root_word(*self, w2) implies val_ok(
                oldself.cells@,
                w2,
            ) by {
                lemma_root_word_after_vec_change(oldself, *self, g.index as int, w2, Seq::empty());
            }
            lemma_wf_roots_only(oldself, *self);
        }
    }
}

/// After one root entry is replaced by a slot holding `v`, every root
/// word is either `v` or an old root word.
proof fn lemma_root_word_after_update(o: Context, n: Context, idx: int, w: LispObj, v: LispObj)
    requires
        wf(o),
        n.interned == o.interned,
        n.cells == o.cells,
        0 <= idx <= o.roots@.len(),
        n.roots@.len() == if idx == o.roots@.len() {
            o.roots@.len() + 1
        } else {
            o.roots@.len()
        },
        forall|r: int| 0 <= r < o.roots@.len() && r != idx ==> #[trigger] n.roots@[r] == o.roots@[r],
        idx < n.roots@.len() && n.roots@[idx] == RootEntry::Slot(v),
        val_ok(o.cells@, v),
        is_root_word(n, w),
    ensures
        val_ok(o.cells@, w),
{
    if exists|r: int|
        0 <= r < n.roots@.len() && (#[trigger] entry_vals(n.roots@[r])).contains(w) {
        let r = choose|r: int|
            0 <= r < n.roots@.len() && (#[trigger] entry_vals(n.roots@[r])).contains(w);
        if r == idx {
            assert(entry_vals(n.roots@[r]) =~= seq![v]);
            assert(w == v);
        } else {
            assert(n.roots@[r] == o.roots@[r]);
            assert(is_root_word(o, w));
        }
    } else {
        assert(is_root_word(o, w));
    }
}

/// After one rooted container changes, every root word is an old root
/// word or one of the newly pushed values.
proof fn lemma_root_word_after_vec_change(
    o: Context,
    n: Context,
    idx: int,
    w: LispObj,
    added: Seq<LispObj>,
)
    requires
        wf(o),
        n.interned == o.interned,
        n.cells == o.cells,
        0 <= idx < o.roots@.len(),
        n.roots@.len() == o.roots@.len(),
        forall|r: int| 0 <= r < o.roots@.len() && r != idx ==> #[trigger] n.roots@[r] == o.roots@[r],
        forall|k: int|
            0 <= k < entry_vals(n.roots@[idx]).len() ==> entry_vals(o.roots@[idx]).contains(
                #[trigger] entry_vals(n.roots@[idx])[k],
            ) || added.contains(entry_vals(n.roots@[idx])[k]),
        forall|k: int| 0 <= k < added.len() ==> val_ok(o.cells@, #[trigger] added[k]),
        is_root_word(n, w),
    ensures
        val_ok(o.cells@, w),
{
    if exists|r: int|
        0 <= r < n.roots@.len() && (#[trigger] entry_vals(n.roots@[r])).contains(w) {
        let r = choose|r: int|
            0 <= r < n.roots@.len() && (#[trigger] entry_vals(n.roots@[r])).contains(w);
        if r == idx {
            let k = choose|k: int|
                0 <= k < entry_vals(n.roots@[idx]).len() && entry_vals(n.roots@[idx])[k] == w;
            if entry_vals(o.roots@[idx]).contains(w) {
                assert(is_root_word(o, w));
            } else {
                assert(added.contains(w));
                let m = choose|m: int| 0 <= m < added.len() && added[m] == w;
            }
        } else {
            assert(n.roots@[r] == o.roots@[r]);
            assert(is_root_word(o, w));
        }
    } else {
        assert(is_root_word(o, w));
    }
}

/// After entries or values are only removed, every root word was a root
/// word before.
proof fn lemma_root_word_shrunk(o: Context, n: Context, w: LispObj)
    requires
        n.interned == o.interned,
        n.roots@.len() <= o.roots@.len(),
        forall|r: int| 0 <= r < n.roots@.len() ==> #[trigger] n.roots@[r] == o.roots@[r],
        is_root_word(n, w),
        wf(o),
    ensures
        val_ok(o.cells@, w),
{
    assert(is_root_word(o, w));
}

} // verus!
