//! The gap buffer behind a buffer cell.
//!
//! The storage holds the text before the gap, the gap itself, and the
//! text after the gap. Insertions fill the gap at `gap_start`; when the
//! gap is too small the storage is rebuilt with a fresh gap after the
//! inserted text. Both text halves are well-formed UTF-8 throughout.

use vstd::pervasive::VecAdditionalExecFns;
use vstd::prelude::*;
use vstd::string::StringSliceAdditionalSpecFns;
use vstd::utf8::{encode_utf8, is_char_boundary, valid_utf8};

verus! {

/// The unused space a fresh or regrown gap provides.
pub const GAP_SIZE: usize = 5;

pub struct Buffer {
    pub storage: Vec<u8>,
    pub gap_start: usize,
    pub gap_end: usize,
}

/// The text before the gap.
pub open spec fn pre_text(b: Buffer) -> Seq<u8> {
    b.storage@.subrange(0, b.gap_start as int)
}

/// The text after the gap.
pub open spec fn post_text(b: Buffer) -> Seq<u8> {
    b.storage@.subrange(b.gap_end as int, b.storage@.len() as int)
}

/// The gap lies inside the storage and both halves are UTF-8.
pub open spec fn buf_wf(b: Buffer) -> bool {
    &&& b.gap_start <= b.gap_end <= b.storage@.len()
    &&& valid_utf8(pre_text(b))
    &&& valid_utf8(post_text(b))
}

/// The byte position `delete(size)` cuts back to.
pub open spec fn del_point(b: Buffer, size: usize) -> int {
    if size > b.gap_start {
        0
    } else {
        b.gap_start - size
    }
}

/// The UTF-8 encoding of one character, as a fresh byte vector.
fn encode_char(c: char) -> (r: Vec<u8>)
    ensures
        r@ == encode_utf8(seq![c]),
        valid_utf8(r@),
        r@.len() <= 4,
{
    let u = c as u32;
    let mut r: Vec<u8> = Vec::new();
    proof {
        vstd::utf8::char_is_scalar(c);
    }
    if u < 0x80 {
        r.push((u & 0x7F) as u8);
    } else if u < 0x800 {
        r.push(0xC0 | ((u >> 6) & 0x1F) as u8);
        r.push(0x80 | (u & 0x3F) as u8);
    } else if u < 0x10000 {
        r.push(0xE0 | ((u >> 12) & 0x0F) as u8);
        r.push(0x80 | ((u >> 6) & 0x3F) as u8);
        r.push(0x80 | (u & 0x3F) as u8);
    } else {
        r.push(0xF0 | ((u >> 18) & 0x7) as u8);
        r.push(0x80 | ((u >> 12) & 0x3F) as u8);
        r.push(0x80 | ((u >> 6) & 0x3F) as u8);
        r.push(0x80 | (u & 0x3F) as u8);
    }
    proof {
        assert(encode_utf8(seq![c]) =~= vstd::utf8::encode_scalar(c as u32) + encode_utf8(
            Seq::<char>::empty(),
        )) by {
            assert(seq![c].drop_first() =~= Seq::<char>::empty());
        }
        assert(encode_utf8(Seq::<char>::empty()) =~= Seq::<u8>::empty());
        assert(r@ =~= vstd::utf8::encode_scalar(c as u32));
        vstd::utf8::encode_utf8_valid_utf8(seq![c]);
    }
    r
}

impl Buffer {
    /// A buffer holding `data`, with the gap, of `GAP_SIZE` bytes, in
    /// front of it.
    pub fn new(data: &str) -> (r: Buffer)
        ensures
            buf_wf(r),
            r.gap_start == 0,
            r.gap_end == GAP_SIZE,
            pre_text(r) == Seq::<u8>::empty(),
            post_text(r) == data.spec_bytes(),
            r.storage@.len() == data.spec_bytes().len() + GAP_SIZE,
    {
        let bytes = data.as_bytes();
        let mut storage: Vec<u8> = Vec::new();
        let mut k: usize = 0;
        while k < GAP_SIZE
            invariant
                k <= GAP_SIZE,
                storage@.len() == k as int,
                forall|m: int| 0 <= m < storage@.len() ==> storage@[m] == 0u8,
            decreases GAP_SIZE - k,
        {
            storage.push(0);
            k = k + 1;
        }
        let mut j: usize = 0;
        while j < bytes.len()
            invariant
                j <= bytes@.len(),
                storage@.len() == GAP_SIZE + j as int,
                storage@.subrange(GAP_SIZE as int, storage@.len() as int) == bytes@.subrange(
                    0,
                    j as int,
                ),
            decreases bytes@.len() - j,
        {
            storage.push(bytes[j]);
            j = j + 1;
            proof {
                assert(storage@.subrange(GAP_SIZE as int, storage@.len() as int) =~= bytes@.subrange(
                    0,
                    j as int,
                ));
            }
        }
        let r = Buffer { storage, gap_start: 0, gap_end: GAP_SIZE };
        proof {
            assert(bytes@.subrange(0, bytes@.len() as int) =~= bytes@);
            assert(pre_text(r) =~= Seq::<u8>::empty());
            assert(post_text(r) =~= data.spec_bytes());
            assert(valid_utf8(Seq::<u8>::empty()));
            vstd::utf8::encode_utf8_valid_utf8(data@);
        }
        r
    }

    /// Rebuild the storage with `slice` inserted at the gap and a fresh
    /// gap after it.
    pub fn grow(&mut self, slice: &str)
        requires
            buf_wf(*old(self)),
        ensures
            buf_wf(*final(self)),
            pre_text(*final(self)) == pre_text(*old(self)) + slice.spec_bytes(),
            post_text(*final(self)) == post_text(*old(self)),
            final(self).gap_start as int == old(self).gap_start + slice.spec_bytes().len(),
            final(self).gap_end as int == final(self).gap_start + GAP_SIZE,
            final(self).storage@.len() == pre_text(*old(self)).len() + slice.spec_bytes().len()
                + GAP_SIZE + post_text(*old(self)).len(),
    {
        let ghost o = *self;
        let bytes = slice.as_bytes();
        let mut buffer: Vec<u8> = Vec::new();
        // text before the gap
        let mut k: usize = 0;
        while k < self.gap_start
            invariant
                *self == o,
                buf_wf(o),
                k <= o.gap_start,
                buffer@ == o.storage@.subrange(0, k as int),
            decreases self.gap_start - k,
        {
            buffer.push(self.storage[k]);
            k = k + 1;
            proof {
                assert(buffer@ =~= o.storage@.subrange(0, k as int));
            }
        }
        // the new text
        let mut j: usize = 0;
        while j < bytes.len()
            invariant
                *self == o,
                buf_wf(o),
                j <= bytes@.len(),
                buffer@ == pre_text(o) + bytes@.subrange(0, j as int),
            decreases bytes@.len() - j,
        {
            buffer.push(bytes[j]);
            j = j + 1;
            proof {
                assert(buffer@ =~= pre_text(o) + bytes@.subrange(0, j as int));
            }
        }
        proof {
            assert(bytes@.subrange(0, bytes@.len() as int) =~= bytes@);
        }
        let new_gap_start = buffer.len();
        // the fresh gap
        let mut g: usize = 0;
        while g < GAP_SIZE
            invariant
                *self == o,
                buf_wf(o),
                g <= GAP_SIZE,
                buffer@.len() == new_gap_start + g as int,
                buffer@.subrange(0, new_gap_start as int) == pre_text(o) + bytes@,
            decreases GAP_SIZE - g,
        {
            buffer.push(0);
            g = g + 1;
            proof {
                assert(buffer@.subrange(0, new_gap_start as int) =~= pre_text(o) + bytes@);
            }
        }
        let new_gap_end = buffer.len();
        // text after the gap
        let mut p: usize = self.gap_end;
        while p < self.storage.len()
            invariant
                *self == o,
                buf_wf(o),
                o.gap_end <= p <= o.storage@.len(),
                buffer@.len() == new_gap_end + (p - o.gap_end),
                buffer@.subrange(0, new_gap_start as int) == pre_text(o) + bytes@,
                buffer@.subrange(new_gap_end as int, buffer@.len() as int) == o.storage@.subrange(
                    o.gap_end as int,
                    p as int,
                ),
                new_gap_end == new_gap_start + GAP_SIZE,
            decreases self.storage@.len() - p,
        {
            buffer.push(self.storage[p]);
            p = p + 1;
            proof {
                assert(buffer@.subrange(0, new_gap_start as int) =~= pre_text(o) + bytes@);
                assert(buffer@.subrange(new_gap_end as int, buffer@.len() as int)
                    =~= o.storage@.subrange(o.gap_end as int, p as int));
            }
        }
        self.storage = buffer;
        self.gap_start = new_gap_start;
        self.gap_end = new_gap_end;
        proof {
            assert(pre_text(*self) =~= pre_text(o) + slice.spec_bytes());
            assert(post_text(*self) =~= post_text(o)) by {
                assert(o.storage@.subrange(o.gap_end as int, o.storage@.len() as int)
                    =~= post_text(o));
            }
            vstd::utf8::encode_utf8_valid_utf8(slice@);
            vstd::utf8::valid_utf8_concat(pre_text(o), slice.spec_bytes());
        }
    }

    /// Insert raw UTF-8 bytes at the gap, growing when they do not fit.
    fn insert_bytes(&mut self, bytes: &Vec<u8>, ghost_src: Ghost<Seq<char>>)
        requires
            buf_wf(*old(self)),
            bytes@ == encode_utf8(ghost_src@),
        ensures
            buf_wf(*final(self)),
            pre_text(*final(self)) == pre_text(*old(self)) + bytes@,
            post_text(*final(self)) == post_text(*old(self)),
            final(self).gap_start as int == old(self).gap_start + bytes@.len(),
            old(self).gap_end - old(self).gap_start >= bytes@.len() ==> final(self).storage@.len()
                == old(self).storage@.len() && final(self).gap_end == old(self).gap_end,
            old(self).gap_end - old(self).gap_start < bytes@.len() ==> final(self).storage@.len()
                == old(self).gap_start + bytes@.len() + GAP_SIZE + (old(self).storage@.len() - old(
                self,
            ).gap_end) && final(self).gap_end as int == final(self).gap_start + GAP_SIZE,
    {
        let ghost o = *self;
        if self.gap_end - self.gap_start < bytes.len() {
            self.grow_bytes(bytes, ghost_src);
        } else {
            let mut j: usize = 0;
            while j < bytes.len()
                invariant
                    buf_wf(o),
                    o.gap_end - o.gap_start >= bytes@.len(),
                    j <= bytes@.len(),
                    self.gap_start == o.gap_start,
                    self.gap_end == o.gap_end,
                    self.storage@.len() == o.storage@.len(),
                    forall|m: int|
                        0 <= m < o.storage@.len() && !(o.gap_start <= m < o.gap_start + j as int)
                            ==> self.storage@[m] == o.storage@[m],
                    forall|m: int|
                        0 <= m < j as int ==> self.storage@[o.gap_start + m] == bytes@[m],
                decreases bytes@.len() - j,
            {
                self.storage.set(self.gap_start + j, bytes[j]);
                j = j + 1;
            }
            self.gap_start = self.gap_start + bytes.len();
            proof {
                assert(pre_text(*self) =~= pre_text(o) + bytes@);
                assert(post_text(*self) =~= post_text(o));
                assert(valid_utf8(bytes@)) by {
                    vstd::utf8::encode_utf8_valid_utf8(ghost_src@);
                }
                vstd::utf8::valid_utf8_concat(pre_text(o), bytes@);
            }
        }
    }

    /// `grow`, but from a byte vector already known to encode `ghost_src`.
    fn grow_bytes(&mut self, bytes: &Vec<u8>, ghost_src: Ghost<Seq<char>>)
        requires
            buf_wf(*old(self)),
            bytes@ == encode_utf8(ghost_src@),
        ensures
            buf_wf(*final(self)),
            pre_text(*final(self)) == pre_text(*old(self)) + bytes@,
            post_text(*final(self)) == post_text(*old(self)),
            final(self).gap_start as int == old(self).gap_start + bytes@.len(),
            final(self).gap_end as int == final(self).gap_start + GAP_SIZE,
            final(self).storage@.len() == old(self).gap_start + bytes@.len() + GAP_SIZE + (old(
                self,
            ).storage@.len() - old(self).gap_end),
    {
        let ghost o = *self;
        let mut buffer: Vec<u8> = Vec::new();
        let mut k: usize = 0;
        while k < self.gap_start
            invariant
                *self == o,
                buf_wf(o),
                k <= o.gap_start,
                buffer@ == o.storage@.subrange(0, k as int),
            decreases self.gap_start - k,
        {
            buffer.push(self.storage[k]);
            k = k + 1;
            proof {
                assert(buffer@ =~= o.storage@.subrange(0, k as int));
            }
        }
        let mut j: usize = 0;
        while j < bytes.len()
            invariant
                *self == o,
                buf_wf(o),
                j <= bytes@.len(),
                buffer@ == pre_text(o) + bytes@.subrange(0, j as int),
            decreases bytes@.len() - j,
        {
            buffer.push(bytes[j]);
            j = j + 1;
            proof {
                assert(buffer@ =~= pre_text(o) + bytes@.subrange(0, j as int));
            }
        }
        proof {
            assert(bytes@.subrange(0, bytes@.len() as int) =~= bytes@);
        }
        let new_gap_start = buffer.len();
        let mut g: usize = 0;
        while g < GAP_SIZE
            invariant
                *self == o,
                buf_wf(o),
                g <= GAP_SIZE,
                buffer@.len() == new_gap_start + g as int,
                buffer@.subrange(0, new_gap_start as int) == pre_text(o) + bytes@,
            decreases GAP_SIZE - g,
        {
            buffer.push(0);
            g = g + 1;
            proof {
                assert(buffer@.subrange(0, new_gap_start as int) =~= pre_text(o) + bytes@);
            }
        }
        let new_gap_end = buffer.len();
        let mut p: usize = self.gap_end;
        while p < self.storage.len()
            invariant
                *self == o,
                buf_wf(o),
                o.gap_end <= p <= o.storage@.len(),
                buffer@.len() == new_gap_end + (p - o.gap_end),
                buffer@.subrange(0, new_gap_start as int) == pre_text(o) + bytes@,
                buffer@.subrange(new_gap_end as int, buffer@.len() as int) == o.storage@.subrange(
                    o.gap_end as int,
                    p as int,
                ),
                new_gap_end == new_gap_start + GAP_SIZE,
            decreases self.storage@.len() - p,
        {
            buffer.push(self.storage[p]);
            p = p + 1;
            proof {
                assert(buffer@.subrange(0, new_gap_start as int) =~= pre_text(o) + bytes@);
                assert(buffer@.subrange(new_gap_end as int, buffer@.len() as int)
                    =~= o.storage@.subrange(o.gap_end as int, p as int));
            }
        }
        self.storage = buffer;
        self.gap_start = new_gap_start;
        self.gap_end = new_gap_end;
        proof {
            assert(pre_text(*self) =~= pre_text(o) + bytes@);
            assert(post_text(*self) =~= post_text(o)) by {
                assert(o.storage@.subrange(o.gap_end as int, o.storage@.len() as int)
                    =~= post_text(o));
            }
            assert(valid_utf8(bytes@)) by {
                vstd::utf8::encode_utf8_valid_utf8(ghost_src@);
            }
            vstd::utf8::valid_utf8_concat(pre_text(o), bytes@);
        }
    }

    /// Insert one character at the gap.
    pub fn insert_char(&mut self, chr: char)
        requires
            buf_wf(*old(self)),
        ensures
            buf_wf(*final(self)),
            pre_text(*final(self)) == pre_text(*old(self)) + encode_utf8(seq![chr]),
            post_text(*final(self)) == post_text(*old(self)),
            final(self).gap_start as int == old(self).gap_start + encode_utf8(seq![chr]).len(),
            old(self).gap_end - old(self).gap_start >= encode_utf8(seq![chr]).len() ==> final(self).storage@.len() == old(self).storage@.len() && final(self).gap_end == old(self).gap_end,
            old(self).gap_end - old(self).gap_start < encode_utf8(seq![chr]).len() ==> final(self).storage@.len() == old(self).gap_start + encode_utf8(seq![chr]).len() + GAP_SIZE + (
            old(self).storage@.len() - old(self).gap_end) && final(self).gap_end as int == final(self).gap_start + GAP_SIZE,
    {
        let bytes = encode_char(chr);
        let ghost src: Seq<char> = seq![chr];
        self.insert_bytes(&bytes, Ghost(src));
    }

    /// Insert a string at the gap, growing when it does not fit.
    pub fn insert_string(&mut self, slice: &str)
        requires
            buf_wf(*old(self)),
        ensures
            buf_wf(*final(self)),
            pre_text(*final(self)) == pre_text(*old(self)) + slice.spec_bytes(),
            post_text(*final(self)) == post_text(*old(self)),
            final(self).gap_start as int == old(self).gap_start + slice.spec_bytes().len(),
            old(self).gap_end - old(self).gap_start >= slice.spec_bytes().len() ==> final(self).storage@.len() == old(self).storage@.len() && final(self).gap_end == old(self).gap_end,
            old(self).gap_end - old(self).gap_start < slice.spec_bytes().len() ==> final(self).storage@.len() == old(self).gap_start + slice.spec_bytes().len() + GAP_SIZE + (
            old(self).storage@.len() - old(self).gap_end) && final(self).gap_end as int == final(self).gap_start + GAP_SIZE,
    {
        let ghost o = *self;
        let bytes = slice.as_bytes();
        if self.gap_end - self.gap_start < bytes.len() {
            self.grow(slice);
        } else {
            let mut j: usize = 0;
            while j < bytes.len()
                invariant
                    buf_wf(o),
                    o.gap_end - o.gap_start >= bytes@.len(),
                    j <= bytes@.len(),
                    self.gap_start == o.gap_start,
                    self.gap_end == o.gap_end,
                    self.storage@.len() == o.storage@.len(),
                    forall|m: int|
                        0 <= m < o.storage@.len() && !(o.gap_start <= m < o.gap_start + j as int)
                            ==> self.storage@[m] == o.storage@[m],
                    forall|m: int|
                        0 <= m < j as int ==> self.storage@[o.gap_start + m] == bytes@[m],
                decreases bytes@.len() - j,
            {
                self.storage.set(self.gap_start + j, bytes[j]);
                j = j + 1;
            }
            self.gap_start = self.gap_start + bytes.len();
            proof {
                assert(pre_text(*self) =~= pre_text(o) + slice.spec_bytes());
                assert(post_text(*self) =~= post_text(o));
                vstd::utf8::encode_utf8_valid_utf8(slice@);
                vstd::utf8::valid_utf8_concat(pre_text(o), slice.spec_bytes());
            }
        }
    }

    /// Cut `size` bytes off the end of the pre-gap text, saturating at
    /// the front; the cut must land on a character boundary.
    pub fn delete(&mut self, size: usize)
        requires
            buf_wf(*old(self)),
            is_char_boundary(pre_text(*old(self)), del_point(*old(self), size)),
        ensures
            buf_wf(*final(self)),
            final(self).gap_start as int == del_point(*old(self), size),
            final(self).gap_end == old(self).gap_end,
            final(self).storage == old(self).storage,
            pre_text(*final(self)) == pre_text(*old(self)).subrange(
                0,
                del_point(*old(self), size),
            ),
            post_text(*final(self)) == post_text(*old(self)),
    {
        let ghost o = *self;
        let idx = if size > self.gap_start {
            0
        } else {
            self.gap_start - size
        };
        self.gap_start = idx;
        proof {
            assert(pre_text(*self) =~= pre_text(o).subrange(0, del_point(o, size)));
            assert(post_text(*self) =~= post_text(o));
            vstd::utf8::valid_utf8_split(pre_text(o), del_point(o, size));
            assert(valid_utf8(pre_text(o).subrange(0, del_point(o, size))));
        }
    }
}

} // verus!
