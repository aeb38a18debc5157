//! The tagged value word.
//!
//! A `LispObj` is a single 64-bit word. The low two bits decide whether the
//! word is an immediate fixnum (`00`) or carries a 16-bit tag code in its low
//! half; for heap variants the rest of the word is the index of the cell in
//! the owning context's heap. The encoding keeps the variants disjoint: see
//! [`lemma_tags_disjoint`].

use vstd::prelude::*;

verus! {

// 16-bit tag codes. Every non-fixnum code is congruent to 2 modulo 4, so no
// code can collide with a fixnum word, whose low two bits are zero.
pub const TAG_TRUE: u16 = 0b10;
pub const TAG_NIL: u16 = 0b1010;
pub const TAG_CONS: u16 = 0b1110;
pub const TAG_LONG_STR: u16 = 0b10010;
pub const TAG_SHORT_STR: u16 = 0b10110;
pub const TAG_FLOAT: u16 = 0b100010;
pub const TAG_FN: u16 = 0x00FE;
pub const TAG_SYMBOL: u16 = 0x01FE;
pub const TAG_VOID: u16 = 0x02FE;
pub const TAG_VECTOR: u16 = 0x03FE;
pub const TAG_RECORD: u16 = 0x04FE;
pub const TAG_HASHTABLE: u16 = 0x05FE;
pub const TAG_BUFFER: u16 = 0x06FE;

pub const FIXNUM_MASK: u64 = 0b11;
pub const STRING_MASK: u64 = 0b11111;

/// A runtime type tag, as returned by [`LispObj::type_of`].
#[derive(Clone, Copy, PartialEq, Eq, Structural, Debug)]
pub struct Tag(pub u16);

/// One Lisp value: a single machine word.
#[derive(Clone, Copy, PartialEq, Eq, Structural, Debug)]
pub struct LispObj {
    pub bits: u64,
}

/// An immediate integer, stored shifted left by the two tag bits.
#[derive(Clone, Copy, PartialEq, Eq, Structural, Debug)]
pub struct Fixnum(pub i64);

pub open spec fn spec_is_fixnum(b: u64) -> bool {
    b & FIXNUM_MASK == 0
}

/// The low 16 bits of a word: its tag code when it is not a fixnum.
pub open spec fn spec_tag(b: u64) -> u64 {
    b & 0xFFFF
}

pub open spec fn has_tag(b: u64, t: u16) -> bool {
    spec_tag(b) == t as u64
}

pub open spec fn spec_is_str(b: u64) -> bool {
    b & STRING_MASK == TAG_LONG_STR as u64 || b & STRING_MASK == TAG_SHORT_STR as u64
}

/// The word reinterpreted as a signed two's-complement integer.
pub open spec fn to_signed(b: u64) -> int {
    if b < 0x8000_0000_0000_0000 {
        b as int
    } else {
        b as int - 0x1_0000_0000_0000_0000
    }
}

/// The integer a fixnum word stands for: the signed word shifted right
/// arithmetically by the two tag bits.
pub open spec fn fix_val(b: u64) -> int {
    to_signed(b) / 4
}

/// Smallest integer a fixnum can hold.
pub open spec fn fix_min() -> int {
    -0x2000_0000_0000_0000
}

/// One past the largest integer a fixnum can hold.
pub open spec fn fix_max() -> int {
    0x2000_0000_0000_0000
}

pub open spec fn in_fix_range(i: int) -> bool {
    fix_min() <= i < fix_max()
}

/// Does the tag code name a heap variant, i.e. does the upper part of the
/// word hold a heap index?
pub open spec fn is_heap_code(t: u16) -> bool {
    ||| t == TAG_CONS
    ||| t == TAG_LONG_STR
    ||| t == TAG_SHORT_STR
    ||| t == TAG_FLOAT
    ||| t == TAG_FN
    ||| t == TAG_SYMBOL
    ||| t == TAG_VECTOR
    ||| t == TAG_RECORD
    ||| t == TAG_HASHTABLE
    ||| t == TAG_BUFFER
}

pub open spec fn spec_is_heap_ref(b: u64) -> bool {
    ||| has_tag(b, TAG_CONS)
    ||| has_tag(b, TAG_LONG_STR)
    ||| has_tag(b, TAG_SHORT_STR)
    ||| has_tag(b, TAG_FLOAT)
    ||| has_tag(b, TAG_FN)
    ||| has_tag(b, TAG_SYMBOL)
    ||| has_tag(b, TAG_VECTOR)
    ||| has_tag(b, TAG_RECORD)
    ||| has_tag(b, TAG_HASHTABLE)
    ||| has_tag(b, TAG_BUFFER)
}

/// The heap index carried by a heap-tagged word.
pub open spec fn spec_ref_idx(b: u64) -> int {
    (b >> 16) as int
}

/// The word that refers to heap cell `idx` under tag code `t`.
pub open spec fn spec_ref_bits(idx: int, t: u16) -> u64 {
    ((idx as u64) << 16) | t as u64
}

/// The word that encodes the integer `i` as a fixnum.
pub open spec fn spec_fix_bits(i: i64) -> u64 {
    (i as u64) << 2
}

pub open spec fn spec_nil() -> LispObj {
    LispObj { bits: TAG_NIL as u64 }
}

pub open spec fn spec_t() -> LispObj {
    LispObj { bits: TAG_TRUE as u64 }
}

pub open spec fn spec_void() -> LispObj {
    LispObj { bits: TAG_VOID as u64 }
}

impl LispObj {
    /// The canonical empty / false value.
    pub fn nil() -> (r: LispObj)
        ensures
            r == spec_nil(),
    {
        LispObj { bits: TAG_NIL as u64 }
    }

    /// The canonical truthy value.
    pub fn t() -> (r: LispObj)
        ensures
            r == spec_t(),
    {
        LispObj { bits: TAG_TRUE as u64 }
    }

    /// The unset marker used for empty symbol slots.
    pub fn void() -> (r: LispObj)
        ensures
            r == spec_void(),
    {
        LispObj { bits: TAG_VOID as u64 }
    }

    /// Make an immediate integer value. The whole fixnum range is accepted.
    pub fn from_int(i: i64) -> (r: LispObj)
        requires
            in_fix_range(i as int),
        ensures
            spec_is_fixnum(r.bits),
            fix_val(r.bits) == i as int,
    {
        let bits: u64 = (i as u64) << 2u64;
        proof {
            lemma_fix_encode(i);
        }
        LispObj { bits }
    }

    /// `true` becomes the `t` value, `false` becomes nil.
    pub fn from_bool(b: bool) -> (r: LispObj)
        ensures
            r == if b {
                spec_t()
            } else {
                spec_nil()
            },
    {
        if b {
            LispObj::t()
        } else {
            LispObj::nil()
        }
    }

    pub fn from_fixnum(f: Fixnum) -> (r: LispObj)
        ensures
            r.bits == f.0 as u64,
    {
        LispObj { bits: f.0 as u64 }
    }

    /// The runtime type tag of this value, readable in constant time.
    pub fn type_of(&self) -> (r: Tag)
        ensures
            spec_is_fixnum(self.bits) ==> r.0 == 0,
            !spec_is_fixnum(self.bits) ==> r.0 as u64 == spec_tag(self.bits),
    {
        if self.bits & FIXNUM_MASK == 0 {
            Tag(0)
        } else {
            proof {
                let b = self.bits;
                assert(b & 0xFFFF < 0x10000) by (bit_vector);
            }
            Tag((self.bits & 0xFFFF) as u16)
        }
    }

    pub fn is_fixnum(&self) -> (r: bool)
        ensures
            r == spec_is_fixnum(self.bits),
    {
        self.bits & FIXNUM_MASK == 0
    }

    pub fn as_fixnum(&self) -> (r: Option<Fixnum>)
        ensures
            match r {
                Some(f) => spec_is_fixnum(self.bits) && f.0 as u64 == self.bits,
                None => !spec_is_fixnum(self.bits),
            },
    {
        if self.is_fixnum() {
            proof {
                let b = self.bits;
                assert((b as i64) as u64 == b) by (bit_vector);
            }
            Some(Fixnum(self.bits as i64))
        } else {
            None
        }
    }

    /// Decode an immediate integer.
    pub fn as_int(&self) -> (r: Option<i64>)
        ensures
            match r {
                Some(i) => spec_is_fixnum(self.bits) && i as int == fix_val(self.bits),
                None => !spec_is_fixnum(self.bits),
            },
    {
        if self.is_fixnum() {
            proof {
                lemma_fix_decode(self.bits);
            }
            let shifted: u64 = self.bits >> 2u64;
            if self.bits >= 0x8000_0000_0000_0000 {
                Some((shifted | 0xC000_0000_0000_0000) as i64)
            } else {
                Some(shifted as i64)
            }
        } else {
            None
        }
    }

    pub fn is_nil(&self) -> (r: bool)
        ensures
            r == has_tag(self.bits, TAG_NIL),
    {
        self.bits & 0xFFFF == TAG_NIL as u64
    }

    pub fn is_true(&self) -> (r: bool)
        ensures
            r == has_tag(self.bits, TAG_TRUE),
    {
        self.bits & 0xFFFF == TAG_TRUE as u64
    }

    pub fn is_void(&self) -> (r: bool)
        ensures
            r == has_tag(self.bits, TAG_VOID),
    {
        self.bits & 0xFFFF == TAG_VOID as u64
    }

    pub fn is_cons(&self) -> (r: bool)
        ensures
            r == has_tag(self.bits, TAG_CONS),
    {
        self.bits & 0xFFFF == TAG_CONS as u64
    }

    /// A list is a cons chain or its nil terminator.
    pub fn is_list(&self) -> (r: bool)
        ensures
            r == (has_tag(self.bits, TAG_CONS) || has_tag(self.bits, TAG_NIL)),
    {
        self.is_cons() || self.is_nil()
    }

    pub fn is_str(&self) -> (r: bool)
        ensures
            r == spec_is_str(self.bits),
    {
        self.bits & STRING_MASK == TAG_LONG_STR as u64 || self.bits & STRING_MASK
            == TAG_SHORT_STR as u64
    }

    pub fn is_float(&self) -> (r: bool)
        ensures
            r == has_tag(self.bits, TAG_FLOAT),
    {
        self.bits & 0xFFFF == TAG_FLOAT as u64
    }

    pub fn is_symbol(&self) -> (r: bool)
        ensures
            r == has_tag(self.bits, TAG_SYMBOL),
    {
        self.bits & 0xFFFF == TAG_SYMBOL as u64
    }

    pub fn is_function(&self) -> (r: bool)
        ensures
            r == has_tag(self.bits, TAG_FN),
    {
        self.bits & 0xFFFF == TAG_FN as u64
    }

    pub fn is_vector(&self) -> (r: bool)
        ensures
            r == has_tag(self.bits, TAG_VECTOR),
    {
        self.bits & 0xFFFF == TAG_VECTOR as u64
    }

    pub fn is_record(&self) -> (r: bool)
        ensures
            r == has_tag(self.bits, TAG_RECORD),
    {
        self.bits & 0xFFFF == TAG_RECORD as u64
    }

    /// Does the word refer to a heap cell at all?
    pub fn is_heap_ref(&self) -> (r: bool)
        ensures
            r == spec_is_heap_ref(self.bits),
    {
        let t: u64 = self.bits & 0xFFFF;
        t == TAG_CONS as u64 || t == TAG_LONG_STR as u64 || t == TAG_SHORT_STR as u64 || t
            == TAG_FLOAT as u64 || t == TAG_FN as u64 || t == TAG_SYMBOL as u64 || t
            == TAG_VECTOR as u64 || t == TAG_RECORD as u64 || t == TAG_HASHTABLE as u64 || t
            == TAG_BUFFER as u64
    }

    /// The heap index of a heap-tagged word.
    pub fn ref_idx(&self) -> (r: usize)
        requires
            spec_is_heap_ref(self.bits),
            spec_ref_idx(self.bits) <= usize::MAX as int,
        ensures
            r as int == spec_ref_idx(self.bits),
    {
        (self.bits >> 16u64) as usize
    }

    /// Build the word that refers to heap cell `idx` under tag code `t`.
    pub fn from_index(idx: usize, t: u16) -> (r: LispObj)
        requires
            idx < 0x1_0000_0000_0000,
            is_heap_code(t),
        ensures
            r.bits == spec_ref_bits(idx as int, t),
            spec_is_heap_ref(r.bits),
            spec_ref_idx(r.bits) == idx as int,
            has_tag(r.bits, t),
            !spec_is_fixnum(r.bits),
    {
        let bits: u64 = ((idx as u64) << 16u64) | t as u64;
        proof {
            lemma_ref_encode(idx as u64, t);
        }
        LispObj { bits }
    }
}

proof fn lemma_fix_encode(i: i64)
    requires
        -0x2000_0000_0000_0000 <= (i as int) < 0x2000_0000_0000_0000,
    ensures
        spec_is_fixnum(spec_fix_bits(i)),
        fix_val(spec_fix_bits(i)) == i as int,
{
    let b: u64 = spec_fix_bits(i);
    assert(b & 3 == 0) by (bit_vector)
        requires
            b == spec_fix_bits(i),
    ;
    assert(((i as int) >= 0 && -0x2000_0000_0000_0000 <= (i as int) < 0x2000_0000_0000_0000) ==> (b
        < 0x8000_0000_0000_0000 && b as int == 4 * (i as int))) by (bit_vector)
        requires
            b == spec_fix_bits(i),
    ;
    assert(((i as int) < 0 && -0x2000_0000_0000_0000 <= (i as int) < 0x2000_0000_0000_0000) ==> (b
        >= 0x8000_0000_0000_0000 && b as int == 4 * (i as int) + 0x1_0000_0000_0000_0000))
        by (bit_vector)
        requires
            b == spec_fix_bits(i),
    ;
    if (i as int) >= 0 {
        assert(to_signed(b) == 4 * (i as int));
    } else {
        assert(to_signed(b) == 4 * (i as int));
    }
    assert(4 * (i as int) / 4 == i as int) by (nonlinear_arith);
}

/// Decode a non-negative fixnum word.
pub open spec fn spec_decode_low(b: u64) -> i64 {
    (b >> 2) as i64
}

/// Decode a negative fixnum word: the top two bits are sign-filled.
pub open spec fn spec_decode_high(b: u64) -> i64 {
    ((b >> 2) | 0xC000_0000_0000_0000) as i64
}

proof fn lemma_fix_decode(b: u64)
    requires
        b & 3 == 0,
    ensures
        b < 0x8000_0000_0000_0000 ==> spec_decode_low(b) as int == fix_val(b),
        b >= 0x8000_0000_0000_0000 ==> spec_decode_high(b) as int == fix_val(b),
        in_fix_range(fix_val(b)),
{
    assert(b < 0x8000_0000_0000_0000 ==> spec_decode_low(b) as int * 4 == b as int)
        by (bit_vector)
        requires
            b & 3 == 0,
    ;
    assert(b >= 0x8000_0000_0000_0000 ==> spec_decode_high(b) as int * 4 == b as int
        - 0x1_0000_0000_0000_0000 && spec_decode_high(b) < 0) by (bit_vector)
        requires
            b & 3 == 0,
    ;
    if b < 0x8000_0000_0000_0000 {
        let v = spec_decode_low(b) as int;
        assert(to_signed(b) == 4 * v);
        assert(4 * v / 4 == v) by (nonlinear_arith);
    } else {
        let v = spec_decode_high(b) as int;
        assert(to_signed(b) == 4 * v);
        assert(4 * v / 4 == v) by (nonlinear_arith);
    }
}

proof fn lemma_ref_encode(idx: u64, t: u16)
    requires
        idx < 0x1_0000_0000_0000,
        is_heap_code(t),
    ensures
        spec_ref_bits(idx as int, t) & 0xFFFF == t as u64,
        spec_ref_bits(idx as int, t) >> 16 == idx,
        spec_ref_bits(idx as int, t) & 3 != 0,
{
    let w: u64 = spec_ref_bits(idx as int, t);
    assert(t as u64 % 4 == 2 ==> w & 3 != 0) by (bit_vector)
        requires
            w == ((idx << 16) | t as u64),
    ;
    assert(w & 0xFFFF == t as u64 && (idx < 0x1_0000_0000_0000 ==> w >> 16 == idx))
        by (bit_vector)
        requires
            w == ((idx << 16) | t as u64),
    ;
}

/// The encoding never lets two variants share a word: a fixnum is never a
/// tagged word, and distinct tag codes are distinct words. This is the
/// totality/disjointness contract of the tagging scheme.
pub proof fn lemma_tags_disjoint(b: u64)
    ensures
        spec_is_fixnum(b) ==> !spec_is_heap_ref(b) && !has_tag(b, TAG_NIL) && !has_tag(
            b,
            TAG_TRUE,
        ) && !has_tag(b, TAG_VOID) && !spec_is_str(b),
        forall|t1: u16, t2: u16| has_tag(b, t1) && has_tag(b, t2) ==> t1 == t2,
        spec_is_str(b) && spec_tag(b) < 0x10000 ==> !has_tag(b, TAG_NIL) && !has_tag(b, TAG_TRUE)
            && !has_tag(b, TAG_CONS) && !has_tag(b, TAG_FLOAT) && !has_tag(b, TAG_SYMBOL)
            && !has_tag(b, TAG_FN) && !has_tag(b, TAG_VOID),
{
    assert(b & 3 == 0 ==> !(b & 0x1F == 0b10010 || b & 0x1F == 0b10110)) by (bit_vector);
    assert(b & 3 == 0 ==> b & 0xFFFF != 0b10 && b & 0xFFFF != 0b1010 && b & 0xFFFF != 0b1110 && b
        & 0xFFFF != 0b10010 && b & 0xFFFF != 0b10110 && b & 0xFFFF != 0b100010 && b & 0xFFFF
        != 0xFE && b & 0xFFFF != 0x1FE && b & 0xFFFF != 0x2FE && b & 0xFFFF != 0x3FE && b & 0xFFFF
        != 0x4FE && b & 0xFFFF != 0x5FE && b & 0xFFFF != 0x6FE) by (bit_vector);
    assert((b & 0x1F == 0b10010 || b & 0x1F == 0b10110) ==> b & 0xFFFF != 0b10 && b & 0xFFFF
        != 0b1010 && b & 0xFFFF != 0b1110 && b & 0xFFFF != 0b100010 && b & 0xFFFF != 0xFE && b
        & 0xFFFF != 0x1FE && b & 0xFFFF != 0x2FE) by (bit_vector);
}

/// Wrap an integer into the fixnum range by two's complement, for sums
/// and differences of two fixnums.
pub open spec fn wrap_fix(s: int) -> int
    recommends
        -0x4000_0000_0000_0000 <= s < 0x4000_0000_0000_0000,
{
    if s < -0x2000_0000_0000_0000 {
        s + 0x4000_0000_0000_0000
    } else if s >= 0x2000_0000_0000_0000 {
        s - 0x4000_0000_0000_0000
    } else {
        s
    }
}

/// Truncating integer division, the machine's rounding toward zero.
pub open spec fn trunc_div(a: int, b: int) -> int
    recommends
        b != 0,
{
    let m = abs_int(a) / abs_int(b);
    if (a < 0) != (b < 0) {
        -m
    } else {
        m
    }
}

pub open spec fn abs_int(a: int) -> int {
    if a < 0 {
        -a
    } else {
        a
    }
}

proof fn lemma_fix_times4(a: u64)
    requires
        a & 3 == 0,
    ensures
        to_signed(a) == 4 * fix_val(a),
        in_fix_range(fix_val(a)),
{
    lemma_fix_decode(a);
    assert(a as int % 4 == 0) by (bit_vector)
        requires
            a & 3 == 0,
    ;
    let t = to_signed(a);
    assert(t % 4 == 0);
    assert(t == 4 * (t / 4)) by (nonlinear_arith)
        requires
            t % 4 == 0,
    ;
}

proof fn lemma_low_bits_of_sum(a: u64, b: u64, c: u64)
    requires
        a & 3 == 0,
        b & 3 == 0,
        c as int == a as int + b as int || c as int == a as int + b as int
            - 0x1_0000_0000_0000_0000 || c as int == a as int - b as int || c as int == a as int
            - b as int + 0x1_0000_0000_0000_0000,
    ensures
        c & 3 == 0,
        ((c as i64) as u64) == c,
{
    assert(a as int % 4 == 0 && b as int % 4 == 0) by (bit_vector)
        requires
            a & 3 == 0 && b & 3 == 0,
    ;
    assert(c as int % 4 == 0) by (nonlinear_arith)
        requires
            (a as int % 4 == 0 && b as int % 4 == 0) && (c as int == a as int + b as int || c
                as int == a as int + b as int - 0x1_0000_0000_0000_0000 || c as int == a as int
                - b as int || c as int == a as int - b as int + 0x1_0000_0000_0000_0000),
    ;
    assert(c % 4 == 0);
    assert(c & 3 == 0 && ((c as i64) as u64) == c) by (bit_vector)
        requires
            c % 4 == 0,
    ;
}

proof fn lemma_fix_wrap_sum(a: u64, b: u64, c: u64, s: int, k: int)
    requires
        a & 3 == 0,
        b & 3 == 0,
        c & 3 == 0,
        -0x4000_0000_0000_0000 <= s < 0x4000_0000_0000_0000,
        -2 <= k <= 2,
        to_signed(c) == 4 * s + k * 0x1_0000_0000_0000_0000,
    ensures
        fix_val(c) == wrap_fix(s),
{
    lemma_fix_times4(c);
    assert(4 * fix_val(c) == 4 * s + k * 0x1_0000_0000_0000_0000);
    assert(fix_val(c) == s + k * 0x4000_0000_0000_0000);
}

impl Fixnum {
    /// Wrapping addition over the fixnum range.
    pub fn plus(self, rhs: Fixnum) -> (r: Fixnum)
        requires
            spec_is_fixnum(self.0 as u64),
            spec_is_fixnum(rhs.0 as u64),
        ensures
            spec_is_fixnum(r.0 as u64),
            fix_val(r.0 as u64) == wrap_fix(fix_val(self.0 as u64) + fix_val(rhs.0 as u64)),
    {
        let a: u64 = self.0 as u64;
        let b: u64 = rhs.0 as u64;
        let c: u64 = a.wrapping_add(b);
        proof {
            assert(c as int == a as int + b as int || c as int == a as int + b as int
                - 0x1_0000_0000_0000_0000);
            lemma_low_bits_of_sum(a, b, c);
            lemma_fix_times4(a);
            lemma_fix_times4(b);
            let s = fix_val(a) + fix_val(b);
            let ka: int = if to_signed(a) == a as int {
                0
            } else {
                1
            };
            let kb: int = if to_signed(b) == b as int {
                0
            } else {
                1
            };
            let kc: int = if to_signed(c) == c as int {
                0
            } else {
                1
            };
            let kw: int = if c as int == a as int + b as int {
                0
            } else {
                1
            };
            assert(to_signed(c) == 4 * s + (ka + kb - kc - kw) * 0x1_0000_0000_0000_0000);
            lemma_fix_wrap_sum(a, b, c, s, ka + kb - kc - kw);
        }
        Fixnum(c as i64)
    }

    /// Wrapping subtraction over the fixnum range.
    pub fn minus(self, rhs: Fixnum) -> (r: Fixnum)
        requires
            spec_is_fixnum(self.0 as u64),
            spec_is_fixnum(rhs.0 as u64),
        ensures
            spec_is_fixnum(r.0 as u64),
            fix_val(r.0 as u64) == wrap_fix(fix_val(self.0 as u64) - fix_val(rhs.0 as u64)),
    {
        let a: u64 = self.0 as u64;
        let b: u64 = rhs.0 as u64;
        let c: u64 = a.wrapping_sub(b);
        proof {
            assert(c as int == a as int - b as int || c as int == a as int - b as int
                + 0x1_0000_0000_0000_0000);
            lemma_low_bits_of_sum(a, b, c);
            lemma_fix_times4(a);
            lemma_fix_times4(b);
            let s = fix_val(a) - fix_val(b);
            let ka: int = if to_signed(a) == a as int {
                0
            } else {
                1
            };
            let kb: int = if to_signed(b) == b as int {
                0
            } else {
                1
            };
            let kc: int = if to_signed(c) == c as int {
                0
            } else {
                1
            };
            let kw: int = if c as int == a as int - b as int {
                0
            } else {
                1
            };
            assert(to_signed(c) == 4 * s + (ka - kb - kc + kw) * 0x1_0000_0000_0000_0000);
            lemma_fix_wrap_sum(a, b, c, s, ka - kb - kc + kw);
        }
        Fixnum(c as i64)
    }

    /// Wrapping multiplication over the fixnum range: the result is the
    /// unique fixnum congruent to the product, so it is the product
    /// itself whenever that lies in range.
    pub fn times(self, rhs: Fixnum) -> (r: Fixnum)
        requires
            spec_is_fixnum(self.0 as u64),
            spec_is_fixnum(rhs.0 as u64),
        ensures
            spec_is_fixnum(r.0 as u64),
            in_fix_range(fix_val(r.0 as u64)),
            (fix_val(r.0 as u64) - fix_val(self.0 as u64) * fix_val(rhs.0 as u64))
                % 0x4000_0000_0000_0000 == 0,
            in_fix_range(fix_val(self.0 as u64) * fix_val(rhs.0 as u64)) ==> fix_val(r.0 as u64)
                == fix_val(self.0 as u64) * fix_val(rhs.0 as u64),
    {
        let a: u64 = self.0 as u64;
        let vb: i64 = rhs.value();
        let c: u64 = a.wrapping_mul(vb as u64);
        proof {
            lemma_fix_mul(a, vb, c);
            let cc = c;
            assert(((cc as i64) as u64) == cc) by (bit_vector);
        }
        Fixnum(c as i64)
    }

    /// Truncating division; the divisor must not be zero.
    pub fn quotient(self, rhs: Fixnum) -> (r: Fixnum)
        requires
            spec_is_fixnum(self.0 as u64),
            spec_is_fixnum(rhs.0 as u64),
            fix_val(rhs.0 as u64) != 0,
        ensures
            spec_is_fixnum(r.0 as u64),
            fix_val(r.0 as u64) == wrap_fix(
                trunc_div(fix_val(self.0 as u64), fix_val(rhs.0 as u64)),
            ),
    {
        let va: i64 = self.value();
        let vb: i64 = rhs.value();
        proof {
            lemma_fix_decode(self.0 as u64);
            lemma_fix_decode(rhs.0 as u64);
        }
        let ma: u64 = if va < 0 {
            ((-(va + 1)) as u64) + 1
        } else {
            va as u64
        };
        let mb: u64 = if vb < 0 {
            ((-(vb + 1)) as u64) + 1
        } else {
            vb as u64
        };
        let mq: u64 = ma / mb;
        proof {
            assert(ma as int == abs_int(va as int));
            assert(mb as int == abs_int(vb as int));
            assert(mq as int == abs_int(va as int) / abs_int(vb as int));
            assert(mq <= ma) by (nonlinear_arith)
                requires
                    mb >= 1 && mq == ma / mb,
            ;
        }
        let neg = (va < 0) != (vb < 0);
        if !neg && mq >= 0x2000_0000_0000_0000 {
            // the one overflowing quotient: the top of the range, which
            // wraps to the bottom
            proof {
                assert(mq == 0x2000_0000_0000_0000);
                assert(trunc_div(fix_val(self.0 as u64), fix_val(rhs.0 as u64))
                    == 0x2000_0000_0000_0000);
                let w: u64 = (i64::MIN) as u64;
                assert(w == 0x8000_0000_0000_0000u64) by (bit_vector)
                    requires
                        w == (i64::MIN) as u64,
                ;
                assert(w & 3 == 0) by (bit_vector)
                    requires
                        w == 0x8000_0000_0000_0000u64,
                ;
                assert(to_signed(w) == -0x8000_0000_0000_0000);
                assert(fix_val(w) == -0x2000_0000_0000_0000);
            }
            return Fixnum(i64::MIN);
        }
        let q: i64 = if neg {
            -(mq as i64)
        } else {
            mq as i64
        };
        proof {
            assert(q as int == trunc_div(fix_val(self.0 as u64), fix_val(rhs.0 as u64)));
        }
        Fixnum::from_int(q)
    }
}

proof fn lemma_fix_mul(a: u64, vb: i64, c: u64)
    requires
        a & 3 == 0,
        c == vstd::wrapping::u64_specs::wrapping_mul(a, vb as u64),
    ensures
        c & 3 == 0,
        in_fix_range(fix_val(c)),
        (fix_val(c) - fix_val(a) * (vb as int)) % 0x4000_0000_0000_0000 == 0,
        in_fix_range(fix_val(a) * (vb as int)) ==> fix_val(c) == fix_val(a) * (vb as int),
{
    lemma_fix_times4(a);
    let m: int = 0x1_0000_0000_0000_0000;
    let half: int = 0x4000_0000_0000_0000;
    let va = fix_val(a);
    let vbi = vb as int;
    let p = va * vbi;
    let e: int = if to_signed(a) == a as int {
        0
    } else {
        1
    };
    let f: int = if (vb as u64) as int == vbi {
        0
    } else {
        1
    };
    assert(a as int == 4 * va + e * m);
    assert(vb >= 0 ==> (vb as u64) as int == vb as int) by (bit_vector);
    assert(vb < 0 ==> (vb as u64) as int == vb as int + 0x1_0000_0000_0000_0000) by (bit_vector);
    assert((vb as u64) as int == vbi + f * m);
    let big = e * vbi + 4 * va * f + e * f * m;
    assert((a as int) * (((vb as u64)) as int) == 4 * p + big * m) by (nonlinear_arith)
        requires
            a as int == 4 * va + e * m && ((vb as u64)) as int == vbi + f * m && big == e * vbi + 4
                * va * f + e * f * m && p == va * vbi && m == 0x1_0000_0000_0000_0000,
    ;
    assert(c as int == ((a as nat * (vb as u64) as nat) % (m as nat)) as int);
    vstd::arithmetic::div_mod::lemma_mod_multiples_vanish(big, 4 * p, m);
    assert(c as int == (4 * p) % m);
    // the word is still a multiple of four ...
    let q = (4 * p) / m;
    vstd::arithmetic::div_mod::lemma_fundamental_div_mod(4 * p, m);
    assert(c as int == 4 * p - m * q);
    assert(c as int == 4 * (p - 0x4000_0000_0000_0000 * q)) by (nonlinear_arith)
        requires
            c as int == 4 * p - m * q && m == 4 * 0x4000_0000_0000_0000,
    ;
    assert(c as int % 4 == 0) by (nonlinear_arith)
        requires
            c as int == 4 * (p - 0x4000_0000_0000_0000 * q),
    ;
    assert(c & 3 == 0) by (bit_vector)
        requires
            c % 4 == 0,
    ;
    lemma_fix_times4(c);
    // ... and its fixnum value is congruent to the product.
    let ec: int = if to_signed(c) == c as int {
        0
    } else {
        1
    };
    assert(to_signed(c) == c as int - ec * m);
    assert(4 * fix_val(c) == 4 * p - m * q - ec * m);
    let j = -(q + ec);
    assert(fix_val(c) == p + j * half) by (nonlinear_arith)
        requires
            4 * fix_val(c) == 4 * p - m * q - ec * m && j == -(q + ec) && m == 4 * half && half
                == 0x4000_0000_0000_0000,
    ;
    vstd::arithmetic::div_mod::lemma_mod_multiples_vanish(j, 0, half);
    assert((j * half) % half == 0);
    assert((fix_val(c) - p) % half == 0) by {
        assert(fix_val(c) - p == j * half);
    }
    if in_fix_range(p) {
        assert(fix_val(c) - p == j * half);
        assert(-half < fix_val(c) - p < half);
        assert(j == 0) by (nonlinear_arith)
            requires
                -half < j * half < half && half > 0,
        ;
    }
}

/// The three immediate singletons are not heap references.
pub proof fn lemma_immediate_words()
    ensures
        !spec_is_heap_ref(spec_nil().bits),
        !spec_is_heap_ref(spec_t().bits),
        !spec_is_heap_ref(spec_void().bits),
{
    assert(0xAu64 & 0xFFFF == 0xA) by (bit_vector);
    assert(0x2u64 & 0xFFFF == 0x2) by (bit_vector);
    assert(0x2FEu64 & 0xFFFF == 0x2FE) by (bit_vector);
}

/// A word is determined by its index part and its tag part.
pub proof fn lemma_word_from_parts(b: u64, idx: u64, t: u16)
    requires
        b >> 16 == idx,
        b & 0xFFFF == t as u64,
    ensures
        b == spec_ref_bits(idx as int, t),
{
    assert(b == ((b >> 16) << 16 | (b & 0xFFFF))) by (bit_vector);
}

impl Fixnum {
    /// Encode an integer; the whole fixnum range is accepted.
    pub fn from_int(i: i64) -> (r: Fixnum)
        requires
            in_fix_range(i as int),
        ensures
            spec_is_fixnum(r.0 as u64),
            fix_val(r.0 as u64) == i as int,
    {
        proof {
            lemma_fix_encode(i);
            let w = spec_fix_bits(i);
            assert((w as i64) as u64 == w) by (bit_vector);
        }
        Fixnum(((i as u64) << 2u64) as i64)
    }

    /// The integer this fixnum stands for.
    pub fn value(self) -> (r: i64)
        requires
            spec_is_fixnum(self.0 as u64),
        ensures
            r as int == fix_val(self.0 as u64),
    {
        proof {
            lemma_fix_decode(self.0 as u64);
        }
        let b: u64 = self.0 as u64;
        let shifted: u64 = b >> 2u64;
        if b >= 0x8000_0000_0000_0000 {
            (shifted | 0xC000_0000_0000_0000) as i64
        } else {
            shifted as i64
        }
    }
}

} // verus!
