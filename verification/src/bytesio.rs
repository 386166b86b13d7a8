//! Little-endian byte codec shared by the base and log formats. Readers
//! return [`Error::Format`] on truncated or hostile input, never panic, and
//! never allocate by a length field.
use crate::error::{push_decimal, Error, Result};
#[allow(unused_imports)]
use crate::error::{decimal, Fault};
use vstd::prelude::*;
use vstd::string::*;
#[allow(unused_imports)]
use vstd::utf8::*;

verus! {

// ---- the model -----------------------------------------------------------

/// The number that `b` spells, least significant byte first.
pub open spec fn le_nat(b: Seq<u8>) -> nat
    decreases b.len(),
{
    if b.len() == 0 {
        0
    } else {
        b[0] as nat + 256 * le_nat(b.drop_first())
    }
}

/// The number of `w` bytes at `off`.
pub open spec fn number_at(bytes: Seq<u8>, off: int, w: int) -> nat {
    le_nat(bytes.subrange(off, off + w))
}

/// The `w` low bytes of `v`, least significant byte first.
pub open spec fn le_bytes(v: nat, w: nat) -> Seq<u8>
    decreases w,
{
    if w == 0 {
        Seq::empty()
    } else {
        seq![(v % 256) as u8] + le_bytes(v / 256, (w - 1) as nat)
    }
}

/// 256 to the power of `w`.
pub open spec fn pow256(w: nat) -> nat
    decreases w,
{
    if w == 0 {
        1
    } else {
        256 * pow256((w - 1) as nat)
    }
}

/// 128 to the power of `w`.
pub open spec fn pow128(w: nat) -> nat
    decreases w,
{
    if w == 0 {
        1
    } else {
        128 * pow128((w - 1) as nat)
    }
}

/// A `u16`-length-prefixed UTF-8 string.
pub open spec fn str_bytes(s: Seq<char>) -> Seq<u8> {
    le_bytes(encode_utf8(s).len(), 2) + encode_utf8(s)
}

/// An unsigned LEB128 varint: seven bits to a byte, low bits first, the top
/// bit set on all but the last byte.
pub open spec fn varint_bytes(v: nat) -> Seq<u8>
    decreases v,
{
    if v < 128 {
        seq![v as u8]
    } else {
        seq![(v % 128 + 128) as u8] + varint_bytes(v / 128)
    }
}

/// A read position in a byte string. Once `fault` is set nothing more is
/// read: the position stays where the first failure left it.
pub struct Cur {
    pub bytes: Seq<u8>,
    pub pos: int,
    pub fault: Option<Fault>,
}

/// The fault of asking for `n` bytes at `pos` when fewer remain.
pub open spec fn truncated(n: nat, pos: nat) -> Fault {
    Fault::Format("truncated: need "@ + decimal(n) + " bytes at "@ + decimal(pos))
}

impl Cur {
    pub open spec fn failing(self, fault: Fault) -> Cur {
        Cur { fault: Some(fault), ..self }
    }

    /// Fail with `fault` unless something failed before or `ok` holds.
    pub open spec fn demand(self, ok: bool, fault: Fault) -> Cur {
        if self.fault is Some || ok {
            self
        } else {
            self.failing(fault)
        }
    }

    pub open spec fn remaining(self) -> int {
        self.bytes.len() - self.pos
    }

    /// `n` raw bytes.
    pub open spec fn take(self, n: nat) -> (Seq<u8>, Cur) {
        if self.fault is Some {
            (Seq::empty(), self)
        } else if self.pos + n <= self.bytes.len() {
            (self.bytes.subrange(self.pos, self.pos + n), Cur { pos: self.pos + n, ..self })
        } else {
            (Seq::empty(), self.failing(truncated(n, self.pos as nat)))
        }
    }

    /// One little-endian number of `w` bytes.
    pub open spec fn number(self, w: nat) -> (nat, Cur) {
        let (b, c) = self.take(w);
        (le_nat(b), c)
    }

    pub open spec fn u8(self) -> (u8, Cur) {
        let (v, c) = self.number(1);
        (v as u8, c)
    }

    pub open spec fn u16(self) -> (u16, Cur) {
        let (v, c) = self.number(2);
        (v as u16, c)
    }

    pub open spec fn u32(self) -> (u32, Cur) {
        let (v, c) = self.number(4);
        (v as u32, c)
    }

    pub open spec fn u64(self) -> (u64, Cur) {
        let (v, c) = self.number(8);
        (v as u64, c)
    }

    /// A length-prefixed UTF-8 string.
    pub open spec fn str(self) -> (Seq<char>, Cur) {
        let (len, c) = self.u16();
        let (raw, c) = c.take(len as nat);
        if c.fault is Some {
            (Seq::empty(), c)
        } else if valid_utf8(raw) {
            (decode_utf8(raw), c)
        } else {
            (Seq::empty(), c.failing(Fault::Format("invalid utf-8 in string"@)))
        }
    }

    /// The digits of a varint from the `i`-th byte on, as one number; at most
    /// ten bytes are read in all.
    pub open spec fn varint_from(self, i: nat) -> (nat, Cur)
        decreases 10 - i,
    {
        let (b, c) = self.u8();
        if c.fault is Some {
            (0, c)
        } else if b < 128 {
            (b as nat, c)
        } else if i >= 9 {
            (0, c.failing(Fault::Format("varint overlong"@)))
        } else {
            let (hi, d) = c.varint_from(i + 1);
            ((b - 128) as nat + 128 * hi, d)
        }
    }

    /// An unsigned LEB128 varint; bits past the 64th are dropped.
    pub open spec fn varint(self) -> (u64, Cur) {
        let (v, c) = self.varint_from(0);
        ((v % 0x1_0000_0000_0000_0000) as u64, c)
    }

    /// `chunk` is what comes next.
    pub open spec fn at(self, chunk: Seq<u8>) -> bool {
        &&& self.fault is None
        &&& 0 <= self.pos
        &&& self.pos + chunk.len() <= self.bytes.len()
        &&& self.bytes.subrange(self.pos, self.pos + chunk.len()) == chunk
    }

    pub open spec fn skip(self, n: nat) -> Cur {
        Cur { pos: self.pos + n, ..self }
    }
}

// ---- laws of the codec ----------------------------------------------------

/// Concatenation associates to the right.
pub broadcast proof fn lemma_cat_assoc(a: Seq<u8>, b: Seq<u8>, c: Seq<u8>)
    ensures
        #[trigger] ((a + b) + c) == a + (b + c),
{
    assert((a + b) + c =~= a + (b + c));
}

pub proof fn lemma_le_bytes_len(v: nat, w: nat)
    ensures
        le_bytes(v, w).len() == w,
    decreases w,
{
    if w > 0 {
        lemma_le_bytes_len(v / 256, (w - 1) as nat);
    }
}

/// A number that fits in `w` bytes is read back from them.
pub proof fn lemma_le_round_trip(v: nat, w: nat)
    requires
        v < pow256(w),
    ensures
        le_nat(le_bytes(v, w)) == v,
        le_bytes(v, w).len() == w,
    decreases w,
{
    if w > 0 {
        lemma_le_bytes_len(v, w);
        lemma_le_round_trip(v / 256, (w - 1) as nat);
        assert(le_bytes(v, w).drop_first() =~= le_bytes(v / 256, (w - 1) as nat));
    }
}

/// Every byte string is the encoding of the number it spells.
pub proof fn lemma_le_unique(b: Seq<u8>)
    ensures
        le_bytes(le_nat(b), b.len()) == b,
        le_nat(b) < pow256(b.len()),
    decreases b.len(),
{
    if b.len() > 0 {
        lemma_le_unique(b.drop_first());
        assert(b =~= seq![b[0]] + b.drop_first());
    } else {
        assert(b =~= Seq::empty());
    }
}

pub proof fn lemma_pow256_values()
    ensures
        pow256(1) == 0x100,
        pow256(2) == 0x1_0000,
        pow256(4) == 0x1_0000_0000,
        pow256(7) == 0x100_0000_0000_0000,
        pow256(8) == 0x1_0000_0000_0000_0000,
{
    reveal_with_fuel(pow256, 9);
}

pub proof fn lemma_pow256_monotone(a: nat, b: nat)
    requires
        a <= b,
    ensures
        pow256(a) <= pow256(b),
        pow256(a) > 0,
    decreases b,
{
    if a < b {
        lemma_pow256_monotone(a, (b - 1) as nat);
    } else if a > 0 {
        lemma_pow256_monotone((a - 1) as nat, (b - 1) as nat);
    }
}

proof fn lemma_pow128_monotone(a: nat, b: nat)
    requires
        a <= b,
    ensures
        pow128(a) <= pow128(b),
        pow128(a) > 0,
    decreases b,
{
    if a < b {
        lemma_pow128_monotone(a, (b - 1) as nat);
    } else if a > 0 {
        lemma_pow128_monotone((a - 1) as nat, (b - 1) as nat);
    }
}

pub proof fn lemma_pow128_values()
    ensures
        pow128(9) == 0x8000_0000_0000_0000,
        pow128(10) == 0x40_0000_0000_0000_0000,
{
    reveal_with_fuel(pow128, 11);
}

/// What is read of a number is the number that was written.
pub proof fn lemma_number_at(c: Cur, v: nat, w: nat)
    requires
        c.at(le_bytes(v, w)),
        v < pow256(w),
    ensures
        c.number(w) == (v, c.skip(w)),
{
    lemma_le_round_trip(v, w);
}

pub proof fn lemma_u8_at(c: Cur, v: u8)
    requires
        c.at(seq![v]),
    ensures
        c.u8() == (v, c.skip(1)),
{
    lemma_pow256_values();
    reveal_with_fuel(le_bytes, 2);
    assert(le_bytes(v as nat, 1) =~= seq![v]);
    lemma_number_at(c, v as nat, 1);
}

pub proof fn lemma_u16_at(c: Cur, v: u16)
    requires
        c.at(le_bytes(v as nat, 2)),
    ensures
        c.u16() == (v, c.skip(2)),
{
    lemma_pow256_values();
    lemma_number_at(c, v as nat, 2);
}

pub proof fn lemma_u32_at(c: Cur, v: u32)
    requires
        c.at(le_bytes(v as nat, 4)),
    ensures
        c.u32() == (v, c.skip(4)),
{
    lemma_pow256_values();
    lemma_number_at(c, v as nat, 4);
}

pub proof fn lemma_u64_at(c: Cur, v: u64)
    requires
        c.at(le_bytes(v as nat, 8)),
    ensures
        c.u64() == (v, c.skip(8)),
{
    lemma_pow256_values();
    lemma_number_at(c, v as nat, 8);
}

/// Each chunk of a concatenation is read where the one before it ends.
pub proof fn lemma_at_split(c: Cur, x: Seq<u8>, y: Seq<u8>)
    requires
        c.at(x + y),
    ensures
        c.at(x),
        c.skip(x.len()).at(y),
{
    let all = c.bytes.subrange(c.pos, c.pos + (x + y).len());
    assert(c.bytes.subrange(c.pos, c.pos + x.len()) =~= all.subrange(0, x.len() as int));
    assert(all.subrange(0, x.len() as int) =~= x);
    let p = c.pos + x.len();
    assert(c.bytes.subrange(p, p + y.len()) =~= all.subrange(x.len() as int, all.len() as int));
    assert(all.subrange(x.len() as int, all.len() as int) =~= y);
}

/// A number that comes next is read where it stands, and the rest follows it.
pub proof fn lemma_field_at(c: Cur, v: nat, w: nat, rest: Seq<u8>)
    requires
        c.at(le_bytes(v, w) + rest),
        v < pow256(w),
    ensures
        number_at(c.bytes, c.pos, w as int) == v,
        c.skip(w).at(rest),
{
    lemma_le_round_trip(v, w);
    lemma_at_split(c, le_bytes(v, w), rest);
}

/// What is read of a string is the string that was written.
pub proof fn lemma_str_at(c: Cur, s: Seq<char>)
    requires
        c.at(str_bytes(s)),
        encode_utf8(s).len() <= 0xffff,
    ensures
        c.str() == (s, c.skip(str_bytes(s).len())),
        str_bytes(s).len() == 2 + encode_utf8(s).len(),
{
    let raw = encode_utf8(s);
    lemma_pow256_values();
    lemma_at_split(c, le_bytes(raw.len(), 2), raw);
    lemma_number_at(c, raw.len(), 2);
    lemma_le_bytes_len(raw.len(), 2);
    encode_utf8_valid_utf8(s);
    encode_utf8_decode_utf8(s);
}

proof fn lemma_varint_from_at(c: Cur, v: nat, i: nat)
    requires
        c.at(varint_bytes(v)),
        i <= 9,
        v < pow128((10 - i) as nat),
    ensures
        c.varint_from(i) == (v, c.skip(varint_bytes(v).len())),
        0 < varint_bytes(v).len() <= 10 - i,
    decreases 10 - i,
{
    lemma_pow256_values();
    if v < 128 {
        let b = v as u8;
        assert(le_bytes(v, 1) =~= seq![b]) by {
            reveal_with_fuel(le_bytes, 2);
        }
        lemma_number_at(c, v, 1);
    } else {
        let b = (v % 128 + 128) as u8;
        assert(varint_bytes(v) == seq![b] + varint_bytes(v / 128));
        lemma_at_split(c, seq![b], varint_bytes(v / 128));
        assert(le_bytes(b as nat, 1) =~= seq![b]) by {
            reveal_with_fuel(le_bytes, 2);
        }
        lemma_number_at(c, b as nat, 1);
        if i == 9 {
            reveal_with_fuel(pow128, 2);
        }
        lemma_varint_from_at(c.skip(1), v / 128, i + 1);
    }
}

/// What is read of a varint is the number that was written, and it takes at
/// most ten bytes.
pub proof fn lemma_varint_at(c: Cur, v: u64)
    requires
        c.at(varint_bytes(v as nat)),
    ensures
        c.varint() == (v, c.skip(varint_bytes(v as nat).len())),
        0 < varint_bytes(v as nat).len() <= 10,
{
    lemma_pow128_values();
    lemma_varint_from_at(c, v as nat, 0);
}

/// Reading a varint moves forward within the input.
pub proof fn lemma_varint_moves(c: Cur, i: nat)
    requires
        c.fault is None,
        0 <= c.pos,
    ensures
        c.varint_from(i).1.bytes == c.bytes,
        c.varint_from(i).1.fault is None ==> c.pos < c.varint_from(i).1.pos <= c.bytes.len(),
    decreases 10 - i,
{
    let (b, d) = c.u8();
    if d.fault is None && b >= 128 && i < 9 {
        lemma_varint_moves(d, i + 1);
    }
}

pub proof fn lemma_varint_len(v: u64)
    ensures
        0 < varint_bytes(v as nat).len() <= 10,
{
    let b = varint_bytes(v as nat);
    let c = Cur { bytes: b, pos: 0, fault: None };
    assert(b.subrange(0, b.len() as int) =~= b);
    lemma_varint_at(c, v);
}

// ---- writers --------------------------------------------------------------

/// `align` is a power of two.
pub open spec fn is_pow2(align: nat) -> bool
    decreases align,
{
    align == 1 || (align > 1 && align % 2 == 0 && is_pow2(align / 2))
}

/// The least multiple of `align` that is not below `n`.
pub open spec fn aligned(n: nat, align: nat) -> nat {
    (((n + align - 1) / align as int) * align) as nat
}

pub proof fn lemma_aligned(n: nat, align: nat)
    requires
        align > 0,
    ensures
        aligned(n, align) % align == 0,
        n <= aligned(n, align) < n + align,
        n % align == 0 ==> aligned(n, align) == n,
{
    let q = (n + align - 1) / align as int;
    vstd::arithmetic::div_mod::lemma_fundamental_div_mod(n + align - 1, align as int);
    vstd::arithmetic::div_mod::lemma_mod_bound(n + align - 1, align as int);
    assert(align * q == q * align) by (nonlinear_arith);
    assert(q >= 0) by {
        vstd::arithmetic::div_mod::lemma_div_pos_is_pos(n + align - 1, align as int);
    }
    assert(q * align >= 0) by (nonlinear_arith)
        requires
            q >= 0,
    ;
    vstd::arithmetic::div_mod::lemma_mod_multiples_basic(q, align as int);
    if n % align == 0 {
        vstd::arithmetic::div_mod::lemma_fundamental_div_mod(n as int, align as int);
        let k = n as int / align as int;
        assert(align * k == k * align) by (nonlinear_arith);
        assert(n == k * align);
        assert(q == k) by (nonlinear_arith)
            requires
                k * align <= q * align < k * align + align,
                align > 0,
        ;
    }
}

/// Round `n` up to the next multiple of `align` (power of two).
pub fn align_up(n: usize, align: usize) -> (r: usize)
    requires
        is_pow2(align as nat),
        n + align - 1 <= usize::MAX,
    ensures
        r == aligned(n as nat, align as nat),
        r % align == 0,
        n <= r < n + align,
{
    proof {
        lemma_aligned(n as nat, align as nat);
    }
    let q: usize = (n + (align - 1)) / align;
    assert(q * align == aligned(n as nat, align as nat));
    proof {
        vstd::arithmetic::div_mod::lemma_fundamental_div_mod(n + align - 1, align as int);
        assert(align * q == q * align) by (nonlinear_arith);
        vstd::arithmetic::div_mod::lemma_mod_bound(n + align - 1, align as int);
    }
    q * align
}

fn put_le(out: &mut Vec<u8>, v: u64, w: usize)
    ensures
        final(out)@ == old(out)@ + le_bytes(v as nat, w as nat),
{
    let ghost before = out@;
    let ghost whole = le_bytes(v as nat, w as nat);
    let mut v: u64 = v;
    let mut left: usize = w;
    assert(out@ + whole == before + whole);
    while left > 0
        invariant
            out@ + le_bytes(v as nat, left as nat) == before + whole,
        decreases left,
    {
        let ghost was = out@;
        let ghost rest = le_bytes((v / 256) as nat, (left - 1) as nat);
        out.push((v % 256) as u8);
        assert(out@ + rest =~= was + (seq![(v % 256) as u8] + rest));
        v = v / 256;
        left = left - 1;
    }
    assert(out@ =~= out@ + le_bytes(v as nat, 0));
}

/// Append one byte.
pub fn put_u8(out: &mut Vec<u8>, v: u8)
    ensures
        final(out)@ == old(out)@ + seq![v],
{
    out.push(v);
    assert(out@ =~= old(out)@ + seq![v]);
}

/// Append a `u16`, little-endian.
pub fn put_u16(out: &mut Vec<u8>, v: u16)
    ensures
        final(out)@ == old(out)@ + le_bytes(v as nat, 2),
{
    put_le(out, v as u64, 2);
}

/// Append a `u32`, little-endian.
pub fn put_u32(out: &mut Vec<u8>, v: u32)
    ensures
        final(out)@ == old(out)@ + le_bytes(v as nat, 4),
{
    put_le(out, v as u64, 4);
}

/// Append a `u64`, little-endian.
pub fn put_u64(out: &mut Vec<u8>, v: u64)
    ensures
        final(out)@ == old(out)@ + le_bytes(v as nat, 8),
{
    put_le(out, v, 8);
}

/// Append raw bytes.
pub fn put_bytes(out: &mut Vec<u8>, b: &[u8])
    ensures
        final(out)@ == old(out)@ + b@,
{
    out.extend_from_slice(b);
    assert(out@ =~= old(out)@ + b@);
}

/// Append a `u16`-length-prefixed UTF-8 string.
pub fn put_str(out: &mut Vec<u8>, s: &str)
    requires
        encode_utf8(s@).len() <= 0xffff,
    ensures
        final(out)@ == old(out)@ + str_bytes(s@),
{
    let raw: &[u8] = s.as_bytes();
    put_u16(out, raw.len() as u16);
    put_bytes(out, raw);
    assert(out@ =~= old(out)@ + str_bytes(s@));
}

/// Append an unsigned LEB128 varint.
pub fn put_varint(out: &mut Vec<u8>, v: u64)
    ensures
        final(out)@ == old(out)@ + varint_bytes(v as nat),
{
    let ghost before = out@;
    let ghost whole = varint_bytes(v as nat);
    let mut v: u64 = v;
    while v >= 128
        invariant
            out@ + varint_bytes(v as nat) == before + whole,
        decreases v,
    {
        let ghost was = out@;
        let ghost rest = varint_bytes((v / 128) as nat);
        let b: u8 = (v % 128) as u8 + 128;
        out.push(b);
        assert(out@ + rest =~= was + (seq![b] + rest));
        v = v / 128;
    }
    let ghost was = out@;
    out.push(v as u8);
    assert(out@ =~= was + seq![v as u8]);
}

// ---- readers --------------------------------------------------------------

fn get_le(bytes: &[u8], off: usize, w: usize) -> (v: u64)
    requires
        off + w <= bytes@.len(),
        w <= 8,
    ensures
        v == le_nat(bytes@.subrange(off as int, off + w)),
        v < pow256(w as nat),
{
    proof {
        lemma_pow256_values();
    }
    let end: usize = bytes.len();
    let mut v: u64 = 0;
    let mut i: usize = w;
    assert(bytes@.subrange(off + w, off + w) =~= Seq::empty());
    while i > 0
        invariant
            i <= w <= 8,
            off + w <= end == bytes@.len(),
            v == le_nat(bytes@.subrange(off + i, off + w)),
            pow256(7) == 0x100_0000_0000_0000,
        decreases i,
    {
        let ghost tail = bytes@.subrange(off + i, off + w);
        let ghost here = bytes@.subrange(off + i - 1, off + w);
        proof {
            lemma_le_unique(tail);
            lemma_pow256_monotone(tail.len(), 7);
            assert(here.drop_first() =~= tail);
        }
        i = i - 1;
        v = v * 256 + bytes[off + i] as u64;
    }
    proof {
        lemma_le_unique(bytes@.subrange(off as int, off + w));
    }
    v
}

/// Read a `u16` at a known-good offset.
pub fn get_u16(bytes: &[u8], off: usize) -> (v: u16)
    requires
        off + 2 <= bytes@.len(),
    ensures
        v == le_nat(bytes@.subrange(off as int, off + 2)),
{
    proof {
        lemma_pow256_values();
    }
    get_le(bytes, off, 2) as u16
}

/// Read a `u32` at a known-good offset.
pub fn get_u32(bytes: &[u8], off: usize) -> (v: u32)
    requires
        off + 4 <= bytes@.len(),
    ensures
        v == le_nat(bytes@.subrange(off as int, off + 4)),
{
    proof {
        lemma_pow256_values();
    }
    get_le(bytes, off, 4) as u32
}

/// Read a `u64` at a known-good offset.
pub fn get_u64(bytes: &[u8], off: usize) -> (v: u64)
    requires
        off + 8 <= bytes@.len(),
    ensures
        v == le_nat(bytes@.subrange(off as int, off + 8)),
{
    get_le(bytes, off, 8)
}

/// `bytes[from..to]`.
pub fn slice<'a>(bytes: &'a [u8], from: usize, to: usize) -> (r: &'a [u8])
    requires
        from <= to <= bytes@.len(),
    ensures
        r@ == bytes@.subrange(from as int, to as int),
{
    vstd::slice::slice_subrange(bytes, from, to)
}

/// `std::str::from_utf8`: the bytes as text if and only if they are valid
/// UTF-8, and then exactly those bytes.
#[verifier::external_body]
pub(crate) fn utf8(raw: &[u8]) -> (r: Option<&str>)
    ensures
        r is Some <==> valid_utf8(raw@),
        r matches Some(s) ==> s.spec_bytes() == raw@,
{
    std::str::from_utf8(raw).ok()
}

/// `raw` as text, if it is valid UTF-8.
pub fn text(raw: &[u8]) -> (r: Option<&str>)
    ensures
        r is Some <==> valid_utf8(raw@),
        r matches Some(s) ==> s@ == decode_utf8(raw@) && encode_utf8(s@) == raw@,
{
    match utf8(raw) {
        Some(s) => {
            proof {
                encode_utf8_decode_utf8(s@);
            }
            Some(s)
        },
        None => None,
    }
}

fn truncated_error(n: usize, pos: usize) -> (e: Error)
    ensures
        e@ == truncated(n as nat, pos as nat),
{
    let mut message: String = "truncated: need ".to_owned();
    push_decimal(&mut message, n as u64);
    message.append(" bytes at ");
    push_decimal(&mut message, pos as u64);
    Error::Format { message }
}

/// A bounds-checked forward reader over untrusted bytes.
#[derive(Debug)]
pub struct Reader<'a> {
    bytes: &'a [u8],
    pos: usize,
}

impl<'a> Reader<'a> {
    /// The position lies in the input.
    pub open spec fn wf(&self) -> bool {
        &&& 0 <= self.cur().pos <= self.cur().bytes.len()
        &&& self.cur().fault is None
    }

    /// Where the reader stands.
    pub closed spec fn cur(&self) -> Cur {
        Cur { bytes: self.bytes@, pos: self.pos as int, fault: None }
    }

    /// `next` is the reader after a read that left the cursor at `c`.
    pub open spec fn stands_at(&self, c: Cur) -> bool {
        &&& self.wf()
        &&& self.cur().bytes == c.bytes
        &&& self.cur().pos == c.pos
    }

    /// Start reading at the beginning of `bytes`.
    pub fn new(bytes: &'a [u8]) -> (r: Self)
        ensures
            r.wf(),
            r.cur() == (Cur { bytes: bytes@, pos: 0, fault: None }),
    {
        Reader { bytes, pos: 0 }
    }

    /// Bytes not yet consumed.
    pub fn remaining(&self) -> (n: usize)
        requires
            self.wf(),
        ensures
            n == self.cur().remaining(),
    {
        self.bytes.len() - self.pos
    }

    fn take(&mut self, n: usize) -> (r: Result<&'a [u8]>)
        requires
            old(self).wf(),
        ensures
            final(self).stands_at(old(self).cur().take(n as nat).1),
            match r {
                Ok(b) => old(self).cur().take(n as nat) == (b@, final(self).cur()),
                Err(e) => old(self).cur().take(n as nat).1.fault == Some(e@),
            },
    {
        if n <= self.bytes.len() - self.pos {
            let out: &'a [u8] = slice(self.bytes, self.pos, self.pos + n);
            self.pos = self.pos + n;
            Ok(out)
        } else {
            Err(truncated_error(n, self.pos))
        }
    }

    fn number(&mut self, w: usize) -> (r: Result<u64>)
        requires
            old(self).wf(),
            w <= 8,
        ensures
            final(self).stands_at(old(self).cur().number(w as nat).1),
            match r {
                Ok(v) => old(self).cur().number(w as nat) == (v as nat, final(self).cur()) && v
                    < pow256(w as nat),
                Err(e) => old(self).cur().number(w as nat).1.fault == Some(e@),
            },
    {
        let b: &[u8] = self.take(w)?;
        assert(b@.subrange(0, 0 + w) =~= b@);
        Ok(get_le(b, 0, w))
    }

    /// Read one byte.
    pub fn u8(&mut self) -> (r: Result<u8>)
        requires
            old(self).wf(),
        ensures
            final(self).stands_at(old(self).cur().u8().1),
            match r {
                Ok(v) => old(self).cur().u8() == (v, final(self).cur()),
                Err(e) => old(self).cur().u8().1.fault == Some(e@),
            },
    {
        proof {
            lemma_pow256_values();
        }
        let v: u64 = self.number(1)?;
        Ok(v as u8)
    }

    /// Read a `u16`, little-endian.
    pub fn u16(&mut self) -> (r: Result<u16>)
        requires
            old(self).wf(),
        ensures
            final(self).stands_at(old(self).cur().u16().1),
            match r {
                Ok(v) => old(self).cur().u16() == (v, final(self).cur()),
                Err(e) => old(self).cur().u16().1.fault == Some(e@),
            },
    {
        proof {
            lemma_pow256_values();
        }
        let v: u64 = self.number(2)?;
        Ok(v as u16)
    }

    /// Read a `u32`, little-endian.
    pub fn u32(&mut self) -> (r: Result<u32>)
        requires
            old(self).wf(),
        ensures
            final(self).stands_at(old(self).cur().u32().1),
            match r {
                Ok(v) => old(self).cur().u32() == (v, final(self).cur()),
                Err(e) => old(self).cur().u32().1.fault == Some(e@),
            },
    {
        proof {
            lemma_pow256_values();
        }
        let v: u64 = self.number(4)?;
        Ok(v as u32)
    }

    /// Read a `u64`, little-endian.
    pub fn u64(&mut self) -> (r: Result<u64>)
        requires
            old(self).wf(),
        ensures
            final(self).stands_at(old(self).cur().u64().1),
            match r {
                Ok(v) => old(self).cur().u64() == (v, final(self).cur()),
                Err(e) => old(self).cur().u64().1.fault == Some(e@),
            },
    {
        self.number(8)
    }

    /// Read `n` raw bytes.
    pub fn bytes(&mut self, n: usize) -> (r: Result<&'a [u8]>)
        requires
            old(self).wf(),
        ensures
            final(self).stands_at(old(self).cur().take(n as nat).1),
            match r {
                Ok(b) => old(self).cur().take(n as nat) == (b@, final(self).cur()),
                Err(e) => old(self).cur().take(n as nat).1.fault == Some(e@),
            },
    {
        self.take(n)
    }

    /// Read a `u16`-length-prefixed UTF-8 string.
    pub fn str(&mut self) -> (r: Result<&'a str>)
        requires
            old(self).wf(),
        ensures
            final(self).stands_at(old(self).cur().str().1),
            match r {
                Ok(s) => old(self).cur().str() == (s@, final(self).cur()) && encode_utf8(s@).len()
                    <= 0xffff,
                Err(e) => old(self).cur().str().1.fault == Some(e@),
            },
    {
        let len: u16 = self.u16()?;
        let raw: &'a [u8] = self.take(len as usize)?;
        match text(raw) {
            Some(s) => Ok(s),
            None => Err(Error::format("invalid utf-8 in string")),
        }
    }

    fn varint_from(&mut self, i: u8) -> (r: Result<u128>)
        requires
            old(self).wf(),
            i <= 9,
        ensures
            final(self).stands_at(old(self).cur().varint_from(i as nat).1),
            match r {
                Ok(v) => old(self).cur().varint_from(i as nat) == (v as nat, final(self).cur()) && v
                    < pow128((10 - i) as nat),
                Err(e) => old(self).cur().varint_from(i as nat).1.fault == Some(e@),
            },
        decreases 10 - i,
    {
        proof {
            lemma_pow128_values();
            lemma_pow128_monotone((9 - i) as nat, 9);
            lemma_pow128_monotone(1, (10 - i) as nat);
            reveal_with_fuel(pow128, 2);
        }
        let b: u8 = self.u8()?;
        if b < 128 {
            Ok(b as u128)
        } else if i >= 9 {
            Err(Error::format("varint overlong"))
        } else {
            let hi: u128 = self.varint_from(i + 1)?;
            Ok((b - 128) as u128 + 128 * hi)
        }
    }

    /// Read an unsigned LEB128 varint (max 10 bytes).
    pub fn varint(&mut self) -> (r: Result<u64>)
        requires
            old(self).wf(),
        ensures
            final(self).stands_at(old(self).cur().varint().1),
            match r {
                Ok(v) => old(self).cur().varint() == (v, final(self).cur()),
                Err(e) => old(self).cur().varint().1.fault == Some(e@),
            },
    {
        let v: u128 = self.varint_from(0)?;
        Ok((v % 0x1_0000_0000_0000_0000) as u64)
    }
}

} // verus!
