//! Unsigned integers stored as little endian byte arrays with no alignment,
//! as they are laid out in the encryption store.

use vstd::prelude::*;

verus! {

/// The `n` little endian bytes of `v` (its value modulo `256^n`).
pub open spec fn le_bytes(v: int, n: nat) -> Seq<u8>
    decreases n,
{
    if n == 0 {
        Seq::empty()
    } else {
        seq![(v % 256) as u8] + le_bytes(v / 256, (n - 1) as nat)
    }
}

/// The value of little endian bytes `s`.
pub open spec fn le_value(s: Seq<u8>) -> int
    decreases s.len(),
{
    if s.len() == 0 {
        0
    } else {
        s[0] + 256 * le_value(s.drop_first())
    }
}

pub open spec fn pow256(n: nat) -> int
    decreases n,
{
    if n == 0 {
        1
    } else {
        256 * pow256((n - 1) as nat)
    }
}

/// The bytes of a value in `n` bytes are `n` bytes.
pub proof fn lemma_le_bytes_len(v: int, n: nat)
    ensures
        le_bytes(v, n).len() == n,
    decreases n,
{
    if n > 0 {
        lemma_le_bytes_len(v / 256, (n - 1) as nat);
    }
}

/// Reading back the bytes of a value gives the value, for every value that fits.
pub proof fn lemma_le_value_of_bytes(v: int, n: nat)
    requires
        0 <= v < pow256(n),
    ensures
        le_value(le_bytes(v, n)) == v,
    decreases n,
{
    if n > 0 {
        let s = le_bytes(v, n);
        assert(v / 256 < pow256((n - 1) as nat)) by (nonlinear_arith)
            requires
                0 <= v < 256 * pow256((n - 1) as nat),
        ;
        lemma_le_value_of_bytes(v / 256, (n - 1) as nat);
        assert(s.drop_first() =~= le_bytes(v / 256, (n - 1) as nat));
        assert(v == v % 256 + 256 * (v / 256)) by (nonlinear_arith);
    }
}

/// The bytes of the value of `s` are `s`.
pub proof fn lemma_le_bytes_of_value(s: Seq<u8>)
    ensures
        le_bytes(le_value(s), s.len()) == s,
        0 <= le_value(s) < pow256(s.len()),
    decreases s.len(),
{
    if s.len() > 0 {
        let t = s.drop_first();
        lemma_le_bytes_of_value(t);
        let v = le_value(s);
        let w = le_value(t);
        assert(v % 256 == s[0] && v / 256 == w) by (nonlinear_arith)
            requires
                v == s[0] + 256 * w,
                0 <= s[0] < 256,
        ;
        assert(0 <= v < pow256(s.len())) by (nonlinear_arith)
            requires
                v == s[0] + 256 * w,
                0 <= s[0] < 256,
                0 <= w < pow256(t.len()),
                pow256(s.len()) == 256 * pow256(t.len()),
        ;
        assert(le_bytes(v, s.len()) =~= s);
    }
}

/// A 16-bit unsigned integer.
#[derive(Clone, Copy, Debug)]
pub struct U16(pub [u8; 2]);

/// A 24-bit unsigned integer.
#[derive(Clone, Copy, Debug)]
pub struct U24(pub [u8; 3]);

/// A 32-bit unsigned integer.
#[derive(Clone, Copy, Debug)]
pub struct U32(pub [u8; 4]);

/// A 64-bit unsigned integer.
#[derive(Clone, Copy, Debug)]
pub struct U64(pub [u8; 8]);

impl U16 {
    pub open spec fn value(self) -> int {
        le_value(self.0@)
    }

    pub fn new(v: u16) -> (r: U16)
        ensures
            r.0@ == le_bytes(v as int, 2),
            r.value() == v,
    {
        let r = U16([(v % 256) as u8, (v / 256) as u8]);
        proof {
            reveal_with_fuel(le_bytes, 3);
            assert(r.0@ =~= le_bytes(v as int, 2));
            reveal_with_fuel(pow256, 3);
            lemma_le_value_of_bytes(v as int, 2);
        }
        r
    }

    pub fn get(self) -> (r: u16)
        ensures
            r == self.value(),
    {
        proof {
            reveal_with_fuel(le_value, 3);
        }
        self.0[0] as u16 + 256 * (self.0[1] as u16)
    }
}

impl U24 {
    pub open spec fn value(self) -> int {
        le_value(self.0@)
    }

    pub const MAX: u32 = 0xff_ffff;

    /// The low 24 bits of `v`.
    pub fn new(v: u32) -> (r: U24)
        ensures
            r.0@ == le_bytes(v as int, 3),
            r.value() == v % 0x100_0000,
    {
        let r = U24([(v % 256) as u8, ((v / 256) % 256) as u8, ((v / 0x1_0000) % 256) as u8]);
        proof {
            reveal_with_fuel(le_bytes, 4);
            assert((v / 256) / 256 == v / 0x1_0000);
            assert(r.0@ =~= le_bytes(v as int, 3));
            lemma_le_bytes_of_value(r.0@);
            reveal_with_fuel(le_value, 4);
            assert(le_value(r.0@) == v % 0x100_0000) by (nonlinear_arith)
                requires
                    le_value(r.0@) == (v % 256) + 256 * (((v / 256) % 256) + 256 * ((v / 0x1_0000)
                        % 256)),
            ;
        }
        r
    }

    /// `v` when it fits in 24 bits.
    pub fn try_from(v: u32) -> (r: Option<U24>)
        ensures
            r is Some <==> v <= U24::MAX,
            r matches Some(x) ==> x.value() == v && x.0@ == le_bytes(v as int, 3),
    {
        if v <= U24::MAX {
            Some(U24::new(v))
        } else {
            None
        }
    }

    pub fn get(self) -> (r: u32)
        ensures
            r == self.value(),
    {
        proof {
            reveal_with_fuel(le_value, 4);
        }
        self.0[0] as u32 + 256 * (self.0[1] as u32 + 256 * (self.0[2] as u32))
    }
}

impl U32 {
    pub open spec fn value(self) -> int {
        le_value(self.0@)
    }

    pub fn new(v: u32) -> (r: U32)
        ensures
            r.0@ == le_bytes(v as int, 4),
            r.value() == v,
    {
        let r = U32(
            [
                (v % 256) as u8,
                ((v / 256) % 256) as u8,
                ((v / 0x1_0000) % 256) as u8,
                (v / 0x100_0000) as u8,
            ],
        );
        proof {
            reveal_with_fuel(le_bytes, 5);
            assert((v / 256) / 256 == v / 0x1_0000);
            assert((v / 0x1_0000) / 256 == v / 0x100_0000);
            assert(v / 0x100_0000 < 256);
            assert((v / 0x100_0000) % 256 == v / 0x100_0000);
            assert(r.0@ =~= le_bytes(v as int, 4));
            reveal_with_fuel(pow256, 5);
            lemma_le_value_of_bytes(v as int, 4);
        }
        r
    }

    pub fn get(self) -> (r: u32)
        ensures
            r == self.value(),
    {
        proof {
            reveal_with_fuel(le_value, 5);
        }
        self.0[0] as u32 + 256 * (self.0[1] as u32 + 256 * (self.0[2] as u32 + 256 * (
        self.0[3] as u32)))
    }
}

impl U64 {
    pub open spec fn value(self) -> int {
        le_value(self.0@)
    }

    pub fn new(v: u64) -> (r: U64)
        ensures
            r.0@ == le_bytes(v as int, 8),
            r.value() == v,
    {
        let lo = U32::new((v % 0x1_0000_0000) as u32);
        let hi = U32::new((v / 0x1_0000_0000) as u32);
        let r = U64([lo.0[0], lo.0[1], lo.0[2], lo.0[3], hi.0[0], hi.0[1], hi.0[2], hi.0[3]]);
        proof {
            assert(r.0@ =~= lo.0@ + hi.0@);
            lemma_le_value_concat(lo.0@, hi.0@);
            reveal_with_fuel(pow256, 5);
            assert(v == v % 0x1_0000_0000 + 0x1_0000_0000 * (v / 0x1_0000_0000));
            lemma_le_bytes_of_value(r.0@);
        }
        r
    }

    pub fn get(self) -> (r: u64)
        ensures
            r == self.value(),
    {
        let lo = U32([self.0[0], self.0[1], self.0[2], self.0[3]]).get();
        let hi = U32([self.0[4], self.0[5], self.0[6], self.0[7]]).get();
        proof {
            assert(self.0@ =~= self.0@.subrange(0, 4) + self.0@.subrange(4, 8));
            lemma_le_value_concat(self.0@.subrange(0, 4), self.0@.subrange(4, 8));
            assert(self.0@.subrange(0, 4) =~= seq![self.0[0], self.0[1], self.0[2], self.0[3]]);
            assert(self.0@.subrange(4, 8) =~= seq![self.0[4], self.0[5], self.0[6], self.0[7]]);
            reveal_with_fuel(pow256, 5);
        }
        lo as u64 + 0x1_0000_0000 * (hi as u64)
    }
}

/// The value of two byte strings laid end to end.
pub proof fn lemma_le_value_concat(a: Seq<u8>, b: Seq<u8>)
    ensures
        le_value(a + b) == le_value(a) + pow256(a.len()) * le_value(b),
    decreases a.len(),
{
    if a.len() == 0 {
        assert(a + b =~= b);
    } else {
        let t = a.drop_first();
        lemma_le_value_concat(t, b);
        assert((a + b).drop_first() =~= t + b);
        let (x, y, p) = (le_value(t), le_value(b), pow256(t.len()));
        assert(a[0] + 256 * (x + p * y) == (a[0] + 256 * x) + (256 * p) * y) by (nonlinear_arith);
    }
}

} // verus!
