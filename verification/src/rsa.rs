//! RSA public keys (PKCS#1, DER or PEM) and the raw RSA decryption of the
//! archive headers: each block of `len(n)` bytes is a big-endian number `c`
//! replaced by `c^e mod n` in `len(n) - 1` bytes.

use malachite::base::num::arithmetic::traits::ModPow;
use malachite::base::num::conversion::traits::PowerOf2Digits;
use base64::Engine;
use malachite::Natural;
use vstd::arithmetic::power::pow;
use vstd::prelude::*;

use crate::archives::chars_of;

verus! {

#[verifier::external_type_specification]
#[verifier::external_body]
pub struct ExBase64DecodeError(base64::DecodeError);

/// Why a key could not be read.
#[derive(Debug)]
pub enum KeyDecodeError {
    Base64(base64::DecodeError),
    /// A malformed DER sequence or encoding.
    Der,
}

/// Why data could not be decrypted.
#[derive(Clone, Copy, Debug, PartialEq, Eq, Structural)]
pub enum DecryptError {
    /// The input is not a whole number of blocks of this size.
    Size(usize),
    /// A block is not reduced modulo `n`.
    Base,
}

/// The big-endian value of `s`.
pub open spec fn be_value(s: Seq<u8>) -> nat
    decreases s.len(),
{
    if s.len() == 0 {
        0
    } else {
        be_value(s.drop_last()) * 256 + s.last() as nat
    }
}

/// No leading zero byte.
pub open spec fn minimal(s: Seq<u8>) -> bool {
    s.len() == 0 || s[0] != 0
}

/// The last `len` bytes of `s`, zero-padded in front where `s` is shorter.
pub open spec fn fit(s: Seq<u8>, len: nat) -> Seq<u8> {
    if s.len() >= len {
        s.subrange(s.len() - len, s.len() as int)
    } else {
        Seq::new((len - s.len()) as nat, |i: int| 0u8) + s
    }
}

/// `c^e mod n` for numbers given as big-endian bytes, by
/// `malachite::Natural::mod_pow`, the bytes converted with
/// `PowerOf2Digits::from_power_of_2_digits_desc` and back with
/// `to_power_of_2_digits_desc` (base 2^8). The contract restates malachite's
/// documentation: the result is `c^e mod n`, in digits with no leading zero.
#[verifier::external_body]
fn mod_pow_be(c: &[u8], e: &[u8], n: &[u8]) -> (r: Vec<u8>)
    requires
        be_value(c@) < be_value(n@),
    ensures
        be_value(r@) == pow(be_value(c@) as int, be_value(e@)) % (be_value(n@) as int),
        minimal(r@),
{
    let c = Natural::from_power_of_2_digits_desc(8, c.iter().copied()).unwrap();
    let e = Natural::from_power_of_2_digits_desc(8, e.iter().copied()).unwrap();
    let n = Natural::from_power_of_2_digits_desc(8, n.iter().copied()).unwrap();
    (&c).mod_pow(&e, &n).to_power_of_2_digits_desc(8)
}

/// Whether `a >= b` as numbers, by `PartialOrd` on `malachite::Natural`
/// (the bytes converted as in `mod_pow_be`).
#[verifier::external_body]
fn natural_ge(a: &[u8], b: &[u8]) -> (r: bool)
    ensures
        r == (be_value(a@) >= be_value(b@)),
{
    let a: Natural = Natural::from_power_of_2_digits_desc(8, a.iter().copied()).unwrap();
    let b: Natural = Natural::from_power_of_2_digits_desc(8, b.iter().copied()).unwrap();
    a >= b
}

/// The bytes that standard base64 (with padding) decodes `s` to, if it is
/// valid base64.
pub uninterp spec fn base64_standard(s: Seq<char>) -> Option<Seq<u8>>;

/// Decodes `s` with `base64::engine::general_purpose::STANDARD`; the result
/// is named `base64_standard` of the input.
#[verifier::external_body]
fn base64_decode(s: &str) -> (r: Result<Vec<u8>, base64::DecodeError>)
    ensures
        match r {
            Ok(v) => base64_standard(s@) == Some(v@),
            Err(_) => base64_standard(s@) is None,
        },
{
    base64::engine::general_purpose::STANDARD.decode(s)
}

pub const DER_INT: u8 = 0x02;

pub const DER_SEQ: u8 = 0x30;

/// Big-endian bytes folded into a word, high bits shifted out.
pub open spec fn wrap_be(s: Seq<u8>) -> int
    decreases s.len(),
{
    if s.len() == 0 {
        0
    } else {
        (wrap_be(s.drop_last()) * 256 + s.last()) % (usize::MAX as int + 1)
    }
}

/// A DER length at `pos`: its value and where it ends.
pub open spec fn der_length(der: Seq<u8>, pos: int) -> Option<(int, int)> {
    if pos < 0 || pos >= der.len() {
        None
    } else if der[pos] < 0x80 {
        Some((der[pos] as int, pos + 1))
    } else {
        let k = der[pos] - 0x80;
        if pos + 1 + k > der.len() {
            None
        } else {
            Some((wrap_be(der.subrange(pos + 1, pos + 1 + k)), pos + 1 + k))
        }
    }
}

proof fn lemma_wrap_be(s: Seq<u8>)
    ensures
        wrap_be(s) == (be_value(s) as int) % (usize::MAX as int + 1),
    decreases s.len(),
{
    if s.len() > 0 {
        let r = usize::MAX as int + 1;
        let init = s.drop_last();
        lemma_wrap_be(init);
        let bi = be_value(init) as int;
        let l = s.last() as int;
        assert(wrap_be(s) == (wrap_be(init) * 256 + l) % r);
        assert(be_value(s) as int == bi * 256 + l);
        vstd::arithmetic::div_mod::lemma_mul_mod_noop_left(bi, 256, r);
        vstd::arithmetic::div_mod::lemma_add_mod_noop((bi % r) * 256, l, r);
        vstd::arithmetic::div_mod::lemma_add_mod_noop(bi * 256, l, r);
        assert(((bi % r) * 256) % r == (bi * 256) % r);
    } else {
        vstd::arithmetic::div_mod::lemma_small_mod(0, (usize::MAX as int + 1) as nat);
    }
}

/// A DER length: in short form (a first byte below `0x80`) that byte; in
/// long form (`0x80 + k`, then `k` bytes) the big-endian value of those `k`
/// bytes, whenever it fits in a `usize`. The length ends after its bytes.
pub proof fn lemma_der_length_value(der: Seq<u8>, pos: int)
    requires
        0 <= pos < der.len(),
    ensures
        der[pos] < 0x80 ==> der_length(der, pos) == Some((der[pos] as int, pos + 1)),
        ({
            let k = der[pos] - 0x80;
            let v = be_value(der.subrange(pos + 1, pos + 1 + k)) as int;
            der[pos] >= 0x80 && pos + 1 + k <= der.len() && v <= usize::MAX ==> der_length(der, pos)
                == Some((v, pos + 1 + k))
        }),
        der[pos] >= 0x80 && pos + 1 + (der[pos] - 0x80) > der.len() ==> der_length(der, pos) is None,
{
    if der[pos] >= 0x80 {
        let k = der[pos] - 0x80;
        if pos + 1 + k <= der.len() {
            let t = der.subrange(pos + 1, pos + 1 + k);
            lemma_wrap_be(t);
            if be_value(t) <= usize::MAX {
                vstd::arithmetic::div_mod::lemma_small_mod(be_value(t) as nat, (usize::MAX as int + 1) as nat);
            }
        }
    }
}

/// A DER integer at `pos`: where its content starts and ends, one leading
/// zero byte dropped. A zero length followed by a zero byte is refused.
pub open spec fn der_integer(der: Seq<u8>, pos: int) -> Option<(int, int)> {
    if pos < 0 || pos >= der.len() || der[pos] != DER_INT {
        None
    } else {
        match der_length(der, pos + 1) {
            None => None,
            Some((len, p)) => {
                let (start, len2) = if p < der.len() && der[p] == 0 {
                    (p + 1, len - 1)
                } else {
                    (p, len)
                };
                if len2 < 0 || start + len2 > der.len() {
                    None
                } else {
                    Some((start, start + len2))
                }
            },
        }
    }
}

/// A public key: modulus and exponent as big-endian bytes.
#[derive(Clone, Debug)]
pub struct RsaKey {
    n: Vec<u8>,
    e: Vec<u8>,
    len: usize,
}

fn read_der_length(der: &[u8], pos: usize) -> (r: Option<(usize, usize)>)
    ensures
        match der_length(der@, pos as int) {
            None => r is None,
            Some((v, p)) => r == Some((v as usize, p as usize)),
        },
{
    let n = der.len();
    if pos >= n {
        return None;
    }
    let first = der[pos];
    if first < 0x80 {
        return Some((first as usize, pos + 1));
    }
    let k = (first - 0x80) as usize;
    if k > n - pos - 1 {
        return None;
    }
    let mut length: usize = 0;
    let mut i = pos + 1;
    while i < pos + 1 + k
        invariant
            pos + 1 <= i <= pos + 1 + k <= n,
            n == der@.len(),
            length == wrap_be(der@.subrange(pos + 1, i as int)),
        decreases pos + 1 + k - i,
    {
        let b = der[i];
        proof {
            let s = der@.subrange(pos + 1, i + 1);
            assert(s.drop_last() =~= der@.subrange(pos + 1, i as int));
            assert(s.last() == b);
        }
        let ghost x = length as int;
        length = length.wrapping_mul(256).wrapping_add(b as usize);
        proof {
            let r = usize::MAX as int + 1;
            vstd::arithmetic::div_mod::lemma_add_mod_noop(x * 256, b as int, r);
            assert((b as int) % r == b);
            let m1 = (x * 256) % r;
            assert(0 <= m1 < r);
            if m1 + b < r {
                assert((m1 + b) % r == m1 + b);
            } else {
                assert((m1 + b) % r == m1 + b - r);
            }
        }
        i = i + 1;
    }
    Some((length, pos + 1 + k))
}

fn read_der_integer(der: &[u8], pos: usize) -> (r: Option<(usize, usize)>)
    ensures
        match der_integer(der@, pos as int) {
            None => r is None,
            Some((s, e)) => r == Some((s as usize, e as usize)),
        },
{
    let n = der.len();
    if pos >= n || der[pos] != DER_INT {
        return None;
    }
    let (len, p) = match read_der_length(der, pos + 1) {
        Some(x) => x,
        None => {
            return None;
        },
    };
    let (start, len2) = if p < n && der[p] == 0 {
        if len == 0 {
            return None;
        }
        (p + 1, len - 1)
    } else {
        (p, len)
    };
    if start > n || len2 > n - start {
        return None;
    }
    Some((start, start + len2))
}

fn copy_range(der: &[u8], start: usize, end: usize) -> (r: Vec<u8>)
    requires
        start <= end <= der@.len(),
    ensures
        r@ == der@.subrange(start as int, end as int),
{
    let mut out: Vec<u8> = Vec::new();
    let mut i = start;
    while i < end
        invariant
            start <= i <= end <= der@.len(),
            out@ == der@.subrange(start as int, i as int),
        decreases end - i,
    {
        out.push(der[i]);
        i = i + 1;
        assert(out@ =~= der@.subrange(start as int, i as int));
    }
    out
}

/// The key a DER encoding holds: a sequence (its length unchecked) of the
/// modulus then the exponent.
pub open spec fn spec_der_key(der: Seq<u8>) -> Option<(Seq<u8>, Seq<u8>)> {
    if der.len() == 0 || der[0] != DER_SEQ {
        None
    } else {
        match der_length(der, 1) {
            None => None,
            Some((_, p)) => match der_integer(der, p) {
                None => None,
                Some((ns, ne)) => match der_integer(der, ne) {
                    None => None,
                    Some((es, ee)) => if ne - ns == 0 {
                        None
                    } else {
                        Some((der.subrange(ns, ne), der.subrange(es, ee)))
                    },
                },
            },
        }
    }
}

/// Keeps the lines of `pem` that do not start with `-----`, joined.
pub open spec fn pem_body(pem: Seq<char>) -> Seq<char> {
    joined_kept(lines_of(pem))
}

/// The lines of `s` (`str::lines`): split at `\n`, a `\r` before it dropped,
/// no last empty line after a final newline.
pub open spec fn lines_of(s: Seq<char>) -> Seq<Seq<char>>
    decreases s.len(),
{
    if s.len() == 0 {
        Seq::empty()
    } else {
        match first_newline(s, 0) {
            None => seq![s],
            Some(i) => if 0 <= i < s.len() {
                seq![strip_cr(s.subrange(0, i))] + lines_of(s.subrange(i + 1, s.len() as int))
            } else {
                Seq::empty()
            },
        }
    }
}

pub open spec fn first_newline(s: Seq<char>, from: int) -> Option<int>
    decreases s.len() - from,
{
    if from < 0 || from >= s.len() {
        None
    } else if s[from] == '\n' {
        Some(from)
    } else {
        first_newline(s, from + 1)
    }
}

pub open spec fn strip_cr(l: Seq<char>) -> Seq<char> {
    if l.len() > 0 && l.last() == '\r' {
        l.drop_last()
    } else {
        l
    }
}

pub open spec fn is_boundary_line(l: Seq<char>) -> bool {
    l.len() >= 5 && l[0] == '-' && l[1] == '-' && l[2] == '-' && l[3] == '-' && l[4] == '-'
}

pub open spec fn kept_line(l: Seq<char>) -> Seq<char> {
    if is_boundary_line(l) {
        Seq::empty()
    } else {
        l
    }
}

pub open spec fn joined_kept(ls: Seq<Seq<char>>) -> Seq<char>
    decreases ls.len(),
{
    if ls.len() == 0 {
        Seq::empty()
    } else {
        kept_line(ls[0]) + joined_kept(ls.drop_first())
    }
}

impl RsaKey {
    pub closed spec fn modulus(&self) -> Seq<u8> {
        self.n@
    }

    pub closed spec fn exponent(&self) -> Seq<u8> {
        self.e@
    }

    pub closed spec fn wf(&self) -> bool {
        self.len == self.n@.len() && self.len > 0
    }

    /// The size of an encrypted block: the bytes of the modulus.
    pub fn in_block_len(&self) -> (r: usize)
        requires
            self.wf(),
        ensures
            r == self.modulus().len(),
    {
        self.len
    }

    /// The size of a decrypted block: one byte less.
    pub fn out_block_len(&self) -> (r: usize)
        requires
            self.wf(),
        ensures
            r == self.modulus().len() - 1,
    {
        self.len - 1
    }

    /// Reads a PKCS#1 public key in DER.
    pub fn decode_from_der(der: &[u8]) -> (r: Result<RsaKey, KeyDecodeError>)
        ensures
            match spec_der_key(der@) {
                None => r matches Err(KeyDecodeError::Der),
                Some((n, e)) => r matches Ok(k) && k.wf() && k.modulus() == n && k.exponent() == e,
            },
    {
        if der.len() == 0 || der[0] != DER_SEQ {
            return Err(KeyDecodeError::Der);
        }
        let p = match read_der_length(der, 1) {
            Some((_, p)) => p,
            None => {
                return Err(KeyDecodeError::Der);
            },
        };
        let (ns, ne) = match read_der_integer(der, p) {
            Some(x) => x,
            None => {
                return Err(KeyDecodeError::Der);
            },
        };
        let (es, ee) = match read_der_integer(der, ne) {
            Some(x) => x,
            None => {
                return Err(KeyDecodeError::Der);
            },
        };
        if ne - ns == 0 {
            return Err(KeyDecodeError::Der);
        }
        let n = copy_range(der, ns, ne);
        let e = copy_range(der, es, ee);
        Ok(RsaKey { n, e, len: ne - ns })
    }

    /// Reads a PKCS#1 public key in PEM: the lines between the boundary
    /// lines, base64-decoded, then as DER.
    pub fn decode_from_pem(pem: &str) -> (r: Result<RsaKey, KeyDecodeError>)
        ensures
            match base64_standard(pem_body(pem@)) {
                None => r matches Err(KeyDecodeError::Base64(_)),
                Some(der) => match spec_der_key(der) {
                    None => r matches Err(KeyDecodeError::Der),
                    Some((n, e)) => r matches Ok(k) && k.wf() && k.modulus() == n && k.exponent()
                        == e,
                },
            },
    {
        let body = pem_body_exec(pem);
        match base64_decode(body.as_str()) {
            Err(e) => Err(KeyDecodeError::Base64(e)),
            Ok(der) => RsaKey::decode_from_der(der.as_slice()),
        }
    }

    /// Decrypts one block into `out`: the low bytes of `c^e mod n`.
    pub fn decrypt_block_in(&self, block: &[u8], out: &mut Vec<u8>) -> (r: Result<(), DecryptError>)
        requires
            self.wf(),
        ensures
            block@.len() != self.modulus().len() ==> r == Err::<(), DecryptError>(
                DecryptError::Size(self.modulus().len() as usize),
            ) && final(out)@ == old(out)@,
            block@.len() == self.modulus().len() && be_value(block@) >= be_value(self.modulus())
                ==> r == Err::<(), DecryptError>(DecryptError::Base) && final(out)@ == old(out)@,
            block@.len() == self.modulus().len() && be_value(block@) < be_value(self.modulus())
                ==> r is Ok && final(out)@ == fit(
                decrypted(block@, self.exponent(), self.modulus()),
                old(out)@.len(),
            ),
    {
        let in_block_len = self.in_block_len();
        if block.len() != in_block_len {
            return Err(DecryptError::Size(in_block_len));
        }
        if natural_ge(block, self.n.as_slice()) {
            return Err(DecryptError::Base);
        }
        let m = mod_pow_be(block, self.e.as_slice(), self.n.as_slice());
        proof {
            lemma_decrypted(block@, self.e@, self.n@, m@);
        }
        let len = out.len();
        write_fit(out, 0, &m, len);
        proof {
            assert(out@ =~= fit(m@, len as nat));
        }
        Ok(())
    }

    /// Decrypts whole blocks in place, the decrypted blocks packed at the
    /// front; returns their total length. On a block not reduced modulo `n`
    /// the blocks before it stay decrypted.
    pub fn decrypt_blocks_in_place(&self, blocks: &mut Vec<u8>) -> (r: Result<usize, DecryptError>)
        requires
            self.wf(),
        ensures
            ({
                let il = self.modulus().len() as int;
                let b = old(blocks)@;
                let count = (b.len() as int) / il;
                if (b.len() as int) % il != 0 {
                    r == Err::<usize, DecryptError>(DecryptError::Size(il as usize))
                        && final(blocks)@ == b
                } else {
                    match first_unreduced(b, self.modulus(), 0, count) {
                        Some(k) => r == Err::<usize, DecryptError>(DecryptError::Base)
                            && final(blocks)@ == processed(b, self.exponent(), self.modulus(), k),
                        None => r == Ok::<usize, DecryptError>((count * (il - 1)) as usize)
                            && final(blocks)@ == processed(
                            b,
                            self.exponent(),
                            self.modulus(),
                            count,
                        ),
                    }
                }
            }),
    {
        let il = self.in_block_len();
        let ol = self.out_block_len();
        let len = blocks.len();
        if len % il != 0 {
            return Err(DecryptError::Size(il));
        }
        let count = len / il;
        let ghost b = blocks@;
        let ghost e = self.e@;
        let ghost n = self.n@;
        let mut k: usize = 0;
        while k < count
            invariant
                k <= count,
                count == (len as int) / (il as int),
                (len as int) % (il as int) == 0,
                len == b.len(),
                b == old(blocks)@,
                il == n.len(),
                ol == il - 1,
                il > 0,
                e == self.e@,
                n == self.n@,
                blocks@ == processed(b, e, n, k as int),
                blocks@.len() == len,
                first_unreduced(b, n, 0, count as int) == first_unreduced(b, n, k as int, count as int),
            decreases count - k,
        {
            assert(k * il + il <= len) by (nonlinear_arith)
                requires
                    k < count,
                    count == (len as int) / (il as int),
                    (len as int) % (il as int) == 0,
                    il > 0,
                    len >= 0,
            ;
            let start = k * il;
            proof {
                assert((k + 1) * il == k * il + il) by (nonlinear_arith);
                lemma_processed_keeps_input(b, e, n, k as int);
            }
            let block = copy_range(blocks.as_slice(), start, start + il);
            assert(block@ == in_block(b, il as int, k as int));
            if natural_ge(block.as_slice(), self.n.as_slice()) {
                assert(first_unreduced(b, n, k as int, count as int) == Some(k as int));
                return Err(DecryptError::Base);
            }
            let m = mod_pow_be(block.as_slice(), self.e.as_slice(), self.n.as_slice());
            proof {
                lemma_decrypted(block@, e, n, m@);
            }
            assert(k * ol + ol <= k * il + il) by (nonlinear_arith)
                requires
                    ol == il - 1,
                    k >= 0,
                    il > 0,
            ;
            write_fit(blocks, k * ol, &m, ol);
            k = k + 1;
        }
        assert(count * ol <= len) by (nonlinear_arith)
            requires
                ol == il - 1,
                count == (len as int) / (il as int),
                il > 0,
                len >= 0,
        ;
        Ok(count * ol)
    }
}

/// Writes `fit(m, len)` over `out[at..at + len]`.
fn write_fit(out: &mut Vec<u8>, at: usize, m: &Vec<u8>, len: usize)
    requires
        at + len <= old(out)@.len(),
    ensures
        final(out)@ == old(out)@.subrange(0, at as int) + fit(m@, len as nat) + old(out)@.subrange(
            at + len,
            old(out)@.len() as int,
        ),
{
    let n = out.len();
    let ml = m.len();
    let mut i: usize = 0;
    while i < len
        invariant
            i <= len,
            at + len <= n,
            n == out@.len(),
            n == old(out)@.len(),
            ml == m@.len(),
            out@ == old(out)@.subrange(0, at as int) + fit(m@, len as nat).subrange(0, i as int)
                + old(out)@.subrange(at + i, n as int),
        decreases len - i,
    {
        let b = if ml >= len {
            m[ml - len + i]
        } else if i < len - ml {
            0
        } else {
            m[i - (len - ml)]
        };
        assert(b == fit(m@, len as nat)[i as int]);
        out[at + i] = b;
        i = i + 1;
        assert(out@ =~= old(out)@.subrange(0, at as int) + fit(m@, len as nat).subrange(0, i as int)
            + old(out)@.subrange(at + i, n as int));
    }
    assert(fit(m@, len as nat).subrange(0, len as int) =~= fit(m@, len as nat));
}

/// The text of a PEM file without its boundary lines.
fn pem_body_exec(pem: &str) -> (r: String)
    ensures
        r@ == pem_body(pem@),
{
    let cs = chars_of(pem);
    let n = cs.len();
    let mut out: Vec<char> = Vec::new();
    let mut start: usize = 0;
    assert(cs@.subrange(0, n as int) =~= cs@);
    assert(out@ + pem_body(cs@) =~= pem_body(cs@));
    while start < n
        invariant
            start <= n,
            n == cs@.len(),
            out@ + pem_body(cs@.subrange(start as int, n as int)) == pem_body(cs@),
        decreases n - start,
    {
        let ghost rest = cs@.subrange(start as int, n as int);
        let mut e = start;
        while e < n && cs[e] != '\n'
            invariant
                start <= e <= n,
                n == cs@.len(),
                rest == cs@.subrange(start as int, n as int),
                first_newline(rest, 0) == first_newline(rest, e - start),
            decreases n - e,
        {
            e = e + 1;
        }
        let end2 = if e < n && e > start && cs[e - 1] == '\r' {
            e - 1
        } else {
            e
        };
        let boundary = end2 - start >= 5 && cs[start] == '-' && cs[start + 1] == '-' && cs[start
            + 2] == '-' && cs[start + 3] == '-' && cs[start + 4] == '-';
        let ghost before = out@;
        if !boundary {
            let mut k = start;
            while k < end2
                invariant
                    start <= k <= end2 <= n,
                    n == cs@.len(),
                    out@ == before + cs@.subrange(start as int, k as int),
                decreases end2 - k,
            {
                out.push(cs[k]);
                k = k + 1;
                assert(out@ =~= before + cs@.subrange(start as int, k as int));
            }
        }
        let ghost line = cs@.subrange(start as int, end2 as int);
        proof {
            assert(out@ == before + kept_line(line)) by {
                if !boundary {
                    assert(!is_boundary_line(line));
                } else {
                    assert(is_boundary_line(line));
                    assert(out@ =~= before + Seq::<char>::empty());
                }
            }
            lemma_first_newline_range(rest, 0);
        }
        if e < n {
            proof {
                let nl = e - start;
                assert(first_newline(rest, nl as int) == Some(nl as int));
                assert(rest.subrange(0, nl as int) =~= cs@.subrange(start as int, e as int));
                assert(rest.subrange(nl + 1, rest.len() as int) =~= cs@.subrange(e + 1, n as int));
                if end2 < e {
                    assert(line =~= strip_cr(cs@.subrange(start as int, e as int)));
                } else {
                    assert(line =~= strip_cr(cs@.subrange(start as int, e as int)));
                }
                let ls = lines_of(rest);
                assert(ls[0] == line);
                assert(ls.drop_first() =~= lines_of(cs@.subrange(e + 1, n as int)));
            }
            start = e + 1;
        } else {
            proof {
                assert(first_newline(rest, e - start) is None);
                assert(line =~= rest);
                let ls = lines_of(rest);
                assert(ls =~= seq![rest]);
                assert(ls.drop_first() =~= Seq::<Seq<char>>::empty());
                assert(out@ + pem_body(cs@.subrange(n as int, n as int)) =~= out@);
            }
            start = n;
        }
    }
    proof {
        assert(cs@.subrange(n as int, n as int) =~= Seq::<char>::empty());
        assert(lines_of(Seq::<char>::empty()) =~= Seq::<Seq<char>>::empty());
        assert(out@ + Seq::<char>::empty() =~= out@);
    }
    crate::archives::string_of(&out)
}

proof fn lemma_first_newline_range(s: Seq<char>, from: int)
    ensures
        first_newline(s, from) matches Some(i) ==> from <= i < s.len() && s[i] == '\n',
    decreases s.len() - from,
{
    if 0 <= from < s.len() && s[from] != '\n' {
        lemma_first_newline_range(s, from + 1);
    }
}

/// Numbers have one representation without leading zeros.
pub proof fn lemma_minimal_unique(a: Seq<u8>, b: Seq<u8>)
    requires
        minimal(a),
        minimal(b),
        be_value(a) == be_value(b),
    ensures
        a == b,
    decreases a.len() + b.len(),
{
    if a.len() == 0 {
        lemma_zero_value(b);
    } else if b.len() == 0 {
        lemma_zero_value(a);
    } else {
        let (a1, b1) = (a.drop_last(), b.drop_last());
        assert(a.last() == b.last() && be_value(a1) == be_value(b1)) by (nonlinear_arith)
            requires
                be_value(a1) * 256 + a.last() == be_value(b1) * 256 + b.last(),
                0 <= a.last() < 256,
                0 <= b.last() < 256,
        ;
        if a1.len() > 0 {
            assert(a1[0] == a[0]);
        }
        if b1.len() > 0 {
            assert(b1[0] == b[0]);
        }
        lemma_minimal_unique(a1, b1);
        assert(a =~= a1.push(a.last()));
        assert(b =~= b1.push(b.last()));
    }
}

proof fn lemma_zero_value(s: Seq<u8>)
    requires
        minimal(s),
        be_value(s) == 0,
    ensures
        s.len() == 0,
    decreases s.len(),
{
    if s.len() > 0 {
        let s1 = s.drop_last();
        assert(be_value(s1) == 0 && s.last() == 0) by (nonlinear_arith)
            requires
                be_value(s1) * 256 + s.last() == 0,
                be_value(s1) >= 0,
                s.last() >= 0,
        ;
        if s1.len() > 0 {
            assert(s1[0] == s[0]);
            lemma_zero_value(s1);
        }
    }
}


/// The digits, with no leading zero, of `v`.
pub open spec fn digits_of(v: int) -> Seq<u8> {
    choose|m: Seq<u8>| minimal(m) && be_value(m) == v
}

/// The digits of `c^e mod n`.
pub open spec fn decrypted(c: Seq<u8>, e: Seq<u8>, n: Seq<u8>) -> Seq<u8> {
    digits_of(pow(be_value(c) as int, be_value(e)) % (be_value(n) as int))
}

proof fn lemma_decrypted(c: Seq<u8>, e: Seq<u8>, n: Seq<u8>, m: Seq<u8>)
    requires
        minimal(m),
        be_value(m) == pow(be_value(c) as int, be_value(e)) % (be_value(n) as int),
    ensures
        decrypted(c, e, n) == m,
{
    let v = pow(be_value(c) as int, be_value(e)) % (be_value(n) as int);
    let d = digits_of(v);
    assert(minimal(m) && be_value(m) == v);
    lemma_minimal_unique(d, m);
}

/// Encrypted block `k` of `b`, blocks being `il` bytes.
pub open spec fn in_block(b: Seq<u8>, il: int, k: int) -> Seq<u8> {
    b.subrange(k * il, k * il + il)
}

/// The first block from `k` on (before `count`) not reduced modulo `n`.
pub open spec fn first_unreduced(b: Seq<u8>, n: Seq<u8>, k: int, count: int) -> Option<int>
    decreases count - k,
{
    if k < 0 || k >= count {
        None
    } else if be_value(in_block(b, n.len() as int, k)) >= be_value(n) {
        Some(k)
    } else {
        first_unreduced(b, n, k + 1, count)
    }
}

/// `b` after decrypting its first `k` blocks, each written `len(n) - 1`
/// bytes after the one before.
pub open spec fn processed(b: Seq<u8>, e: Seq<u8>, n: Seq<u8>, k: int) -> Seq<u8>
    decreases k,
{
    if k <= 0 {
        b
    } else {
        let p = processed(b, e, n, k - 1);
        let il = n.len() as int;
        let ol = il - 1;
        p.subrange(0, (k - 1) * ol) + fit(
            decrypted(in_block(b, il, k - 1), e, n),
            ol as nat,
        ) + p.subrange((k - 1) * ol + ol, p.len() as int)
    }
}

/// Decrypting the first `k` blocks leaves the later encrypted blocks and the
/// length as they were.
proof fn lemma_processed_keeps_input(b: Seq<u8>, e: Seq<u8>, n: Seq<u8>, k: int)
    requires
        k >= 0,
        n.len() > 0,
        (k + 1) * n.len() <= b.len(),
    ensures
        processed(b, e, n, k).len() == b.len(),
        processed(b, e, n, k).subrange(k * n.len(), k * n.len() + n.len()) == in_block(
            b,
            n.len() as int,
            k,
        ),
    decreases k,
{
    let il = n.len() as int;
    let ol = il - 1;
    assert(k * ol <= k * il && k * il + il <= b.len()) by (nonlinear_arith)
        requires
            k >= 0,
            ol == il - 1,
            il > 0,
            (k + 1) * il <= b.len(),
    ;
    lemma_processed_tail(b, e, n, k);
    let p = processed(b, e, n, k);
    assert(p.subrange(k * il, k * il + il) =~= in_block(b, il, k));
}

proof fn lemma_processed_tail(b: Seq<u8>, e: Seq<u8>, n: Seq<u8>, k: int)
    requires
        k >= 0,
        n.len() > 0,
        k * (n.len() - 1) <= b.len(),
    ensures
        processed(b, e, n, k).len() == b.len(),
        forall|i: int|
            k * (n.len() - 1) <= i < b.len() ==> #[trigger] processed(b, e, n, k)[i] == b[i],
    decreases k,
{
    if k > 0 {
        let il = n.len() as int;
        let ol = il - 1;
        assert((k - 1) * ol <= k * ol && (k - 1) * ol + ol == k * ol) by (nonlinear_arith)
            requires
                k >= 1,
                ol >= 0,
        ;
        lemma_processed_tail(b, e, n, k - 1);
        let p = processed(b, e, n, k - 1);
        let q = processed(b, e, n, k);
        assert forall|i: int| k * ol <= i < b.len() implies #[trigger] q[i] == b[i] by {
            assert(q[i] == p[i]);
        }
    }
}
} // verus!
