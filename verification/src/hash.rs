//! Multiply-add ("MAD") path hashes used by BHD5 archives to name files.
//!
//! A path hashes to `h(p) = fold(init, |h, c| h * PRIME + normalize(c))` in the
//! wrapping arithmetic of `u32` or `u64`, where `normalize` lowercases ASCII and
//! maps `\` to `/`.

use std::collections::HashMap;

use vstd::prelude::*;
use vstd::string::StringSliceAdditionalSpecFns;
use vstd::utf8::encode_utf8;

use crate::archives::chars_of;

verus! {

pub const PRIME_32: u32 = 37;

pub const PRIME_64: u64 = 133;

/// ASCII lowercase, with backslashes turned into forward slashes.
pub open spec fn spec_normalize(c: u8) -> u8 {
    if 65 <= c && c <= 90 {
        (c + 32) as u8
    } else if c == 92 {
        47u8
    } else {
        c
    }
}

/// The hash of `bytes` started from `init`, in arithmetic modulo `modulus`.
pub open spec fn mad_fold(init: int, bytes: Seq<u8>, prime: int, modulus: int) -> int
    decreases bytes.len(),
{
    if bytes.len() == 0 {
        init
    } else {
        (mad_fold(init, bytes.drop_last(), prime, modulus) * prime + spec_normalize(
            bytes.last(),
        ) as int) % modulus
    }
}

/// The same fold without any reduction: a Horner evaluation.
pub open spec fn horner(init: int, bytes: Seq<u8>, prime: int) -> int
    decreases bytes.len(),
{
    if bytes.len() == 0 {
        init
    } else {
        horner(init, bytes.drop_last(), prime) * prime + spec_normalize(bytes.last()) as int
    }
}

pub open spec fn pow_spec(base: int, e: nat) -> int
    decreases e,
{
    if e == 0 {
        1
    } else {
        base * pow_spec(base, (e - 1) as nat)
    }
}

/// `sum_{t < j} normalize(c[t]) * prime^(n - 1 - t)`: the dot product of the
/// first `j` bytes of a chunk of `n` bytes with the descending powers.
pub open spec fn weighted(c: Seq<u8>, j: nat, n: nat, prime: int) -> int
    decreases j,
{
    if j == 0 {
        0
    } else {
        weighted(c, (j - 1) as nat, n, prime) + spec_normalize(c[j - 1]) as int * pow_spec(
            prime,
            (n - j) as nat,
        )
    }
}

pub fn normalize(c: u8) -> (r: u8)
    ensures
        r == spec_normalize(c),
{
    if c >= 65 && c <= 90 {
        assert(c | 32 == c + 32) by (bit_vector)
            requires
                65 <= c <= 90,
        ;
        c | 32
    } else if c == 92 {
        47
    } else {
        c
    }
}

/// Hashing `s ++ c` is hashing `c` from the hash of `s`.
pub proof fn lemma_mad_fold_append(init: int, s: Seq<u8>, c: Seq<u8>, prime: int, modulus: int)
    ensures
        mad_fold(init, s + c, prime, modulus) == mad_fold(
            mad_fold(init, s, prime, modulus),
            c,
            prime,
            modulus,
        ),
    decreases c.len(),
{
    if c.len() == 0 {
        assert(s + c =~= s);
    } else {
        lemma_mad_fold_append(init, s, c.drop_last(), prime, modulus);
        assert((s + c).drop_last() =~= s + c.drop_last());
        assert((s + c).last() == c.last());
    }
}

/// The reduced fold is the Horner evaluation reduced once at the end.
pub proof fn lemma_mad_fold_horner(init: int, c: Seq<u8>, prime: int, modulus: int)
    requires
        0 <= init < modulus,
    ensures
        mad_fold(init, c, prime, modulus) == horner(init, c, prime) % modulus,
    decreases c.len(),
{
    if c.len() == 0 {
        vstd::arithmetic::div_mod::lemma_small_mod(init as nat, modulus as nat);
    } else {
        lemma_mad_fold_horner(init, c.drop_last(), prime, modulus);
        let h = horner(init, c.drop_last(), prime);
        let nb = spec_normalize(c.last()) as int;
        vstd::arithmetic::div_mod::lemma_mul_mod_noop_left(h, prime, modulus);
        vstd::arithmetic::div_mod::lemma_add_mod_noop((h % modulus) * prime, nb, modulus);
        vstd::arithmetic::div_mod::lemma_add_mod_noop(h * prime, nb, modulus);
    }
}

/// A Horner evaluation splits into the shifted start value and the evaluation from zero.
pub proof fn lemma_horner_shift(init: int, c: Seq<u8>, prime: int)
    ensures
        horner(init, c, prime) == init * pow_spec(prime, c.len()) + horner(0, c, prime),
    decreases c.len(),
{
    if c.len() > 0 {
        lemma_horner_shift(init, c.drop_last(), prime);
        let a = init;
        let b = pow_spec(prime, (c.len() - 1) as nat);
        let z = horner(0, c.drop_last(), prime);
        assert((a * b + z) * prime == a * (prime * b) + z * prime) by (nonlinear_arith);
    }
}

/// The partial dot product is the Horner value of the prefix scaled by the
/// powers still missing.
pub proof fn lemma_weighted_horner(c: Seq<u8>, j: nat, prime: int)
    requires
        j <= c.len(),
    ensures
        weighted(c, j, c.len(), prime) == horner(0, c.take(j as int), prime) * pow_spec(
            prime,
            (c.len() - j) as nat,
        ),
    decreases j,
{
    let n = c.len();
    if j == 0 {
        assert(c.take(0) =~= Seq::<u8>::empty());
        assert(horner(0, c.take(0), prime) == 0);
        assert(weighted(c, j, n, prime) == 0);
    } else {
        lemma_weighted_horner(c, (j - 1) as nat, prime);
        assert(c.take(j as int).drop_last() =~= c.take(j - 1));
        let hz = horner(0, c.take(j - 1), prime);
        let nb = spec_normalize(c[j - 1]) as int;
        let q = pow_spec(prime, (n - j) as nat);
        assert(pow_spec(prime, (n - (j - 1)) as nat) == prime * q);
        assert(c.take(j as int).last() == c[j - 1]);
        assert(horner(0, c.take(j as int), prime) == hz * prime + nb);
        assert(weighted(c, j, n, prime) == weighted(c, (j - 1) as nat, n, prime) + nb * q);
        assert(hz * (prime * q) + nb * q == (hz * prime + nb) * q) by (nonlinear_arith);
        assert(weighted(c, j, n, prime) == horner(0, c.take(j as int), prime) * q);
    }
}

/// Folding one whole chunk of `n` bytes multiplies by `prime^n` and adds the
/// chunk's dot product with the descending powers, all modulo `modulus`.
pub proof fn lemma_chunk_step(h: int, c: Seq<u8>, prime: int, modulus: int)
    requires
        0 <= h < modulus,
    ensures
        mad_fold(h, c, prime, modulus) == (h * pow_spec(prime, c.len()) + weighted(
            c,
            c.len(),
            c.len(),
            prime,
        )) % modulus,
{
    lemma_mad_fold_horner(h, c, prime, modulus);
    lemma_horner_shift(h, c, prime);
    lemma_weighted_horner(c, c.len(), prime);
    assert(c.take(c.len() as int) =~= c);
    assert(pow_spec(prime, 0) == 1);
}

proof fn lemma_wrap_add_u32(x: u32, y: u32)
    ensures
        x.wrapping_add(y) == (x + y) % 0x1_0000_0000,
{
}

proof fn lemma_wrap_add_u64(x: u64, y: u64)
    ensures
        x.wrapping_add(y) == (x + y) % 0x1_0000_0000_0000_0000,
{
}

/// The MAD hash of `bytes` in `u32` arithmetic, one byte at a time.
pub fn mad_hash32(init: u32, bytes: &[u8]) -> (r: u32)
    ensures
        r == mad_fold(init as int, bytes@, PRIME_32 as int, 0x1_0000_0000),
{
    let mut i: usize = 0;
    let mut hash = init;
    while i < bytes.len()
        invariant
            i <= bytes.len(),
            hash == mad_fold(init as int, bytes@.take(i as int), PRIME_32 as int, 0x1_0000_0000),
        decreases bytes.len() - i,
    {
        let ghost prev = hash;
        let m = hash.wrapping_mul(PRIME_32);
        let nb = normalize(bytes[i]) as u32;
        proof {
            lemma_wrap_add_u32(m, nb);
            vstd::arithmetic::div_mod::lemma_add_mod_noop(prev * 37, nb as int, 0x1_0000_0000);
            vstd::arithmetic::div_mod::lemma_small_mod(nb as nat, 0x1_0000_0000);
            vstd::arithmetic::div_mod::lemma_mod_twice(prev * 37, 0x1_0000_0000);
            assert(bytes@.take(i + 1).drop_last() =~= bytes@.take(i as int));
        }
        hash = m.wrapping_add(nb);
        i += 1;
    }
    assert(bytes@.take(i as int) =~= bytes@);
    hash
}

/// The MAD hash of `bytes` in `u64` arithmetic, one byte at a time.
pub fn mad_hash64(init: u64, bytes: &[u8]) -> (r: u64)
    ensures
        r == mad_fold(init as int, bytes@, PRIME_64 as int, 0x1_0000_0000_0000_0000),
{
    let mut i: usize = 0;
    let mut hash = init;
    while i < bytes.len()
        invariant
            i <= bytes.len(),
            hash == mad_fold(
                init as int,
                bytes@.take(i as int),
                PRIME_64 as int,
                0x1_0000_0000_0000_0000,
            ),
        decreases bytes.len() - i,
    {
        let ghost prev = hash;
        let m = hash.wrapping_mul(PRIME_64);
        let nb = normalize(bytes[i]) as u64;
        proof {
            lemma_wrap_add_u64(m, nb);
            vstd::arithmetic::div_mod::lemma_add_mod_noop(
                prev * 133,
                nb as int,
                0x1_0000_0000_0000_0000,
            );
            vstd::arithmetic::div_mod::lemma_small_mod(nb as nat, 0x1_0000_0000_0000_0000);
            vstd::arithmetic::div_mod::lemma_mod_twice(prev * 133, 0x1_0000_0000_0000_0000);
            assert(bytes@.take(i + 1).drop_last() =~= bytes@.take(i as int));
        }
        hash = m.wrapping_add(nb);
        i += 1;
    }
    assert(bytes@.take(i as int) =~= bytes@);
    hash
}

/// Wrapping addition and multiplication of a machine word, read as arithmetic
/// modulo `spec_modulus()`.
pub trait MulAdd: Sized {
    spec fn spec_value(self) -> int;

    spec fn spec_modulus() -> int;

    proof fn lemma_value_bounds(x: Self)
        ensures
            0 <= x.spec_value() < Self::spec_modulus(),
            Self::spec_modulus() > 1,
    ;

    fn wrapping_add(self, rhs: Self) -> (r: Self)
        ensures
            r.spec_value() == (self.spec_value() + rhs.spec_value()) % Self::spec_modulus(),
    ;

    fn wrapping_mul(self, rhs: Self) -> (r: Self)
        ensures
            r.spec_value() == (self.spec_value() * rhs.spec_value()) % Self::spec_modulus(),
    ;
}

/// A word type with a MAD hash prime, hashed in chunks of `N` bytes.
pub trait MadHash<const N: usize>: MulAdd {
    spec fn spec_prime() -> int;

    fn prime() -> (r: Self)
        ensures
            r.spec_value() == Self::spec_prime(),
    ;

    fn from_byte(b: u8) -> (r: Self)
        ensures
            r.spec_value() == b as int,
    ;
}

impl MulAdd for u32 {
    open spec fn spec_value(self) -> int {
        self as int
    }

    open spec fn spec_modulus() -> int {
        0x1_0000_0000
    }

    proof fn lemma_value_bounds(x: Self) {
    }

    fn wrapping_add(self, rhs: Self) -> (r: Self) {
        u32::wrapping_add(self, rhs)
    }

    fn wrapping_mul(self, rhs: Self) -> (r: Self) {
        u32::wrapping_mul(self, rhs)
    }
}

impl MulAdd for u64 {
    open spec fn spec_value(self) -> int {
        self as int
    }

    open spec fn spec_modulus() -> int {
        0x1_0000_0000_0000_0000
    }

    proof fn lemma_value_bounds(x: Self) {
    }

    fn wrapping_add(self, rhs: Self) -> (r: Self) {
        u64::wrapping_add(self, rhs)
    }

    fn wrapping_mul(self, rhs: Self) -> (r: Self) {
        u64::wrapping_mul(self, rhs)
    }
}

impl<const N: usize> MadHash<N> for u32 {
    open spec fn spec_prime() -> int {
        PRIME_32 as int
    }

    fn prime() -> (r: Self) {
        PRIME_32
    }

    fn from_byte(b: u8) -> (r: Self) {
        b as u32
    }
}

impl<const N: usize> MadHash<N> for u64 {
    open spec fn spec_prime() -> int {
        PRIME_64 as int
    }

    fn prime() -> (r: Self) {
        PRIME_64
    }

    fn from_byte(b: u8) -> (r: Self) {
        b as u64
    }
}

/// The MAD hash computed `N` bytes at a time: each whole chunk is folded in
/// with one multiplication by `prime^N` and a dot product with the powers
/// `prime^(N-1), ..., prime^0`; the remainder is folded byte by byte.
/// The result is the same hash as the byte-at-a-time fold.
pub fn mad_hash<const N: usize, T>(init: T, bytes: &[u8]) -> (r: T) where T: MadHash<N> + Copy
    requires
        N > 0,
    ensures
        r.spec_value() == mad_fold(
            init.spec_value(),
            bytes@,
            <T as MadHash<N>>::spec_prime(),
            T::spec_modulus(),
        ),
{
    let ghost p_v = <T as MadHash<N>>::spec_prime();
    let ghost m = T::spec_modulus();
    let prime = <T as MadHash<N>>::prime();
    proof {
        T::lemma_value_bounds(prime);
        T::lemma_value_bounds(init);
    }
    // ascending[k] == prime^k (mod m), for k < N
    let mut ascending: Vec<T> = Vec::new();
    ascending.push(<T as MadHash<N>>::from_byte(1));
    proof {
        vstd::arithmetic::div_mod::lemma_small_mod(1, m as nat);
    }
    while ascending.len() < N
        invariant
            1 <= ascending.len() <= N,
            m == T::spec_modulus(),
            m > 1,
            p_v == <T as MadHash<N>>::spec_prime(),
            prime.spec_value() == p_v,
            forall|k: int|
                0 <= k < ascending.len() ==> #[trigger] ascending@[k].spec_value() == pow_spec(
                    p_v,
                    k as nat,
                ) % m,
        decreases N - ascending.len(),
    {
        let last = ascending[ascending.len() - 1];
        let next = prime.wrapping_mul(last);
        proof {
            let k = ascending.len() - 1;
            vstd::arithmetic::div_mod::lemma_mul_mod_noop_right(p_v, pow_spec(p_v, k as nat), m);
            assert(pow_spec(p_v, (k + 1) as nat) == p_v * pow_spec(p_v, k as nat));
        }
        ascending.push(next);
    }
    let power_n = prime.wrapping_mul(ascending[N - 1]);
    proof {
        vstd::arithmetic::div_mod::lemma_mul_mod_noop_right(
            p_v,
            pow_spec(p_v, (N - 1) as nat),
            m,
        );
        assert(pow_spec(p_v, N as nat) == p_v * pow_spec(p_v, (N - 1) as nat));
    }

    let mut hash = init;
    let mut i: usize = 0;
    let len = bytes.len();
    while len - i >= N
        invariant
            N > 0,
            i <= len,
            len == bytes@.len(),
            ascending@.len() == N,
            m == T::spec_modulus(),
            m > 1,
            p_v == <T as MadHash<N>>::spec_prime(),
            prime.spec_value() == p_v,
            power_n.spec_value() == pow_spec(p_v, N as nat) % m,
            forall|k: int|
                0 <= k < ascending.len() ==> #[trigger] ascending@[k].spec_value() == pow_spec(
                    p_v,
                    k as nat,
                ) % m,
            hash.spec_value() == mad_fold(init.spec_value(), bytes@.take(i as int), p_v, m),
        decreases len - i,
    {
        let ghost c = bytes@.subrange(i as int, i + N);
        let mut dot = <T as MadHash<N>>::from_byte(0);
        proof {
            vstd::arithmetic::div_mod::lemma_small_mod(0, m as nat);
        }
        let mut j: usize = 0;
        while j < N
            invariant
                j <= N,
                i + N <= len,
                len == bytes@.len(),
                c == bytes@.subrange(i as int, i + N),
                ascending@.len() == N,
                m == T::spec_modulus(),
                m > 1,
                forall|k: int|
                    0 <= k < ascending.len() ==> #[trigger] ascending@[k].spec_value()
                        == pow_spec(p_v, k as nat) % m,
                dot.spec_value() == weighted(c, j as nat, N as nat, p_v) % m,
            decreases N - j,
        {
            let b = normalize(bytes[i + j]);
            let w = ascending[N - 1 - j];
            let val = <T as MadHash<N>>::from_byte(b).wrapping_mul(w);
            let ghost before = weighted(c, j as nat, N as nat, p_v);
            proof {
                let pw = pow_spec(p_v, (N - 1 - j) as nat);
                assert(c[j as int] == bytes@[i + j]);
                vstd::arithmetic::div_mod::lemma_mul_mod_noop_right(b as int, pw, m);
                vstd::arithmetic::div_mod::lemma_add_mod_noop(before, b as int * pw, m);
                vstd::arithmetic::div_mod::lemma_mod_twice(before, m);
                vstd::arithmetic::div_mod::lemma_mod_twice(b as int * pw, m);
                assert(weighted(c, (j + 1) as nat, N as nat, p_v) == before + b as int * pw);
            }
            dot = dot.wrapping_add(val);
            j += 1;
        }
        let ghost h = hash.spec_value();
        proof {
            T::lemma_value_bounds(hash);
            lemma_chunk_step(h, c, p_v, m);
            let pn = pow_spec(p_v, N as nat);
            let wt = weighted(c, N as nat, N as nat, p_v);
            vstd::arithmetic::div_mod::lemma_mul_mod_noop_right(h, pn, m);
            vstd::arithmetic::div_mod::lemma_add_mod_noop(h * pn, wt, m);
            vstd::arithmetic::div_mod::lemma_mod_twice(h * pn, m);
            vstd::arithmetic::div_mod::lemma_mod_twice(wt, m);
            lemma_mad_fold_append(init.spec_value(), bytes@.take(i as int), c, p_v, m);
            assert(bytes@.take(i as int) + c =~= bytes@.take(i + N));
        }
        hash = hash.wrapping_mul(power_n).wrapping_add(dot);
        i += N;
    }
    while i < len
        invariant
            i <= len,
            len == bytes@.len(),
            m == T::spec_modulus(),
            m > 1,
            p_v == <T as MadHash<N>>::spec_prime(),
            prime.spec_value() == p_v,
            hash.spec_value() == mad_fold(init.spec_value(), bytes@.take(i as int), p_v, m),
        decreases len - i,
    {
        let ghost h = hash.spec_value();
        let nb = <T as MadHash<N>>::from_byte(normalize(bytes[i]));
        proof {
            T::lemma_value_bounds(nb);
            vstd::arithmetic::div_mod::lemma_add_mod_noop(h * p_v, nb.spec_value(), m);
            vstd::arithmetic::div_mod::lemma_small_mod(nb.spec_value() as nat, m as nat);
            vstd::arithmetic::div_mod::lemma_mod_twice(h * p_v, m);
            assert(bytes@.take(i + 1).drop_last() =~= bytes@.take(i as int));
        }
        hash = hash.wrapping_mul(prime).wrapping_add(nb);
        i += 1;
    }
    assert(bytes@.take(i as int) =~= bytes@);
    hash
}

/// The hash that names a file of an archive whose index uses 64-bit hashes
/// (`wide`) or 32-bit ones: the MAD hash of the path's bytes from zero.
pub fn path_name_hash(path: &str, wide: bool) -> (r: u64)
    ensures
        r == if wide {
            mad_fold(0, encode_utf8(path@), PRIME_64 as int, 0x1_0000_0000_0000_0000)
        } else {
            mad_fold(0, encode_utf8(path@), PRIME_32 as int, 0x1_0000_0000)
        },
{
    if wide {
        mad_hash64(0, path.as_bytes())
    } else {
        mad_hash32(0, path.as_bytes()) as u64
    }
}

/// The index of the first `\n` of `s` at or after `from`.
pub open spec fn first_newline(s: Seq<char>, from: int) -> Option<int>
    decreases s.len() - from,
{
    if from < 0 || from >= s.len() {
        None
    } else if s[from] == '\n' {
        Some(from)
    } else {
        first_newline(s, from + 1)
    }
}

/// A line ended by `\n`, without a `\r` just before it.
pub open spec fn strip_cr(l: Seq<char>) -> Seq<char> {
    if l.len() > 0 && l.last() == '\r' {
        l.drop_last()
    } else {
        l
    }
}

/// The lines of `s` from `from` on, as `str::lines` gives them: split at
/// each `\n`, with a `\r` before it dropped; no line after a final `\n`.
pub open spec fn lines_from(s: Seq<char>, from: int) -> Seq<Seq<char>>
    decreases s.len() - from,
{
    if from < 0 || from >= s.len() {
        Seq::empty()
    } else {
        match first_newline(s, from) {
            Some(e) => if from <= e < s.len() {
                seq![strip_cr(s.subrange(from, e))] + lines_from(s, e + 1)
            } else {
                Seq::empty()
            },
            None => seq![s.subrange(from, s.len() as int)],
        }
    }
}

/// The name hash of a path (see [`path_name_hash`]).
pub open spec fn name_hash(path: Seq<char>, wide: bool) -> u64 {
    if wide {
        mad_fold(0, encode_utf8(path), PRIME_64 as int, 0x1_0000_0000_0000_0000) as u64
    } else {
        mad_fold(0, encode_utf8(path), PRIME_32 as int, 0x1_0000_0000) as u64
    }
}

/// The names `ls` by their hash, a later name replacing an earlier one of
/// the same hash.
pub open spec fn names_by_hash(ls: Seq<Seq<char>>, wide: bool) -> Map<u64, Seq<char>>
    decreases ls.len(),
{
    if ls.len() == 0 {
        Map::empty()
    } else {
        names_by_hash(ls.drop_last(), wide).insert(name_hash(ls.last(), wide), ls.last())
    }
}

proof fn lemma_first_newline_found(s: Seq<char>, from: int)
    requires
        0 <= from,
    ensures
        first_newline(s, from) matches Some(e) ==> from <= e < s.len() && s[e] == '\n' && forall|k: int|
            from <= k < e ==> s[k] != '\n',
        first_newline(s, from) is None ==> forall|k: int| from <= k < s.len() && 0 <= k ==> s[k] != '\n',
    decreases s.len() - from,
{
    if 0 <= from < s.len() && s[from] != '\n' {
        lemma_first_newline_found(s, from + 1);
    }
}

/// The characters of `cs` from `a` to `b`, as a string.
fn string_range(cs: &Vec<char>, a: usize, b: usize) -> (r: String)
    requires
        a <= b <= cs@.len(),
    ensures
        r@ == cs@.subrange(a as int, b as int),
{
    let mut s = String::new();
    let mut i: usize = a;
    while i < b
        invariant
            a <= i <= b <= cs@.len(),
            s@ == cs@.subrange(a as int, i as int),
        decreases b - i,
    {
        s.push(cs[i]);
        i = i + 1;
        assert(s@ =~= cs@.subrange(a as int, i as int));
    }
    s
}

/// The names of a dictionary, one per line of `contents`, by their hash
/// (64 bits wide or 32); of two names with one hash, the later one is kept.
pub fn hash_lines(contents: &str, wide: bool) -> (r: HashMap<u64, String>)
    ensures
        r@.dom() == names_by_hash(lines_from(contents@, 0), wide).dom(),
        forall|h: u64| #[trigger] r@.contains_key(h) ==> r@[h]@ == names_by_hash(
            lines_from(contents@, 0),
            wide,
        )[h],
{
    broadcast use vstd::std_specs::hash::group_hash_axioms;

    let cs = chars_of(contents);
    let n = cs.len();
    let ghost all = lines_from(cs@, 0);
    let mut out: HashMap<u64, String> = HashMap::new();
    let mut i: usize = 0;
    let ghost mut done: Seq<Seq<char>> = Seq::empty();
    assert(done + lines_from(cs@, 0) =~= all);
    while i < n
        invariant
            n == cs@.len(),
            cs@ == contents@,
            all == lines_from(cs@, 0),
            i <= n,
            done + lines_from(cs@, i as int) == all,
            out@.dom() == names_by_hash(done, wide).dom(),
            forall|h: u64| #[trigger] out@.contains_key(h) ==> out@[h]@ == names_by_hash(done, wide)[h],
        decreases n - i,
    {
        let mut e = i;
        while e < n && cs[e] != '\n'
            invariant
                i <= e <= n,
                n == cs@.len(),
                first_newline(cs@, i as int) == first_newline(cs@, e as int),
            decreases n - e,
        {
            e = e + 1;
        }
        let line = if e < n && e > i && cs[e - 1] == '\r' {
            string_range(&cs, i, e - 1)
        } else {
            string_range(&cs, i, e)
        };
        let ghost l = line@;
        proof {
            lemma_first_newline_found(cs@, i as int);
            if e < n {
                assert(first_newline(cs@, e as int) == Some(e as int));
                assert(l == strip_cr(cs@.subrange(i as int, e as int)));
                assert(lines_from(cs@, i as int) == seq![l] + lines_from(cs@, e + 1));
            } else {
                assert(first_newline(cs@, e as int) is None);
                assert(l == cs@.subrange(i as int, n as int));
                assert(lines_from(cs@, i as int) == seq![l]);
                assert(lines_from(cs@, n as int) =~= Seq::<Seq<char>>::empty());
            }
        }
        let h = path_name_hash(line.as_str(), wide);
        let ghost before = done;
        out.insert(h, line);
        proof {
            done = before.push(l);
            assert(done.drop_last() =~= before);
            assert(done.last() == l);
            assert(h == name_hash(l, wide));
            assert(out@.dom() =~= names_by_hash(done, wide).dom());
            if e < n {
                assert(done + lines_from(cs@, e + 1) =~= before + lines_from(cs@, i as int));
            } else {
                assert(done + lines_from(cs@, n as int) =~= before + lines_from(cs@, i as int));
            }
        }
        i = if e < n {
            e + 1
        } else {
            n
        };
    }
    assert(lines_from(cs@, n as int) =~= Seq::<Seq<char>>::empty());
    assert(done =~= all);
    out
}

} // verus!
