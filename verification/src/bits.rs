//! Bit-addressable reading and writing over LSB-first byte buffers.
//!
//! A byte buffer is viewed as a stream of bits: bit `i` of the stream is bit
//! `i % 8` of byte `i / 8`, where bit `k` of a byte is the coefficient of
//! `2^k` in its value. All multi-bit transfers move the low `n` bits of a
//! `u64`, least significant bit first.

use vstd::prelude::*;
use vstd::arithmetic::power2::pow2;
use vstd::arithmetic::power2::lemma_pow2_adds;
use vstd::arithmetic::power2::lemma_pow2_pos;
use vstd::arithmetic::power2::lemma_pow2_strictly_increases;
use vstd::arithmetic::power2::lemma2_to64;
use vstd::arithmetic::power2::lemma2_to64_rest;
use vstd::arithmetic::div_mod::lemma_basic_div;
use vstd::arithmetic::div_mod::lemma_div_denominator;
use vstd::arithmetic::div_mod::lemma_div_is_ordered;
use vstd::arithmetic::div_mod::lemma_fundamental_div_mod;
use vstd::arithmetic::div_mod::lemma_fundamental_div_mod_converse;
use vstd::arithmetic::div_mod::lemma_hoist_over_denominator;
use vstd::arithmetic::div_mod::lemma_mod_division_less_than_divisor;
use vstd::arithmetic::div_mod::lemma_mod_multiples_vanish;
use vstd::arithmetic::mul::lemma_mul_inequality;
use vstd::arithmetic::mul::lemma_mul_is_commutative;
use vstd::arithmetic::mul::lemma_mul_is_distributive_add;

verus! {

/// Bit `j` of the natural number `v`: the coefficient of `2^j` in binary.
pub open spec fn nth_bit(v: nat, j: nat) -> bool {
    (v / pow2(j)) % 2 == 1
}

/// Bit `i` of the bit stream formed by `bytes`, LSB-first within each byte.
pub open spec fn bit_at(bytes: Seq<u8>, i: int) -> bool
    recommends
        0 <= i < 8 * bytes.len(),
{
    nth_bit(bytes[i / 8] as nat, (i % 8) as nat)
}

/// The whole bit stream formed by `bytes`.
pub open spec fn stream_of(bytes: Seq<u8>) -> Seq<bool> {
    Seq::new(8 * bytes.len(), |i: int| bit_at(bytes, i))
}

/// The low `n` bits of `v`, least significant first.
pub open spec fn scalar_bits(v: nat, n: nat) -> Seq<bool> {
    Seq::new(n, |j: int| nth_bit(v, j as nat))
}

/// Halving shifts the bit index: bit `j` of `v / 2` is bit `j + 1` of `v`.
pub proof fn lemma_nth_bit_halve(v: nat, j: nat)
    ensures
        nth_bit((v / 2) as nat, j) == nth_bit(v, j + 1),
{
    lemma_pow2_pos(j);
    lemma_div_denominator(v as int, 2, pow2(j) as int);
    lemma_pow2_adds(1, j);
    lemma2_to64();
}

/// Adding `2^k` leaves every bit below `k` unchanged.
pub proof fn lemma_nth_bit_low_unchanged(v: nat, k: nat, j: nat)
    requires
        j < k,
    ensures
        nth_bit(v + pow2(k), j) == nth_bit(v, j),
{
    lemma_pow2_pos(j);
    lemma_pow2_pos((k - j) as nat);
    lemma_pow2_adds(j, (k - j) as nat);
    let m = pow2((k - j) as nat) as int;
    lemma_hoist_over_denominator(v as int, m, pow2(j));
    assert(m * pow2(j) == pow2(j) * m) by {
        lemma_mul_is_commutative(m, pow2(j) as int);
    }
    assert((v + pow2(k)) as int / pow2(j) as int == v as int / pow2(j) as int + m);
    lemma_pow2_adds(1, (k - j - 1) as nat);
    lemma2_to64();
    assert(m == 2 * pow2((k - j - 1) as nat));
    lemma_mod_multiples_vanish(
        pow2((k - j - 1) as nat) as int,
        v as int / pow2(j) as int,
        2,
    );
}

/// Bit `k` of `v % 2^m` equals bit `k` of `v` whenever `k < m`.
pub proof fn lemma_nth_bit_mod(v: nat, m: nat, k: nat)
    requires
        k < m,
    ensures
        nth_bit((v % pow2(m)) as nat, k) == nth_bit(v, k),
{
    lemma_pow2_pos(m);
    lemma_pow2_pos(k);
    lemma_pow2_pos((m - k) as nat);
    let q = v as int / pow2(m) as int;
    let r = v as int % pow2(m) as int;
    lemma_fundamental_div_mod(v as int, pow2(m) as int);
    lemma_mod_division_less_than_divisor(v as int, pow2(m) as int);
    assert(v == pow2(m) * q + r);
    lemma_pow2_adds((m - k) as nat, k);
    let h = q * pow2((m - k) as nat) as int;
    lemma_hoist_over_denominator(r, h, pow2(k));
    assert(h * pow2(k) as int == pow2(m) * q) by {
        vstd::arithmetic::mul::lemma_mul_is_associative(
            q,
            pow2((m - k) as nat) as int,
            pow2(k) as int,
        );
        lemma_mul_is_commutative(q, pow2(m) as int);
    }
    assert(v as int / pow2(k) as int == r / pow2(k) as int + h);
    lemma_pow2_adds(1, (m - k - 1) as nat);
    lemma2_to64();
    assert(pow2((m - k) as nat) == 2 * pow2((m - k - 1) as nat));
    assert(h == 2 * (pow2((m - k - 1) as nat) * q)) by {
        lemma_mul_is_commutative(q, pow2((m - k) as nat) as int);
        vstd::arithmetic::mul::lemma_mul_is_associative(
            2,
            pow2((m - k - 1) as nat) as int,
            q,
        );
    }
    lemma_mod_multiples_vanish(pow2((m - k - 1) as nat) as int * q, r / pow2(k) as int, 2);
}

/// When bit `k` of `v` is clear, the low `k + 1` bits of `v` stay below `2^k`.
pub proof fn lemma_low_bits_small(v: nat, k: nat)
    requires
        !nth_bit(v, k),
    ensures
        v % pow2(k + 1) < pow2(k),
{
    lemma_pow2_pos(k);
    lemma_pow2_pos((k + 1) as nat);
    let l = v as int % pow2(k + 1) as int;
    lemma_mod_division_less_than_divisor(v as int, pow2(k + 1) as int);
    lemma_nth_bit_mod(v, k + 1, k);
    assert(!nth_bit(l as nat, k));
    lemma_pow2_adds(k, 1);
    lemma2_to64();
    assert(pow2(k + 1) == pow2(k) * 2);
    vstd::arithmetic::div_mod::lemma_multiply_divide_lt(l, pow2(k) as int, 2);
    assert(l / (pow2(k) as int) < 2);
    assert((l / pow2(k) as int) % 2 != 1);
    assert(l / (pow2(k) as int) >= 0) by {
        vstd::arithmetic::div_mod::lemma_div_pos_is_pos(l as int, pow2(k) as int);
    }
    assert(l as int / pow2(k) as int == 0 || l as int / pow2(k) as int == 1);
    assert(l as int / pow2(k) as int == 0);
    lemma_fundamental_div_mod(l as int, pow2(k) as int);
    lemma_mod_division_less_than_divisor(l as int, pow2(k) as int);
}

/// Setting a clear bit `k` cannot overflow past a power bound above it.
pub proof fn lemma_add_bit_fits(v: nat, k: nat, m: nat)
    requires
        v < pow2(m),
        k < m,
        !nth_bit(v, k),
    ensures
        v + pow2(k) < pow2(m),
{
    lemma_pow2_pos(k);
    lemma_pow2_pos((k + 1) as nat);
    lemma_pow2_pos((m - k - 1) as nat);
    let h = v as int / pow2(k + 1) as int;
    let l = v as int % pow2(k + 1) as int;
    lemma_fundamental_div_mod(v as int, pow2(k + 1) as int);
    lemma_low_bits_small(v, k);
    assert(v == pow2(k + 1) * h + l);
    assert(l < pow2(k));
    lemma_pow2_adds(k, 1);
    lemma2_to64();
    assert(pow2(k + 1) == 2 * pow2(k));
    lemma_pow2_adds(k + 1, (m - k - 1) as nat);
    assert(pow2(m) == pow2(k + 1) * pow2((m - k - 1) as nat));
    assert(h >= 0) by {
        vstd::arithmetic::div_mod::lemma_div_pos_is_pos(v as int, pow2(k + 1) as int);
    }
    assert(pow2(k + 1) * h <= v) by {
        lemma_mod_division_less_than_divisor(v as int, pow2(k + 1) as int);
    }
    assert(h < pow2((m - k - 1) as nat)) by {
        if h >= pow2((m - k - 1) as nat) {
            lemma_mul_inequality(
                pow2((m - k - 1) as nat) as int,
                h,
                pow2(k + 1) as int,
            );
            lemma_mul_is_commutative(h, pow2(k + 1) as int);
            lemma_mul_is_commutative(pow2((m - k - 1) as nat) as int, pow2(k + 1) as int);
            assert(false);
        }
    }
    assert(h + 1 <= pow2((m - k - 1) as nat));
    assert(pow2(k + 1) * (h + 1) <= pow2(k + 1) * pow2((m - k - 1) as nat)) by {
        lemma_mul_inequality(h + 1, pow2((m - k - 1) as nat) as int, pow2(k + 1) as int);
        lemma_mul_is_commutative(h + 1, pow2(k + 1) as int);
        lemma_mul_is_commutative(pow2((m - k - 1) as nat) as int, pow2(k + 1) as int);
    }
    assert(pow2(k + 1) * (h + 1) == pow2(k + 1) * h + pow2(k + 1)) by {
        lemma_mul_is_distributive_add(pow2(k + 1) as int, h, 1);
    }
}

/// Setting a clear bit `k` leaves every bit above `k` unchanged.
pub proof fn lemma_nth_bit_high_unchanged(v: nat, k: nat, j: nat)
    requires
        j > k,
        !nth_bit(v, k),
    ensures
        nth_bit(v + pow2(k), j) == nth_bit(v, j),
{
    lemma_pow2_pos(j);
    lemma_pow2_pos(k);
    let q = v as int / pow2(j) as int;
    let r = v as int % pow2(j) as int;
    lemma_fundamental_div_mod(v as int, pow2(j) as int);
    lemma_mod_division_less_than_divisor(v as int, pow2(j) as int);
    lemma_nth_bit_mod(v, j, k);
    assert(!nth_bit(r as nat, k));
    lemma_add_bit_fits(r as nat, k, j);
    assert(r + pow2(k) < pow2(j));
    assert(v + pow2(k) == q * pow2(j) as int + (r + pow2(k))) by {
        lemma_mul_is_commutative(q, pow2(j) as int);
    }
    assert(q >= 0) by {
        vstd::arithmetic::div_mod::lemma_div_pos_is_pos(v as int, pow2(j) as int);
    }
    lemma_fundamental_div_mod_converse(
        v as int + pow2(k) as int,
        pow2(j) as int,
        q,
        r + pow2(k) as int,
    );
    assert((v + pow2(k)) as int / pow2(j) as int == q);
}

/// Setting a clear bit `k` makes bit `k` read back as set.
pub proof fn lemma_nth_bit_set(v: nat, k: nat)
    requires
        !nth_bit(v, k),
    ensures
        nth_bit(v + pow2(k), k),
{
    lemma_pow2_pos(k);
    lemma_pow2_pos((k + 1) as nat);
    let h = v as int / pow2(k + 1) as int;
    let l = v as int % pow2(k + 1) as int;
    lemma_fundamental_div_mod(v as int, pow2(k + 1) as int);
    lemma_mod_division_less_than_divisor(v as int, pow2(k + 1) as int);
    lemma_low_bits_small(v, k);
    assert(v == pow2(k + 1) * h + l && 0 <= l < pow2(k));
    lemma_pow2_adds(k, 1);
    lemma2_to64();
    assert(pow2(k + 1) == 2 * pow2(k));
    assert(v + pow2(k) == (2 * h + 1) * pow2(k) as int + l) by {
        assert(pow2(k + 1) as int * h == (2 * h) * pow2(k) as int) by {
            vstd::arithmetic::mul::lemma_mul_is_associative(2, pow2(k) as int, h);
            lemma_mul_is_commutative(pow2(k) as int, h);
            vstd::arithmetic::mul::lemma_mul_is_associative(2, h, pow2(k) as int);
        }
        assert((2 * h + 1) * pow2(k) as int == (2 * h) * pow2(k) as int + pow2(k)) by {
            vstd::arithmetic::mul::lemma_mul_is_distributive_add_other_way(
                pow2(k) as int,
                2 * h,
                1,
            );
        }
    }
    lemma_fundamental_div_mod_converse(
        v as int + pow2(k) as int,
        pow2(k) as int,
        2 * h + 1,
        l,
    );
    assert((v + pow2(k)) as int / pow2(k) as int == 2 * h + 1);
    lemma_mod_multiples_vanish(h, 1, 2);
}

/// Every bit at or above the bound of `v < 2^k` is clear.
pub proof fn lemma_nth_bit_zero_above(v: nat, k: nat, j: nat)
    requires
        v < pow2(k),
        j >= k,
    ensures
        !nth_bit(v, j),
{
    lemma_pow2_pos(j);
    if k < j {
        lemma_pow2_strictly_increases(k, j);
    }
    lemma_basic_div(v as int, pow2(j) as int);
}

/// Raised when a read or skip would pass the end of the input buffer.
#[derive(Debug, Clone, Copy, PartialEq, Eq)]
pub struct UnexpectedEndOfBits {
    /// How many bits the failing operation asked for.
    pub requested_bits: usize,
    /// How many bits were still available at the cursor.
    pub available_bits: usize,
}

/// Raised when a write or skip would pass the end of the output buffer.
#[derive(Debug, Clone, Copy, PartialEq, Eq)]
pub struct BufferTooSmall {
    /// How many bits the failing operation asked for.
    pub requested_bits: usize,
    /// How many bits were still available at the cursor.
    pub available_bits: usize,
}

/// `2^e` as a machine word.
pub fn pow2_u64(e: usize) -> (r: u64)
    requires
        e < 64,
    ensures
        r as nat == pow2(e as nat),
{
    let mut r: u64 = 1;
    let mut i: usize = 0;
    proof {
        lemma2_to64();
    }
    while i < e
        invariant
            i <= e < 64,
            r as nat == pow2(i as nat),
        decreases e - i,
    {
        proof {
            lemma_pow2_adds(i as nat, 1);
            lemma2_to64();
            if i + 1 < 64 {
                lemma_pow2_strictly_increases((i + 1) as nat, 64);
            }
            lemma2_to64_rest();
        }
        r = r * 2;
        i = i + 1;
    }
    r
}

/// Bit `i` of the stream formed by `buf`.
fn get_bit(buf: &[u8], i: usize) -> (r: bool)
    requires
        i < 8 * buf@.len(),
        8 * buf@.len() <= usize::MAX,
    ensures
        r == stream_of(buf@)[i as int],
{
    proof {
        vstd::arithmetic::div_mod::lemma_multiply_divide_lt(i as int, 8, buf@.len() as int);
    }
    let byte: u8 = *vstd::slice::slice_index_get(buf, i / 8);
    let k: usize = i % 8;
    proof {
        lemma_pow2_strictly_increases(k as nat, 8);
        lemma2_to64();
    }
    let mask: u8 = pow2_u64(k) as u8;
    (byte / mask) % 2 == 1
}

/// Two numbers below `2^n` with the same low `n` bits are equal.
pub proof fn lemma_nth_bit_unique(v: nat, w: nat, n: nat)
    requires
        v < pow2(n),
        w < pow2(n),
        forall|j: nat| j < n ==> nth_bit(v, j) == nth_bit(w, j),
    ensures
        v == w,
    decreases n,
{
    lemma2_to64();
    if n == 0 {
        assert(pow2(0) == 1);
    } else {
        let v2 = (v / 2) as nat;
        let w2 = (w / 2) as nat;
        assert(pow2(n) == 2 * pow2((n - 1) as nat)) by {
            lemma_pow2_adds(1, (n - 1) as nat);
        }
        lemma_pow2_pos((n - 1) as nat);
        assert(v2 < pow2((n - 1) as nat) && w2 < pow2((n - 1) as nat)) by {
            assert((2 * pow2((n - 1) as nat) - 1) as int / 2 == pow2((n - 1) as nat) - 1) by {
                lemma_fundamental_div_mod_converse(
                    2 * pow2((n - 1) as nat) as int - 1,
                    2,
                    pow2((n - 1) as nat) as int - 1,
                    1,
                );
            }
            lemma_div_is_ordered(v as int, 2 * pow2((n - 1) as nat) as int - 1, 2);
            lemma_div_is_ordered(w as int, 2 * pow2((n - 1) as nat) as int - 1, 2);
        }
        assert forall|j: nat| j < (n - 1) as nat implies nth_bit(v2, j) == nth_bit(w2, j) by {
            lemma_nth_bit_halve(v, j);
            lemma_nth_bit_halve(w, j);
            assert(nth_bit(v, j + 1) == nth_bit(w, j + 1));
        }
        lemma_nth_bit_unique(v2, w2, (n - 1) as nat);
        assert(nth_bit(v, 0) == nth_bit(w, 0));
        assert(v % 2 == w % 2) by {
            assert(pow2(0) == 1);
            lemma_fundamental_div_mod(v as int, 1);
            lemma_fundamental_div_mod(w as int, 1);
            assert(v as int / 1 == v);
            assert(w as int / 1 == w);
            vstd::arithmetic::div_mod::lemma_mod_division_less_than_divisor(v as int, 2);
            vstd::arithmetic::div_mod::lemma_mod_division_less_than_divisor(w as int, 2);
        }
        lemma_fundamental_div_mod(v as int, 2);
        lemma_fundamental_div_mod(w as int, 2);
    }
}

} // verus!

verus! {

/// Cursor-based reader of single bits and exact-width unsigned integers
/// over an LSB-first byte buffer.
pub struct BitReader<'a> {
    buf: &'a [u8],
    pos: usize,
}

impl<'a> BitReader<'a> {
    /// The whole input, as a stream of bits.
    pub closed spec fn stream(self) -> Seq<bool> {
        stream_of(self.buf@)
    }

    /// The cursor: how many bits have been consumed.
    pub closed spec fn spec_pos(self) -> nat {
        self.pos as nat
    }

    /// The cursor never passes the end, and the buffer's bit count
    /// stays within address arithmetic.
    pub closed spec fn wf(self) -> bool {
        &&& self.pos <= 8 * self.buf@.len()
        &&& 8 * self.buf@.len() + 8 <= usize::MAX
    }

    /// A reader positioned at the start of `bytes`.
    pub fn new(bytes: &'a [u8]) -> (r: BitReader<'a>)
        requires
            8 * bytes@.len() + 8 <= usize::MAX,
        ensures
            r.wf(),
            r.stream() == stream_of(bytes@),
            r.spec_pos() == 0,
    {
        BitReader { buf: bytes, pos: 0 }
    }

    /// How many bits have been consumed.
    pub fn bits_read(&self) -> (r: usize)
        ensures
            r == self.spec_pos(),
    {
        self.pos
    }

    /// How many bytes the consumed bits cover: 12 bits read is 2 bytes read.
    pub fn bytes_read(&self) -> (r: usize)
        requires
            self.wf(),
        ensures
            r == (self.spec_pos() + 7) / 8,
    {
        (self.pos + 7) / 8
    }

    /// Advance over `n_bits` reserved bits without interpreting them.
    pub fn skip(&mut self, n_bits: usize) -> (r: Result<(), UnexpectedEndOfBits>)
        requires
            old(self).wf(),
        ensures
            final(self).wf(),
            final(self).stream() == old(self).stream(),
            match r {
                Ok(()) => {
                    &&& old(self).spec_pos() + n_bits <= old(self).stream().len()
                    &&& final(self).spec_pos() == old(self).spec_pos() + n_bits
                },
                Err(e) => {
                    &&& old(self).spec_pos() + n_bits > old(self).stream().len()
                    &&& *final(self) == *old(self)
                    &&& e == (UnexpectedEndOfBits {
                        requested_bits: n_bits,
                        available_bits: (old(self).stream().len() - old(self).spec_pos()) as usize,
                    })
                },
            },
    {
        let avail: usize = 8 * self.buf.len() - self.pos;
        if n_bits > avail {
            Err(UnexpectedEndOfBits { requested_bits: n_bits, available_bits: avail })
        } else {
            self.pos = self.pos + n_bits;
            Ok(())
        }
    }

    /// Read the single bit at the cursor.
    pub fn read_bit(&mut self) -> (r: Result<bool, UnexpectedEndOfBits>)
        requires
            old(self).wf(),
        ensures
            final(self).wf(),
            final(self).stream() == old(self).stream(),
            match r {
                Ok(b) => {
                    &&& old(self).spec_pos() < old(self).stream().len()
                    &&& final(self).spec_pos() == old(self).spec_pos() + 1
                    &&& b == old(self).stream()[old(self).spec_pos() as int]
                },
                Err(e) => {
                    &&& old(self).spec_pos() == old(self).stream().len()
                    &&& *final(self) == *old(self)
                    &&& e == (UnexpectedEndOfBits { requested_bits: 1, available_bits: 0 })
                },
            },
    {
        if self.pos == 8 * self.buf.len() {
            Err(UnexpectedEndOfBits { requested_bits: 1, available_bits: 0 })
        } else {
            let b = get_bit(self.buf, self.pos);
            self.pos = self.pos + 1;
            Ok(b)
        }
    }

    /// Read an unsigned integer of exactly `n_bits` bits, LSB first.
    /// Only the low `n_bits` of the result are significant.
    pub fn read_bits(&mut self, n_bits: usize) -> (r: Result<u64, UnexpectedEndOfBits>)
        requires
            old(self).wf(),
            n_bits <= 64,
        ensures
            final(self).wf(),
            final(self).stream() == old(self).stream(),
            match r {
                Ok(v) => {
                    &&& old(self).spec_pos() + n_bits <= old(self).stream().len()
                    &&& final(self).spec_pos() == old(self).spec_pos() + n_bits
                    &&& (v as nat) < pow2(n_bits as nat)
                    &&& scalar_bits(v as nat, n_bits as nat) == old(self).stream().subrange(
                        old(self).spec_pos() as int,
                        old(self).spec_pos() + n_bits,
                    )
                },
                Err(e) => {
                    &&& old(self).spec_pos() + n_bits > old(self).stream().len()
                    &&& *final(self) == *old(self)
                    &&& e == (UnexpectedEndOfBits {
                        requested_bits: n_bits,
                        available_bits: (old(self).stream().len() - old(self).spec_pos()) as usize,
                    })
                },
            },
    {
        let avail: usize = 8 * self.buf.len() - self.pos;
        if n_bits > avail {
            return Err(UnexpectedEndOfBits { requested_bits: n_bits, available_bits: avail });
        }
        let ghost pre = *self;
        let mut v: u64 = 0;
        let mut i: usize = 0;
        proof {
            lemma2_to64();
        }
        while i < n_bits
            invariant
                *self == pre,
                self.wf(),
                i <= n_bits <= 64,
                self.spec_pos() + n_bits <= self.stream().len(),
                (v as nat) < pow2(i as nat),
                forall|j: int|
                    0 <= j < i ==> #[trigger] nth_bit(v as nat, j as nat)
                        == self.stream()[self.spec_pos() + j],
            decreases n_bits - i,
        {
            let b = get_bit(self.buf, self.pos + i);
            proof {
                lemma_nth_bit_zero_above(v as nat, i as nat, i as nat);
                lemma_pow2_adds(i as nat, 1);
                lemma2_to64();
                lemma_pow2_strictly_increases(i as nat, (i + 1) as nat);
                if (i + 1) < 64 {
                    lemma_pow2_strictly_increases((i + 1) as nat, 64);
                }
                lemma2_to64_rest();
            }
            if b {
                let add: u64 = pow2_u64(i);
                proof {
                    lemma_add_bit_fits(v as nat, i as nat, 64);
                    lemma_nth_bit_set(v as nat, i as nat);
                    assert forall|j: int| 0 <= j < i implies #[trigger] nth_bit(
                        (v + add) as nat,
                        j as nat,
                    ) == nth_bit(v as nat, j as nat) by {
                        lemma_nth_bit_low_unchanged(v as nat, i as nat, j as nat);
                    }
                    assert(((v + add) as nat) < pow2((i + 1) as nat)) by {
                        lemma_add_bit_fits(v as nat, i as nat, (i + 1) as nat);
                    }
                }
                v = v + add;
            } else {
                proof {
                    assert(!nth_bit(v as nat, i as nat));
                }
            }
            i = i + 1;
        }
        proof {
            assert(scalar_bits(v as nat, n_bits as nat) =~= self.stream().subrange(
                self.spec_pos() as int,
                self.spec_pos() + n_bits,
            ));
        }
        self.pos = self.pos + n_bits;
        Ok(v)
    }
}

} // verus!

verus! {

/// Cursor-based writer of single bits and exact-width unsigned integers
/// into an LSB-first byte buffer that it owns. The buffer is zeroed on
/// creation and every bit at or past the cursor stays zero, so unused
/// trailing bits of the final byte are zero.
pub struct BitWriter {
    buf: Vec<u8>,
    pos: usize,
}

impl BitWriter {
    /// The bits written so far, in order.
    pub closed spec fn bits(self) -> Seq<bool> {
        Seq::new(self.pos as nat, |j: int| bit_at(self.buf@, j))
    }

    /// The cursor: how many bits have been written.
    pub closed spec fn spec_pos(self) -> nat {
        self.pos as nat
    }

    /// The total bit capacity of the owned buffer.
    pub closed spec fn capacity(self) -> nat {
        8 * self.buf@.len()
    }

    /// The cursor never passes the end, address arithmetic stays in
    /// bounds, and every bit at or past the cursor is zero.
    pub closed spec fn wf(self) -> bool {
        &&& self.pos <= 8 * self.buf@.len()
        &&& 8 * self.buf@.len() + 8 <= usize::MAX
        &&& forall|j: int|
            self.pos <= j < 8 * self.buf@.len() ==> !bit_at(self.buf@, j)
    }

    /// A writer over a fresh zeroed buffer of `n_bytes` bytes.
    pub fn new(n_bytes: usize) -> (r: BitWriter)
        requires
            8 * n_bytes + 8 <= usize::MAX,
        ensures
            r.wf(),
            r.bits() == Seq::<bool>::empty(),
            r.spec_pos() == 0,
            r.capacity() == 8 * n_bytes,
    {
        let mut buf: Vec<u8> = Vec::new();
        while buf.len() < n_bytes
            invariant
                buf@.len() <= n_bytes,
                forall|i: int| 0 <= i < buf@.len() ==> buf@[i] == 0u8,
            decreases n_bytes - buf@.len(),
        {
            buf.push(0u8);
        }
        let r = BitWriter { buf, pos: 0 };
        proof {
            lemma2_to64();
            assert forall|j: int| 0 <= j < 8 * r.buf@.len() implies !bit_at(r.buf@, j) by {
                vstd::arithmetic::div_mod::lemma_multiply_divide_lt(j, 8, r.buf@.len() as int);
                lemma_nth_bit_zero_above(0, 0, (j % 8) as nat);
            }
            assert(r.bits() =~= Seq::<bool>::empty());
        }
        r
    }

    /// How many bits have been written.
    pub fn bits_written(&self) -> (r: usize)
        ensures
            r == self.spec_pos(),
    {
        self.pos
    }

    /// How many bytes the written bits cover: 12 bits written is 2 bytes.
    pub fn bytes_written(&self) -> (r: usize)
        requires
            self.wf(),
        ensures
            r == (self.spec_pos() + 7) / 8,
    {
        (self.pos + 7) / 8
    }

    /// Advance over `n_bits` reserved bits, leaving them zero.
    pub fn skip(&mut self, n_bits: usize) -> (r: Result<(), BufferTooSmall>)
        requires
            old(self).wf(),
        ensures
            final(self).wf(),
            final(self).capacity() == old(self).capacity(),
            match r {
                Ok(()) => {
                    &&& old(self).spec_pos() + n_bits <= old(self).capacity()
                    &&& final(self).spec_pos() == old(self).spec_pos() + n_bits
                    &&& final(self).bits() == old(self).bits() + Seq::new(
                        n_bits as nat,
                        |j: int| false,
                    )
                },
                Err(e) => {
                    &&& old(self).spec_pos() + n_bits > old(self).capacity()
                    &&& *final(self) == *old(self)
                    &&& e == (BufferTooSmall {
                        requested_bits: n_bits,
                        available_bits: (old(self).capacity() - old(self).spec_pos()) as usize,
                    })
                },
            },
    {
        let avail: usize = 8 * self.buf.len() - self.pos;
        if n_bits > avail {
            Err(BufferTooSmall { requested_bits: n_bits, available_bits: avail })
        } else {
            let ghost pre = *self;
            self.pos = self.pos + n_bits;
            proof {
                assert(self.bits() =~= pre.bits() + Seq::new(n_bits as nat, |j: int| false));
            }
            Ok(())
        }
    }

    /// Write a single bit at the cursor.
    pub fn write_bit(&mut self, bit: bool) -> (r: Result<(), BufferTooSmall>)
        requires
            old(self).wf(),
        ensures
            final(self).wf(),
            final(self).capacity() == old(self).capacity(),
            match r {
                Ok(()) => {
                    &&& old(self).spec_pos() < old(self).capacity()
                    &&& final(self).spec_pos() == old(self).spec_pos() + 1
                    &&& final(self).bits() == old(self).bits().push(bit)
                },
                Err(e) => {
                    &&& old(self).spec_pos() == old(self).capacity()
                    &&& *final(self) == *old(self)
                    &&& e == (BufferTooSmall { requested_bits: 1, available_bits: 0 })
                },
            },
    {
        if self.pos == 8 * self.buf.len() {
            return Err(BufferTooSmall { requested_bits: 1, available_bits: 0 });
        }
        let ghost pre = *self;
        let idx: usize = self.pos / 8;
        let k: usize = self.pos % 8;
        proof {
            lemma_fundamental_div_mod(self.pos as int, 8);
            vstd::arithmetic::div_mod::lemma_multiply_divide_lt(
                self.pos as int,
                8,
                self.buf@.len() as int,
            );
            assert(!bit_at(self.buf@, self.pos as int));
            lemma2_to64();
            lemma_pow2_strictly_increases(k as nat, 8);
        }
        if bit {
            let mask8: u8 = pow2_u64(k) as u8;
            let b: u8 = self.buf[idx];
            proof {
                assert(!nth_bit(b as nat, k as nat));
                lemma_add_bit_fits(b as nat, k as nat, 8);
            }
            let nb: u8 = b + mask8;
            self.buf[idx] = nb;
            proof {
                lemma_nth_bit_set(b as nat, k as nat);
                assert(nth_bit(nb as nat, k as nat));
                assert forall|j: int|
                    0 <= j < 8 * self.buf@.len() && j != pre.pos implies bit_at(self.buf@, j)
                    == bit_at(pre.buf@, j) by {
                    lemma_fundamental_div_mod(j, 8);
                    vstd::arithmetic::div_mod::lemma_multiply_divide_lt(
                        j,
                        8,
                        self.buf@.len() as int,
                    );
                    if j / 8 == idx {
                        assert(j % 8 != k as int);
                        if (j % 8) < k as int {
                            lemma_nth_bit_low_unchanged(
                                b as nat,
                                k as nat,
                                (j % 8) as nat,
                            );
                        } else {
                            lemma_nth_bit_high_unchanged(
                                b as nat,
                                k as nat,
                                (j % 8) as nat,
                            );
                        }
                    }
                }
                assert(bit_at(self.buf@, pre.pos as int));
            }
        }
        self.pos = self.pos + 1;
        proof {
            assert(self.bits() =~= pre.bits().push(bit));
            assert forall|j: int|
                self.pos <= j < 8 * self.buf@.len() implies !bit_at(self.buf@, j) by {
                assert(bit_at(self.buf@, j) == bit_at(pre.buf@, j));
            }
        }
        Ok(())
    }

    /// Write the low `n_bits` bits of `val` at the cursor, LSB first.
    pub fn write_bits(&mut self, n_bits: usize, val: u64) -> (r: Result<(), BufferTooSmall>)
        requires
            old(self).wf(),
            n_bits <= 64,
            n_bits < 64 ==> (val as nat) < pow2(n_bits as nat),
        ensures
            final(self).wf(),
            final(self).capacity() == old(self).capacity(),
            match r {
                Ok(()) => {
                    &&& old(self).spec_pos() + n_bits <= old(self).capacity()
                    &&& final(self).spec_pos() == old(self).spec_pos() + n_bits
                    &&& final(self).bits() == old(self).bits() + scalar_bits(
                        val as nat,
                        n_bits as nat,
                    )
                },
                Err(e) => {
                    &&& old(self).spec_pos() + n_bits > old(self).capacity()
                    &&& *final(self) == *old(self)
                    &&& e == (BufferTooSmall {
                        requested_bits: n_bits,
                        available_bits: (old(self).capacity() - old(self).spec_pos()) as usize,
                    })
                },
            },
    {
        let avail: usize = 8 * self.buf.len() - self.pos;
        if n_bits > avail {
            return Err(BufferTooSmall { requested_bits: n_bits, available_bits: avail });
        }
        let ghost pre = *self;
        let mut v: u64 = val;
        let mut i: usize = 0;
        proof {
            lemma2_to64();
            lemma2_to64_rest();
            assert(v as nat == (val as nat) / pow2(0));
        }
        while i < n_bits
            invariant
                i <= n_bits <= 64,
                self.wf(),
                self.capacity() == pre.capacity(),
                self.spec_pos() == pre.spec_pos() + i,
                pre.spec_pos() + n_bits <= pre.capacity(),
                v as nat == (val as nat) / pow2(i as nat),
                self.bits() == pre.bits() + scalar_bits(val as nat, n_bits as nat).take(i as int),
            decreases n_bits - i,
        {
            let bit = v % 2 == 1;
            proof {
                assert(bit == nth_bit(val as nat, i as nat));
            }
            let ghost before = *self;
            match self.write_bit(bit) {
                Ok(()) => {}
                Err(e) => {
                    proof {
                        assert(false);
                    }
                    return Err(e);
                }
            }
            proof {
                assert(scalar_bits(val as nat, n_bits as nat).take(i + 1)
                    =~= scalar_bits(val as nat, n_bits as nat).take(i as int).push(
                    nth_bit(val as nat, i as nat),
                ));
                assert(self.bits() =~= pre.bits() + scalar_bits(val as nat, n_bits as nat).take(
                    i + 1,
                ));
                lemma2_to64();
                lemma_pow2_pos(i as nat);
                lemma_div_denominator(val as int, pow2(i as nat) as int, 2);
                lemma_pow2_adds(i as nat, 1);
                assert((v / 2) as nat == (val as nat) / pow2((i + 1) as nat));
            }
            v = v / 2;
            i = i + 1;
        }
        proof {
            assert(scalar_bits(val as nat, n_bits as nat).take(n_bits as int) =~= scalar_bits(
                val as nat,
                n_bits as nat,
            ));
        }
        Ok(())
    }

    /// The written prefix has exactly cursor-many bits.
    pub broadcast proof fn lemma_bits_len(self)
        ensures
            #[trigger] self.bits().len() == self.spec_pos(),
    {
    }

    /// Hand back the buffer, truncated to the bytes actually used.
    /// Bits past the cursor in the final byte are zero.
    pub fn into_vec(self) -> (r: Vec<u8>)
        requires
            self.wf(),
        ensures
            r@.len() == (self.spec_pos() + 7) / 8,
            8 * r@.len() >= self.spec_pos(),
            forall|j: int|
                0 <= j < self.spec_pos() ==> stream_of(r@)[j] == self.bits()[j],
            forall|j: int|
                self.spec_pos() <= j < 8 * r@.len() ==> !stream_of(r@)[j],
    {
        let n: usize = (self.pos + 7) / 8;
        proof {
            lemma_fundamental_div_mod(self.pos as int + 7, 8);
            assert(8 * n as int >= self.pos);
            assert((8 * self.buf@.len() as int + 7) / 8 == self.buf@.len() as int) by {
                lemma_fundamental_div_mod_converse(
                    8 * self.buf@.len() as int + 7,
                    8,
                    self.buf@.len() as int,
                    7,
                );
            }
            lemma_div_is_ordered(self.pos as int + 7, 8 * self.buf@.len() as int + 7, 8);
            assert(n <= self.buf@.len());
        }
        let mut buf = self.buf;
        buf.truncate(n);
        proof {
            assert forall|j: int| 0 <= j < 8 * buf@.len() implies stream_of(buf@)[j] == bit_at(
                self.buf@,
                j,
            ) by {
                lemma_fundamental_div_mod(j, 8);
                vstd::arithmetic::div_mod::lemma_multiply_divide_lt(j, 8, buf@.len() as int);
            }
        }
        buf
    }
}

} // verus!

verus! {

/// The natural number whose LSB-first binary digits are `s`.
pub open spec fn bits_to_nat(s: Seq<bool>) -> nat
    decreases s.len(),
{
    if s.len() == 0 {
        0
    } else {
        (if s[0] {
            1nat
        } else {
            0nat
        }) + 2 * bits_to_nat(s.skip(1))
    }
}

/// A bit string of length `n` denotes a number below `2^n`.
pub proof fn lemma_bits_to_nat_bound(s: Seq<bool>)
    ensures
        bits_to_nat(s) < pow2(s.len()),
    decreases s.len(),
{
    lemma2_to64();
    if s.len() == 0 {
    } else {
        lemma_bits_to_nat_bound(s.skip(1));
        lemma_pow2_adds(1, (s.len() - 1) as nat);
    }
}

/// Bit `j` of the denoted number is digit `j` of the string.
pub proof fn lemma_bits_to_nat_bits(s: Seq<bool>, j: int)
    requires
        0 <= j < s.len(),
    ensures
        nth_bit(bits_to_nat(s), j as nat) == s[j],
    decreases s.len(),
{
    let x = bits_to_nat(s);
    let rest = bits_to_nat(s.skip(1));
    lemma2_to64();
    if j == 0 {
        assert(x as int / pow2(0) as int == x);
        lemma_mod_multiples_vanish(
            rest as int,
            if s[0] {
                1int
            } else {
                0int
            },
            2,
        );
    } else {
        lemma_fundamental_div_mod_converse(
            x as int,
            2,
            rest as int,
            if s[0] {
                1int
            } else {
                0int
            },
        );
        assert((x / 2) as nat == rest);
        lemma_nth_bit_halve(x, (j - 1) as nat);
        lemma_bits_to_nat_bits(s.skip(1), j - 1);
    }
}

/// A number below `2^n` whose bits spell `s` is the number `s` denotes.
pub proof fn lemma_bits_to_nat_unique(s: Seq<bool>, v: nat)
    requires
        v < pow2(s.len()),
        forall|j: int| 0 <= j < s.len() ==> #[trigger] nth_bit(v, j as nat) == s[j],
    ensures
        v == bits_to_nat(s),
{
    lemma_bits_to_nat_bound(s);
    assert forall|j: nat| j < s.len() implies nth_bit(v, j) == nth_bit(bits_to_nat(s), j) by {
        lemma_bits_to_nat_bits(s, j as int);
        assert(nth_bit(v, j) == s[j as int]);
    }
    lemma_nth_bit_unique(v, bits_to_nat(s), s.len());
}

} // verus!
