//! ICMP message framing and checksum discipline, shared between the IPv4 and
//! IPv6 variants.
//!
//! The internet checksum is the bitwise complement of the one's-complement
//! sum of the message read as 16-bit big-endian words, with an odd trailing
//! byte padded by a zero and the checksum field itself treated as zero.

pub mod v4;
pub mod v6;

use vstd::prelude::*;
use vstd::arithmetic::div_mod::{
    lemma_fundamental_div_mod,
    lemma_mod_multiples_vanish,
    lemma_sub_mod_noop,
};

verus! {

/// The sum of a byte sequence read as 16-bit big-endian words, an odd
/// trailing byte padded with a zero.
pub open spec fn sum_words(s: Seq<u8>) -> int
    decreases s.len(),
{
    if s.len() == 0 {
        0
    } else if s.len() == 1 {
        s[0] * 0x100
    } else {
        s[0] * 0x100 + s[1] + sum_words(s.skip(2))
    }
}

/// The word sum is non-negative and bounded by one maximal word per byte
/// pair, counting a padded pair for an odd trailing byte.
pub proof fn lemma_sum_words_bound(s: Seq<u8>)
    ensures
        0 <= sum_words(s) <= 0x8000 * (s.len() + 1),
    decreases s.len(),
{
    if s.len() > 1 {
        lemma_sum_words_bound(s.skip(2));
    }
}

/// Appending a trailing zero byte to an odd-length input does not change the
/// word sum: the padding the sum performs is made explicit.
pub proof fn lemma_sum_words_pad(s: Seq<u8>)
    requires
        s.len() % 2 == 1,
    ensures
        sum_words(s.push(0)) == sum_words(s),
    decreases s.len(),
{
    if s.len() == 1 {
        assert(s.push(0).skip(2) =~= Seq::<u8>::empty());
        assert(sum_words(Seq::<u8>::empty()) == 0);
        assert(sum_words(s.push(0)) == s[0] * 0x100);
    } else {
        assert(s.push(0).skip(2) =~= s.skip(2).push(0));
        lemma_sum_words_pad(s.skip(2));
        assert(sum_words(s.push(0)) == s[0] * 0x100 + s[1] + sum_words(s.skip(2).push(0)));
    }
}

/// The word sum distributes over concatenation at an even split.
pub proof fn lemma_sum_words_append(a: Seq<u8>, b: Seq<u8>)
    requires
        a.len() % 2 == 0,
    ensures
        sum_words(a + b) == sum_words(a) + sum_words(b),
    decreases a.len(),
{
    if a.len() == 0 {
        assert(a + b =~= b);
    } else {
        assert((a + b).skip(2) =~= a.skip(2) + b);
        lemma_sum_words_append(a.skip(2), b);
    }
}

/// End-around carry: fold the bits above the low 16 back into them until
/// none remain.
pub open spec fn fold_sum(n: int) -> int
    decreases n,
        when n >= 0 via fold_sum_decreases
{
    if n < 0x10000 {
        n
    } else {
        fold_sum(n % 0x10000 + n / 0x10000)
    }
}

#[via_fn]
proof fn fold_sum_decreases(n: int) {
    if n >= 0x10000 {
        lemma_fundamental_div_mod(n, 0x10000);
        assert(n % 0x10000 + n / 0x10000 < n) by (nonlinear_arith)
            requires
                n >= 0x10000,
                n == 0x10000 * (n / 0x10000) + n % 0x10000,
                0 <= n % 0x10000 < 0x10000,
        ;
    }
}

/// The fold lands in a single 16-bit word, preserves the value modulo
/// `0xFFFF`, and keeps a positive sum positive.
pub proof fn lemma_fold_sum_props(n: int)
    requires
        n >= 0,
    ensures
        0 <= fold_sum(n) < 0x10000,
        fold_sum(n) % 0xFFFF == n % 0xFFFF,
        n > 0 ==> fold_sum(n) > 0,
    decreases n,
{
    if n < 0x10000 {
    } else {
        lemma_fundamental_div_mod(n, 0x10000);
        let q = n / 0x10000;
        let r = n % 0x10000;
        let m = r + q;
        assert(m < n) by (nonlinear_arith)
            requires
                n >= 0x10000,
                n == 0x10000 * q + r,
                0 <= r < 0x10000,
                q == n / 0x10000,
                m == r + q,
        ;
        assert(q >= 1) by (nonlinear_arith)
            requires
                n >= 0x10000,
                n == 0x10000 * q + r,
                0 <= r < 0x10000,
        ;
        lemma_fold_sum_props(m);
        assert(n == 0xFFFF * q + m);
        lemma_mod_multiples_vanish(q, m, 0xFFFF);
    }
}

/// Adding the complement of a folded sum to the sum folds to `0xFFFF`: the
/// recomputed checksum of a message carrying its own checksum complements
/// to zero.
pub proof fn lemma_fold_complement(n: int)
    requires
        n >= 0,
    ensures
        fold_sum(n + (0xFFFF - fold_sum(n))) == 0xFFFF,
{
    lemma_fold_sum_props(n);
    let f = fold_sum(n);
    let m = n + (0xFFFF - f);
    assert(m == n - f + 0xFFFF);
    lemma_sub_mod_noop(n, f, 0xFFFF);
    assert((n - f) % 0xFFFF == (n % 0xFFFF - f % 0xFFFF) % 0xFFFF);
    lemma_mod_multiples_vanish(1, n - f, 0xFFFF);
    assert(m % 0xFFFF == (n - f) % 0xFFFF);
    lemma_fold_sum_props(m);
    assert(fold_sum(m) % 0xFFFF == 0);
    assert(m > 0);
    assert(0 < fold_sum(m) < 0x10000);
}

/// The word sum of the message with its 16-bit checksum field (bytes 2 and
/// 3) treated as zero: the first word, then everything past the checksum.
pub open spec fn skip_sum(s: Seq<u8>) -> int {
    (if s.len() >= 2 {
        s[0] * 0x100 + s[1]
    } else {
        0
    }) + (if s.len() >= 4 {
        sum_words(s.skip(4))
    } else {
        0
    })
}

/// The skip sum is non-negative and small enough for 64-bit accumulation.
pub proof fn lemma_skip_sum_bound(s: Seq<u8>)
    ensures
        0 <= skip_sum(s) <= 0x8000 * (s.len() + 3),
{
    if s.len() >= 4 {
        lemma_sum_words_bound(s.skip(4));
    }
}

/// Sum the bytes of `data` from `start` on as 16-bit big-endian words,
/// padding an odd trailing byte with zero.
pub(crate) fn sum_be16_from(data: &[u8], start: usize) -> (r: u64)
    requires
        start <= data@.len(),
        data@.len() <= 0xFFFF_FFFF,
    ensures
        r == sum_words(data@.skip(start as int)),
{
    let n = data.len();
    let mut sum: u64 = 0;
    let mut i: usize = start;
    while n - i >= 2
        invariant
            start <= i <= n,
            n == data@.len(),
            n <= 0xFFFF_FFFF,
            sum + sum_words(data@.skip(i as int)) == sum_words(data@.skip(start as int)),
            sum <= 0x8000 * i,
        decreases n - i,
    {
        proof {
            assert(data@.skip(i as int).skip(2) =~= data@.skip(i + 2));
            lemma_sum_words_bound(data@.skip(i as int));
            lemma_sum_words_bound(data@.skip(start as int));
        }
        let word = (data[i] as u64) * 0x100 + (data[i + 1] as u64);
        sum = sum + word;
        i = i + 2;
    }
    if i < n {
        proof {
            assert(data@.skip(i as int).len() == 1);
        }
        sum = sum + (data[i] as u64) * 0x100;
    }
    sum
}

/// Sum a byte slice as 16-bit big-endian words, padding if needed.
pub fn sum_be16(data: &[u8]) -> (r: u64)
    requires
        data@.len() <= 0xFFFF_FFFF,
    ensures
        r == sum_words(data@),
{
    proof {
        assert(data@.skip(0) =~= data@);
    }
    sum_be16_from(data, 0)
}

/// Fold the end-around carry of a 64-bit word sum down to 16 bits.
pub(crate) fn fold_carry(sum0: u64) -> (r: u64)
    ensures
        r == fold_sum(sum0 as int),
        r < 0x10000,
{
    let mut sum: u64 = sum0;
    while sum >> 16 != 0
        invariant
            fold_sum(sum as int) == fold_sum(sum0 as int),
        decreases sum,
    {
        proof {
            assert(sum >> 16 == sum / 0x10000) by (bit_vector);
            assert(sum & 0xFFFF == sum % 0x10000) by (bit_vector);
            lemma_fundamental_div_mod(sum as int, 0x10000);
            assert(sum % 0x10000 + sum / 0x10000 < sum) by (nonlinear_arith)
                requires
                    sum >= 0x10000,
                    sum as int == 0x10000 * (sum as int / 0x10000) + sum as int % 0x10000,
                    0 <= sum as int % 0x10000 < 0x10000,
            ;
        }
        sum = (sum & 0xFFFF) + (sum >> 16);
    }
    proof {
        assert(sum >> 16 == sum / 0x10000) by (bit_vector);
        assert(sum < 0x10000);
    }
    sum
}

/// The checksum of a message with no pseudo-header: the complement of the
/// folded skip sum.
pub open spec fn checksum_seq_spec(s: Seq<u8>) -> u16 {
    (0xFFFF - fold_sum(skip_sum(s))) as u16
}

/// The message with a checksum written into bytes 2 and 3, big-endian.
pub open spec fn inject_checksum(s: Seq<u8>, c: u16) -> Seq<u8> {
    s.update(2, (c / 0x100) as u8).update(3, (c % 0x100) as u8)
}

/// Core of the checksum round trip: writing the complement of the folded
/// skip sum into the checksum field makes the whole-message sum fold to
/// `0xFFFF`, whatever constant word sum (an IPv6 pseudo-header, or zero)
/// is added alongside the message.
pub proof fn lemma_checksum_inject(s: Seq<u8>, base: int)
    requires
        s.len() >= 4,
        base >= 0,
    ensures
        ({
            let c = (0xFFFF - fold_sum(base + skip_sum(s))) as u16;
            let t = inject_checksum(s, c);
            fold_sum(base + sum_words(t)) == 0xFFFF
        }),
{
    lemma_skip_sum_bound(s);
    lemma_fold_sum_props(base + skip_sum(s));
    let c = (0xFFFF - fold_sum(base + skip_sum(s))) as u16;
    let t = inject_checksum(s, c);
    let head = t.take(4);
    let tail = t.skip(4);
    lemma_sum_words_append(head, tail);
    assert(head + tail =~= t);
    assert(head.skip(2) =~= seq![t[2], t[3]]);
    assert(seq![t[2], t[3]].skip(2) =~= Seq::<u8>::empty());
    assert(sum_words(Seq::<u8>::empty()) == 0);
    assert(sum_words(seq![t[2], t[3]]) == t[2] * 0x100 + t[3]);
    assert(sum_words(head) == t[0] * 0x100 + t[1] + (t[2] * 0x100 + t[3]));
    assert(tail =~= s.skip(4));
    assert(t[2] == c / 0x100 && t[3] == c % 0x100);
    lemma_fundamental_div_mod(c as int, 0x100);
    assert(t[2] * 0x100 + t[3] == c);
    assert(sum_words(t) == skip_sum(s) + c);
    lemma_fold_complement(base + skip_sum(s));
}

} // verus!
