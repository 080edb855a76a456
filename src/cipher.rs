//! The container's cipher and checksum: a stream cipher over 32-bit
//! little-endian words whose key evolves with each encrypted word, and a
//! wraparound sum of complements over the decrypted bytes.

use vstd::prelude::*;
use vstd::arithmetic::div_mod::lemma_add_mod_noop;
use crate::le::{le_value, le_u32, read_u16, read_u32};

verus! {

/// The low byte of `v` repeated in all four bytes of a word, then inverted.
pub open spec fn spread_inverted(v: u32) -> u32 {
    let b = v & 0xff;
    let b2 = b | (b << 8u32);
    !(b2 | (b2 << 16u32))
}

fn spread_inverted_exec(v: u32) -> (r: u32)
    ensures
        r == spread_inverted(v),
{
    let b = v & 0xff;
    let b2 = b | (b << 8u32);
    !(b2 | (b2 << 16u32))
}

/// The key after the word at `i`, whose value before decryption was `c`.
pub open spec fn next_key(key: u32, c: u32, i: int) -> u32 {
    key.wrapping_add(!c).wrapping_add(spread_inverted((i % 256) as u32))
}

/// One stride of the decryption: the words at `i`, `i + stride`, ... are
/// each XORed with the running key, which then advances by the complement of
/// the word's encrypted value and by the spread of its index.
pub open spec fn stride_pass(w: Seq<u32>, key: u32, i: int, stride: nat) -> (Seq<u32>, u32)
    decreases w.len() - i,
{
    if i < 0 || i >= w.len() || stride == 0 {
        (w, key)
    } else {
        let w2 = w.update(i, w[i] ^ key);
        let k2 = next_key(key, w[i], i);
        if i + stride >= w.len() {
            (w2, k2)
        } else {
            stride_pass(w2, k2, i + stride, stride)
        }
    }
}

/// The strides `j`, `j + 1`, ..., `stride - 1`, one after another, the key
/// running on from one to the next.
pub open spec fn passes_from(w: Seq<u32>, key: u32, j: nat, stride: nat) -> (Seq<u32>, u32)
    decreases stride - j,
{
    if j >= stride {
        (w, key)
    } else {
        let (w2, k2) = stride_pass(w, key, j as int, stride);
        passes_from(w2, k2, j + 1, stride)
    }
}

/// The little-endian words that fill `b`, trailing bytes left out.
pub open spec fn words_of(b: Seq<u8>) -> Seq<u32> {
    Seq::new(b.len() / 4, |i: int| le_u32(b, 4 * i))
}

/// Byte `m` (least significant first) of `x`.
pub open spec fn byte_of(x: u32, m: int) -> u8 {
    ((x >> ((8 * m) as u32)) & 0xff) as u8
}

fn byte_at(x: u32, m: u32) -> (r: u8)
    requires
        m < 4,
    ensures
        r == byte_of(x, m as int),
{
    ((x >> (8 * m)) & 0xff) as u8
}

/// `b` with its leading words replaced by `w`, stored little-endian.
pub open spec fn with_words(b: Seq<u8>, w: Seq<u32>) -> Seq<u8> {
    Seq::new(
        b.len(),
        |k: int|
            if k < 4 * w.len() {
                byte_of(w[k / 4], k % 4)
            } else {
                b[k]
            },
    )
}

/// The starting key: the fixed key XORed with the seed, plus the spread of
/// the word count.
pub open spec fn initial_key(key: u32, seed: u32, n: nat) -> u32 {
    (key ^ seed).wrapping_add(spread_inverted((n % 256) as u32))
}

/// `b` decrypted with `key` and `seed` over `block_size` strides.
#[verifier::opaque]
pub open spec fn spec_decrypt(b: Seq<u8>, key: u32, seed: u32, block_size: nat) -> Seq<u8> {
    if block_size == 0 || b.len() < 4 {
        b
    } else {
        let w = words_of(b);
        with_words(b, passes_from(w, initial_key(key, seed, w.len()), 0, block_size).0)
    }
}

/// Decrypts `data` in place. It is read as little-endian 32-bit words
/// (trailing bytes stay as they are), walked in `block_size` interleaved
/// strides with a key that evolves with each encrypted word.
pub fn decrypt(data: &mut [u8], encryption_key: u32, seed: u32, block_size: usize)
    ensures
        final(data)@ == spec_decrypt(old(data)@, encryption_key, seed, block_size as nat),
{
    reveal(spec_decrypt);
    let len = data.len();
    if block_size == 0 || len < 4 {
        return;
    }
    let ghost orig = data@;
    let n = len / 4;
    let mut words: Vec<u32> = Vec::new();
    let mut i: usize = 0;
    while i < n
        invariant
            n == orig.len() / 4,
            len == orig.len(),
            data@ == orig,
            0 <= i <= n,
            words@ =~= words_of(orig).subrange(0, i as int),
        decreases n - i,
    {
        let w = read_u32(data, 4 * i);
        words.push(w);
        i = i + 1;
    }
    assert(words@ =~= words_of(orig));
    let ghost target = passes_from(
        words_of(orig),
        initial_key(encryption_key, seed, n as nat),
        0,
        block_size as nat,
    );
    let mut key = (encryption_key ^ seed).wrapping_add(spread_inverted_exec((n % 256) as u32));
    let mut j: usize = 0;
    while j < block_size
        invariant
            words@.len() == n,
            0 <= j <= block_size,
            passes_from(words@, key, j as nat, block_size as nat) == target,
        decreases block_size - j,
    {
        let mut i: usize = j;
        while i < n
            invariant
                words@.len() == n,
                0 <= j < block_size,
                j <= i,
                passes_from(
                    stride_pass(words@, key, i as int, block_size as nat).0,
                    stride_pass(words@, key, i as int, block_size as nat).1,
                    (j + 1) as nat,
                    block_size as nat,
                ) == target,
            decreases n - i,
        {
            let c = words[i];
            let temp = !c;
            words.set(i, c ^ key);
            key = key.wrapping_add(temp);
            key = key.wrapping_add(spread_inverted_exec((i % 256) as u32));
            if n - i <= block_size {
                i = n;
            } else {
                i = i + block_size;
            }
        }
        j = j + 1;
    }
    assert(words@ == target.0);
    let mut i: usize = 0;
    while i < n
        invariant
            n == orig.len() / 4,
            len == orig.len(),
            data@.len() == len,
            words@.len() == n,
            0 <= i <= n,
            forall|k: int|
                0 <= k < len ==> #[trigger] data@[k] == if k < 4 * i {
                    byte_of(words@[k / 4], k % 4)
                } else {
                    orig[k]
                },
        decreases n - i,
    {
        let w = words[i];
        data[4 * i] = byte_at(w, 0);
        data[4 * i + 1] = byte_at(w, 1);
        data[4 * i + 2] = byte_at(w, 2);
        data[4 * i + 3] = byte_at(w, 3);
        i = i + 1;
    }
    assert(data@ =~= with_words(orig, words@));
}

/// The sum of the complements of the first `n` little-endian 32-bit words of
/// `b`, without wrapping.
pub open spec fn word_sum(b: Seq<u8>, n: nat) -> int
    decreases n,
{
    if n == 0 {
        0
    } else {
        word_sum(b, (n - 1) as nat) + (0xffff_ffff - le_value(b, 4 * (n - 1), 4))
    }
}

/// The sum, without wrapping, of the complements of every full 32-bit word
/// of `b`, then of a remaining 16-bit word, then of a remaining byte.
pub open spec fn checksum_total(b: Seq<u8>) -> int {
    let n = b.len() / 4;
    let half = if b.len() % 4 >= 2 {
        0xffff - le_value(b, 4 * n as int, 2)
    } else {
        0
    };
    let last = if b.len() % 2 == 1 {
        0xff - b[b.len() - 1]
    } else {
        0
    };
    word_sum(b, n) + half + last
}

/// The checksum of `b`: the complement of its 32-bit wrapping sum of
/// complements.
pub open spec fn spec_checksum(b: Seq<u8>) -> u32 {
    (0xffff_ffff - checksum_total(b) % 0x1_0000_0000) as u32
}

proof fn lemma_not_u32(x: u32)
    ensures
        !x == 0xffff_ffff - x,
{
    assert(!x == 0xffff_ffff - x) by (bit_vector);
}

proof fn lemma_not_u16(x: u16)
    ensures
        !x == 0xffff - x,
{
    assert(!x == 0xffff - x) by (bit_vector);
}

proof fn lemma_not_u8(x: u8)
    ensures
        !x == 0xff - x,
{
    assert(!x == 0xff - x) by (bit_vector);
}

/// Adding `t` to a sum kept modulo 2^32 keeps it the true sum modulo 2^32.
proof fn lemma_wrapping_step(sum: u32, total: int, t: u32)
    requires
        sum == total % 0x1_0000_0000,
    ensures
        sum.wrapping_add(t) == (total + t) % 0x1_0000_0000,
{
    lemma_add_mod_noop(total, t as int, 0x1_0000_0000);
}

/// The checksum of `data`: the complement of every full little-endian 32-bit
/// word, then of a remaining 16-bit word, then of a remaining byte, summed
/// with wraparound, and the complement of that sum.
pub fn checksum(data: &[u8]) -> (r: u32)
    ensures
        r == spec_checksum(data@),
{
    let len = data.len();
    let mut sum: u32 = 0;
    let mut i: usize = 0;
    let ghost mut k: nat = 0;
    while len - i >= 4
        invariant
            len == data@.len(),
            i == 4 * k,
            i <= len,
            sum == word_sum(data@, k) % 0x1_0000_0000,
        decreases len - i,
    {
        let val = read_u32(data, i);
        proof {
            lemma_not_u32(val);
            lemma_wrapping_step(sum, word_sum(data@, k), !val);
            assert(word_sum(data@, k + 1) == word_sum(data@, k) + (0xffff_ffff - le_value(
                data@,
                i as int,
                4,
            )));
        }
        sum = sum.wrapping_add(!val);
        i = i + 4;
        proof {
            k = k + 1;
        }
    }
    assert(k == len / 4);
    let ghost words = word_sum(data@, k);
    let ghost half: int = 0;
    if len - i >= 2 {
        let val = read_u16(data, i);
        proof {
            lemma_not_u16(val);
            lemma_wrapping_step(sum, words, (!val) as u32);
            half = 0xffff - le_value(data@, i as int, 2);
        }
        sum = sum.wrapping_add((!val) as u32);
        i = i + 2;
    }
    assert(sum == (words + half) % 0x1_0000_0000);
    if i < len {
        let val = data[i];
        proof {
            lemma_not_u8(val);
            lemma_wrapping_step(sum, words + half, (!val) as u32);
        }
        sum = sum.wrapping_add((!val) as u32);
    }
    proof {
        lemma_not_u32(sum);
    }
    !sum
}

/// 256 to the power `e`.
pub open spec fn pow256(e: nat) -> int
    decreases e,
{
    if e == 0 {
        1
    } else {
        256 * pow256((e - 1) as nat)
    }
}

/// Replacing byte `k` changes a little-endian value that covers it by the
/// byte's change times its weight, and leaves any other value as it was.
proof fn lemma_le_value_update(b: Seq<u8>, k: int, v: u8, at: int, m: nat)
    requires
        0 <= at,
        at + m <= b.len(),
        0 <= k < b.len(),
    ensures
        le_value(b.update(k, v), at, m) == le_value(b, at, m) + if at <= k < at + m {
            (v - b[k]) * pow256((k - at) as nat)
        } else {
            0
        },
    decreases m,
{
    reveal(le_value);
    if m > 0 {
        lemma_le_value_update(b, k, v, at + 1, (m - 1) as nat);
        if at < k < at + m {
            let d = v - b[k];
            let p = pow256((k - at - 1) as nat);
            assert(pow256((k - at) as nat) == 256 * p);
            assert(256 * (d * p) == d * (256 * p)) by (nonlinear_arith);
        }
    }
}

/// Replacing byte `k`, which lies in the first `n` words, changes their sum of
/// complements by the opposite of the byte's change times its weight.
proof fn lemma_word_sum_update(b: Seq<u8>, k: int, v: u8, n: nat)
    requires
        4 * n <= b.len(),
        0 <= k < b.len(),
    ensures
        word_sum(b.update(k, v), n) == word_sum(b, n) - if k < 4 * n {
            (v - b[k]) * pow256((k % 4) as nat)
        } else {
            0
        },
    decreases n,
{
    if n > 0 {
        let at = 4 * (n - 1);
        lemma_word_sum_update(b, k, v, (n - 1) as nat);
        lemma_le_value_update(b, k, v, at, 4);
        if at <= k < at + 4 {
            assert(k % 4 == k - at);
        }
    }
}

/// A change of one byte, weighted by a power of 256 below 2^32, changes a
/// total modulo 2^32.
proof fn lemma_small_change_mod(t: int, d: int, p: nat)
    requires
        -255 <= d <= 255,
        d != 0,
        p <= 3,
    ensures
        (t - d * pow256(p)) % 0x1_0000_0000 != t % 0x1_0000_0000,
{
    reveal_with_fuel(pow256, 4);
    let w = pow256(p);
    assert(1 <= w <= 0x100_0000);
    let c = d * w;
    assert(-0xffff_ffff <= c <= 0xffff_ffff && c != 0) by (nonlinear_arith)
        requires
            -255 <= d <= 255,
            d != 0,
            1 <= w <= 0x100_0000,
            c == d * w,
    ;
    let m: int = 0x1_0000_0000;
    if (t - c) % m == t % m {
        vstd::arithmetic::div_mod::lemma_fundamental_div_mod(t, m);
        vstd::arithmetic::div_mod::lemma_fundamental_div_mod(t - c, m);
        let q1 = t / m;
        let q2 = (t - c) / m;
        assert(c == m * (q1 - q2));
        assert(false) by (nonlinear_arith)
            requires
                c == m * (q1 - q2),
                -0xffff_ffff <= c <= 0xffff_ffff,
                c != 0,
                m == 0x1_0000_0000,
        ;
    }
}

/// Changing any one byte of a buffer changes its checksum: a buffer whose
/// stored checksum was computed before a byte was corrupted fails the check.
pub proof fn lemma_checksum_detects_byte_change(b: Seq<u8>, k: int, v: u8)
    requires
        0 <= k < b.len(),
        v != b[k],
    ensures
        spec_checksum(b.update(k, v)) != spec_checksum(b),
{
    let b2 = b.update(k, v);
    let n = b.len() / 4;
    let d = v - b[k];
    lemma_word_sum_update(b, k, v, n);
    if k < 4 * n {
        lemma_le_value_update(b, k, v, 4 * n as int, 0);
        assert(checksum_total(b2) == checksum_total(b) - d * pow256((k % 4) as nat)) by {
            if b.len() % 4 >= 2 {
                lemma_le_value_update(b, k, v, 4 * n as int, 2);
            }
        }
        lemma_small_change_mod(checksum_total(b), d, (k % 4) as nat);
    } else if b.len() % 4 >= 2 && k < 4 * n + 2 {
        lemma_le_value_update(b, k, v, 4 * n as int, 2);
        assert(checksum_total(b2) == checksum_total(b) - d * pow256((k - 4 * n) as nat));
        lemma_small_change_mod(checksum_total(b), d, (k - 4 * n) as nat);
    } else {
        if b.len() % 4 >= 2 {
            lemma_le_value_update(b, k, v, 4 * n as int, 2);
        }
        assert(k == b.len() - 1 && b.len() % 2 == 1);
        assert(checksum_total(b2) == checksum_total(b) - d * pow256(0));
        lemma_small_change_mod(checksum_total(b), d, 0);
    }
}

} // verus!
