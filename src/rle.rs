//! The two run-length encodings of payload buffers.

use vstd::prelude::*;
use vstd::slice::slice_to_vec;

verus! {

/// `s` written `n` times in a row.
pub open spec fn repeat(s: Seq<u8>, n: nat) -> Seq<u8>
    decreases n,
{
    if n == 0 {
        Seq::empty()
    } else {
        repeat(s, (n - 1) as nat) + s
    }
}

/// RLE8: each (count, byte) pair stands for `byte` written `count` times; an
/// unpaired last byte is ignored.
pub open spec fn spec_rle8(b: Seq<u8>) -> Seq<u8>
    decreases b.len(),
{
    if b.len() < 2 {
        Seq::empty()
    } else {
        repeat(seq![b[1]], b[0] as nat) + spec_rle8(b.subrange(2, b.len() as int))
    }
}

/// RLE0 with the current block size `block`: a control byte 0 is followed by
/// a new block size, a count and one block, written count times; a nonzero
/// control byte is the count for one block of the current size. Decoding
/// stops where the input ends inside a record.
pub open spec fn spec_rle0(b: Seq<u8>, block: nat) -> Seq<u8>
    decreases b.len(),
{
    if b.len() == 0 {
        Seq::empty()
    } else if b[0] == 0 {
        if b.len() < 3 || 3 + b[1] > b.len() {
            Seq::empty()
        } else {
            let size = b[1] as nat;
            repeat(b.subrange(3, 3 + size as int), b[2] as nat) + spec_rle0(
                b.subrange(3 + size as int, b.len() as int),
                size,
            )
        }
    } else if 1 + block > b.len() {
        Seq::empty()
    } else {
        repeat(b.subrange(1, 1 + block as int), b[0] as nat) + spec_rle0(
            b.subrange(1 + block as int, b.len() as int),
            block,
        )
    }
}

/// The bytes of a payload buffer stored with encoding tag `encoding`: 1 is
/// RLE8, 2 is RLE0 starting with blocks of one byte, and any other tag
/// leaves the bytes as they are.
pub open spec fn spec_decode(b: Seq<u8>, encoding: u8) -> Seq<u8> {
    if encoding == 1 {
        spec_rle8(b)
    } else if encoding == 2 {
        spec_rle0(b, 1)
    } else {
        b
    }
}

/// A record with control byte 0 sets the block size that a following record
/// with a nonzero control byte `c` uses: `[0, s, n] + x + [c] + y + rest`,
/// with blocks `x` and `y` of `s` bytes, decodes to `x` written `n` times,
/// then `y` written `c` times, then what `rest` decodes to with block size `s`.
pub proof fn lemma_rle0_block_size_carries_over(
    x: Seq<u8>,
    y: Seq<u8>,
    n: u8,
    c: u8,
    rest: Seq<u8>,
    block: nat,
)
    requires
        x.len() == y.len(),
        x.len() <= 255,
        c != 0,
    ensures
        spec_rle0(seq![0u8, x.len() as u8, n] + x + seq![c] + y + rest, block) == repeat(
            x,
            n as nat,
        ) + repeat(y, c as nat) + spec_rle0(rest, x.len()),
{
    let s = x.len();
    let b = seq![0u8, s as u8, n] + x + seq![c] + y + rest;
    let tail = seq![c] + y + rest;
    assert(b.subrange(3, 3 + s as int) =~= x);
    assert(b.subrange(3 + s as int, b.len() as int) =~= tail);
    assert(tail.subrange(1, 1 + s as int) =~= y);
    assert(tail.subrange(1 + s as int, tail.len() as int) =~= rest);
    assert(spec_rle0(tail, s) == repeat(y, c as nat) + spec_rle0(rest, s));
    assert(repeat(x, n as nat) + (repeat(y, c as nat) + spec_rle0(rest, s)) =~= repeat(
        x,
        n as nat,
    ) + repeat(y, c as nat) + spec_rle0(rest, s));
}

/// Appends `block` to `out` `count` times.
fn push_repeated(out: &mut Vec<u8>, block: &[u8], count: u8)
    ensures
        final(out)@ == old(out)@ + repeat(block@, count as nat),
{
    let mut c: u8 = 0;
    while c < count
        invariant
            c <= count,
            out@ == old(out)@ + repeat(block@, c as nat),
        decreases count - c,
    {
        let mut k: usize = 0;
        let ghost start = out@;
        while k < block.len()
            invariant
                0 <= k <= block@.len(),
                out@ == start + block@.subrange(0, k as int),
            decreases block@.len() - k,
        {
            out.push(block[k]);
            k = k + 1;
            assert(out@ =~= start + block@.subrange(0, k as int));
        }
        assert(block@.subrange(0, k as int) =~= block@);
        c = c + 1;
        assert(out@ =~= old(out)@ + repeat(block@, c as nat));
    }
}

/// Decodes RLE8: pairs of (count, byte).
pub fn rle8_decode(data: &[u8]) -> (r: Vec<u8>)
    ensures
        r@ == spec_rle8(data@),
{
    let len = data.len();
    let mut result: Vec<u8> = Vec::new();
    let mut i: usize = 0;
    assert(data@.subrange(0, len as int) =~= data@);
    assert(result@ + data@ =~= data@);
    assert(spec_rle8(data@) =~= result@ + spec_rle8(data@));
    while len - i >= 2
        invariant
            len == data@.len(),
            i <= len,
            spec_rle8(data@) == result@ + spec_rle8(data@.subrange(i as int, len as int)),
        decreases len - i,
    {
        let ghost rest = data@.subrange(i as int, len as int);
        let ghost before = result@;
        let one = [data[i + 1]];
        push_repeated(&mut result, &one, data[i]);
        assert(one@ =~= seq![rest[1]]);
        assert(rest.subrange(2, rest.len() as int) =~= data@.subrange(i + 2, len as int));
        i = i + 2;
        assert(before + (repeat(seq![rest[1]], rest[0] as nat) + spec_rle8(
            data@.subrange(i as int, len as int),
        )) =~= result@ + spec_rle8(data@.subrange(i as int, len as int)));
    }
    assert(result@ =~= result@ + Seq::<u8>::empty());
    result
}

/// Decodes RLE0: variable-size blocks, each written a given number of times.
pub fn rle0_decode(data: &[u8]) -> (r: Vec<u8>)
    ensures
        r@ == spec_rle0(data@, 1),
{
    let len = data.len();
    let mut result: Vec<u8> = Vec::new();
    let mut block_size: usize = 1;
    let mut i: usize = 0;
    assert(data@.subrange(0, len as int) =~= data@);
    while i < len
        invariant
            len == data@.len(),
            i <= len,
            block_size <= 255,
            spec_rle0(data@, 1) == result@ + spec_rle0(
                data@.subrange(i as int, len as int),
                block_size as nat,
            ),
        decreases len - i,
    {
        let ghost i0 = i as int;
        let ghost rest = data@.subrange(i0, len as int);
        let ghost before = result@;
        let ghost bs0 = block_size as nat;
        let occurrence = data[i];
        i = i + 1;
        if occurrence == 0 {
            if i >= len {
                assert(result@ =~= result@ + Seq::<u8>::empty());
                return result;
            }
            block_size = data[i] as usize;
            i = i + 1;
            if i >= len {
                assert(result@ =~= result@ + Seq::<u8>::empty());
                return result;
            }
            let count = data[i];
            i = i + 1;
            if block_size > len - i {
                assert(result@ =~= result@ + Seq::<u8>::empty());
                return result;
            }
            assert(rest.subrange(3, 3 + block_size) =~= data@.subrange(
                i as int,
                i + block_size,
            ));
            push_repeated(&mut result, &data[i..i + block_size], count);
            i = i + block_size;
            assert(rest.subrange(3 + block_size, rest.len() as int) =~= data@.subrange(
                i as int,
                len as int,
            ));
        } else {
            if block_size > len - i {
                assert(result@ =~= result@ + Seq::<u8>::empty());
                return result;
            }
            assert(rest.subrange(1, 1 + block_size) =~= data@.subrange(
                i as int,
                i + block_size,
            ));
            push_repeated(&mut result, &data[i..i + block_size], occurrence);
            i = i + block_size;
            assert(rest.subrange(1 + block_size, rest.len() as int) =~= data@.subrange(
                i as int,
                len as int,
            ));
        }
        assert(before + spec_rle0(rest, bs0) =~= result@ + spec_rle0(
            data@.subrange(i as int, len as int),
            block_size as nat,
        ));
    }
    assert(result@ =~= result@ + Seq::<u8>::empty());
    result
}

/// Decodes a payload buffer according to its encoding tag.
pub fn decode(data: &[u8], encoding: u8) -> (r: Vec<u8>)
    ensures
        r@ == spec_decode(data@, encoding),
{
    match encoding {
        1 => rle8_decode(data),
        2 => rle0_decode(data),
        _ => slice_to_vec(data),
    }
}

} // verus!
