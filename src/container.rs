//! The container: an 80-byte header, then a body that is decrypted in place,
//! checked against a whole-buffer checksum, and cut into payload buffers
//! that are decompressed one by one.

use vstd::prelude::*;
use vstd::slice::slice_to_vec;
use crate::le::{le_u32, le_u64, read_u32, read_u64, lemma_le_value_subrange};
use crate::header::{ParseError, ParseFailure, carries, carries_all, collect, lemma_collect_first_error};
use crate::text::{hex8, hex_digits};
pub use crate::cipher::{checksum, decrypt, spec_checksum, spec_decrypt, lemma_checksum_detects_byte_change};
pub use crate::rle::{decode, rle0_decode, rle8_decode, spec_decode, spec_rle0, spec_rle8};

verus! {

/// The fixed key that the decryption key is derived from.
pub const ENCRYPTION_KEY: u32 = 0xfeedbeef;

/// The number of interleaved strides the decryption walks the words in.
pub const BLOCK_SIZE: usize = 4;

/// The header at the start of a container.
#[derive(Clone, Copy, Debug, PartialEq, Eq)]
pub struct ContainerHeader {
    pub ident: u32,
    pub checksum: u32,
    pub num_buffers: u64,
    pub buffers_table_ofs: u64,
    pub seed: u32,
    pub buffers_data_ofs: u64,
}

/// The container header held by the first 80 bytes of `b`; bytes 28 to 32
/// are alignment padding and bytes 40 to 80 are reserved.
pub open spec fn spec_container_header(b: Seq<u8>) -> ContainerHeader {
    ContainerHeader {
        ident: le_u32(b, 0),
        checksum: le_u32(b, 4),
        num_buffers: le_u64(b, 8),
        buffers_table_ofs: le_u64(b, 16),
        seed: le_u32(b, 24),
        buffers_data_ofs: le_u64(b, 32),
    }
}

impl ContainerHeader {
    /// The first four bytes of every container, read little-endian.
    pub const MAGIC: u32 = 0x53504330;

    pub const SIZE: usize = 80;

    /// Reads a container header; fails when fewer than 80 bytes are given.
    pub fn from_bytes(data: &[u8]) -> (r: Result<Self, ParseError>)
        ensures
            data@.len() < 80 ==> r == Err::<ContainerHeader, ParseError>(
                ParseError::FileTooSmall { expected: 80, actual: data@.len() as usize },
            ),
            data@.len() >= 80 ==> r == Ok::<ContainerHeader, ParseError>(
                spec_container_header(data@),
            ),
    {
        if data.len() < Self::SIZE {
            return Err(ParseError::FileTooSmall { expected: Self::SIZE, actual: data.len() });
        }
        Ok(ContainerHeader {
            ident: read_u32(data, 0),
            checksum: read_u32(data, 4),
            num_buffers: read_u64(data, 8),
            buffers_table_ofs: read_u64(data, 16),
            seed: read_u32(data, 24),
            buffers_data_ofs: read_u64(data, 32),
        })
    }
}

/// One entry of the buffer table: how a payload buffer is encoded and where
/// it lies, relative to the start of the buffer data.
#[derive(Clone, Copy, Debug, PartialEq, Eq)]
pub struct BufferEntry {
    pub encoding: u8,
    pub offset: u64,
    pub size: u64,
}

/// The buffer entry held by the 24 bytes of `b` at `at`; the 7 bytes after
/// the encoding tag are padding.
pub open spec fn spec_buffer_entry(b: Seq<u8>, at: int) -> BufferEntry {
    BufferEntry { encoding: b[at], offset: le_u64(b, at + 8), size: le_u64(b, at + 16) }
}

impl BufferEntry {
    pub const SIZE: usize = 24;

    /// Reads a buffer entry from the first 24 bytes of `data`.
    pub fn from_bytes(data: &[u8]) -> (r: Self)
        requires
            data@.len() >= 24,
        ensures
            r == spec_buffer_entry(data@, 0),
    {
        BufferEntry { encoding: data[0], offset: read_u64(data, 8), size: read_u64(data, 16) }
    }
}

/// `x`, or the largest `u64` where `x` is larger.
pub open spec fn clamp_u64(x: int) -> u64 {
    if x > u64::MAX {
        u64::MAX
    } else {
        x as u64
    }
}

/// The whole container as it is checked and cut: the checksum field zeroed
/// and everything after the 80-byte header decrypted.
pub open spec fn decrypted_image(b: Seq<u8>) -> Seq<u8> {
    let zeroed = b.update(4, 0).update(5, 0).update(6, 0).update(7, 0);
    zeroed.subrange(0, 80) + spec_decrypt(
        b.subrange(80, b.len() as int),
        ENCRYPTION_KEY,
        le_u32(b, 24),
        BLOCK_SIZE as nat,
    )
}

/// Payload buffer `i` of the decrypted container `img` with header `h`: its
/// table entry and its bytes must lie within `img`.
pub open spec fn spec_table_buffer(img: Seq<u8>, h: ContainerHeader, i: int) -> Result<
    Seq<u8>,
    ParseFailure,
> {
    let at = h.buffers_table_ofs + 24 * i;
    if at + 24 > img.len() {
        Err(ParseFailure::InvalidOffset { offset: clamp_u64(at), size: img.len() as usize })
    } else {
        let e = spec_buffer_entry(img, at);
        let start = h.buffers_data_ofs + e.offset;
        if start + e.size > img.len() {
            Err(
                ParseFailure::InvalidOffset {
                    offset: h.buffers_data_ofs.saturating_add(e.offset).saturating_add(e.size),
                    size: img.len() as usize,
                },
            )
        } else {
            Ok(spec_decode(img.subrange(start, start + e.size), e.encoding))
        }
    }
}

/// The payload buffers of the table, by index.
pub open spec fn table_reader(img: Seq<u8>, h: ContainerHeader) -> spec_fn(int) -> Result<
    Seq<u8>,
    ParseFailure,
> {
    |i: int| spec_table_buffer(img, h, i)
}

/// All payload buffers of the decrypted container `img`, decoded, or the
/// error of the first that cannot be cut out.
pub open spec fn spec_buffers(img: Seq<u8>, h: ContainerHeader) -> Result<
    Seq<Seq<u8>>,
    ParseFailure,
> {
    collect(h.num_buffers as nat, table_reader(img, h))
}

/// What unpacking the container `b` gives: its payload buffers, decoded; or
/// the first reason it is rejected: too short, a wrong magic number, a
/// checksum that does not match, or a buffer that lies outside it.
pub open spec fn spec_unpack(b: Seq<u8>) -> Result<Seq<Seq<u8>>, ParseFailure> {
    if b.len() < 80 {
        Err(ParseFailure::FileTooSmall { expected: 80, actual: b.len() as usize })
    } else if le_u32(b, 0) != ContainerHeader::MAGIC {
        Err(
            ParseFailure::TypeMismatch {
                expected: "SPC0 magic (0x53504330)"@,
                actual: "0x"@ + hex_digits(le_u32(b, 0) as nat, 8),
            },
        )
    } else if spec_checksum(decrypted_image(b)) != le_u32(b, 4) {
        Err(
            ParseFailure::TypeMismatch {
                expected: "checksum 0x"@ + hex_digits(le_u32(b, 4) as nat, 8),
                actual: "0x"@ + hex_digits(spec_checksum(decrypted_image(b)) as nat, 8),
            },
        )
    } else {
        spec_buffers(decrypted_image(b), spec_container_header(b))
    }
}

proof fn lemma_buffer_entry_window(b: Seq<u8>, at: int)
    requires
        0 <= at,
        at + 24 <= b.len(),
    ensures
        spec_buffer_entry(b.subrange(at, at + 24), 0) == spec_buffer_entry(b, at),
{
    lemma_le_value_subrange(b, at, at + 24, 8, 8);
    lemma_le_value_subrange(b, at, at + 24, 16, 8);
}

/// A container whose magic number is wrong is rejected for that alone: the
/// outcome depends on nothing past its first four bytes, so neither the
/// decryption nor the checksum is looked at.
pub proof fn lemma_wrong_magic_rejected_first(b1: Seq<u8>, b2: Seq<u8>)
    requires
        b1.len() >= 80,
        b2.len() >= 80,
        b1.subrange(0, 4) == b2.subrange(0, 4),
        le_u32(b1, 0) != ContainerHeader::MAGIC,
    ensures
        spec_unpack(b1) == spec_unpack(b2),
        spec_unpack(b1) == Err::<Seq<Seq<u8>>, ParseFailure>(
            ParseFailure::TypeMismatch {
                expected: "SPC0 magic (0x53504330)"@,
                actual: "0x"@ + hex_digits(le_u32(b1, 0) as nat, 8),
            },
        ),
{
    lemma_le_value_subrange(b1, 0, 4, 0, 4);
    lemma_le_value_subrange(b2, 0, 4, 0, 4);
}

/// A copy of the container with the checksum field zeroed and everything
/// after the header decrypted.
fn decrypted_copy(data: &[u8], seed: u32) -> (img: Vec<u8>)
    requires
        data@.len() >= 80,
        seed == le_u32(data@, 24),
    ensures
        img@ == decrypted_image(data@),
{
    let mut img = slice_to_vec(data);
    img.set(4, 0);
    img.set(5, 0);
    img.set(6, 0);
    img.set(7, 0);
    let ghost zeroed = img@;
    assert(zeroed.subrange(80, zeroed.len() as int) =~= data@.subrange(80, data@.len() as int));
    if img.len() > ContainerHeader::SIZE {
        let (_, body) = img.as_mut_slice().split_at_mut(ContainerHeader::SIZE);
        decrypt(body, ENCRYPTION_KEY, seed, BLOCK_SIZE);
    } else {
        reveal(spec_decrypt);
        assert(spec_decrypt(data@.subrange(80, data@.len() as int), ENCRYPTION_KEY, seed, 4)
            =~= Seq::<u8>::empty());
    }
    assert(img@ =~= decrypted_image(data@));
    img
}

/// Cuts out and decodes payload buffer `i` of the decrypted container.
fn read_table_buffer(img: &[u8], h: &ContainerHeader, i: u64) -> (r: Result<Vec<u8>, ParseError>)
    requires
        i == 0 || h.buffers_table_ofs + 24 * i <= img@.len(),
    ensures
        carries(r, spec_table_buffer(img@, *h, i as int)),
        r is Ok ==> h.buffers_table_ofs + 24 * (i + 1) <= img@.len(),
{
    let len = img.len();
    let len64 = len as u64;
    let at: u64 = if i == 0 {
        h.buffers_table_ofs
    } else {
        h.buffers_table_ofs + 24 * i
    };
    if at > len64 || len64 - at < 24 {
        return Err(ParseError::InvalidOffset { offset: at, size: len });
    }
    let at = at as usize;
    let entry = BufferEntry::from_bytes(&img[at..at + 24]);
    proof {
        lemma_buffer_entry_window(img@, at as int);
    }
    let base = h.buffers_data_ofs;
    if base > len64 || entry.offset > len64 - base || entry.size > len64 - base - entry.offset {
        return Err(
            ParseError::InvalidOffset {
                offset: base.saturating_add(entry.offset).saturating_add(entry.size),
                size: len,
            },
        );
    }
    let start = (base + entry.offset) as usize;
    let end = start + entry.size as usize;
    Ok(decode(&img[start..end], entry.encoding))
}

/// Cuts out and decodes every payload buffer of the decrypted container.
fn read_table(img: &[u8], h: &ContainerHeader) -> (r: Result<Vec<Vec<u8>>, ParseError>)
    ensures
        carries_all(r, spec_buffers(img@, *h)),
{
    let ghost f = table_reader(img@, *h);
    let mut buffers: Vec<Vec<u8>> = Vec::new();
    let mut i: u64 = 0;
    while i < h.num_buffers
        invariant
            f == table_reader(img@, *h),
            i <= h.num_buffers,
            i == 0 || h.buffers_table_ofs + 24 * i <= img@.len(),
            buffers@.len() == i,
            forall|j: int| 0 <= j < i ==> #[trigger] f(j) is Ok,
            forall|j: int| 0 <= j < i ==> f(j) == Ok::<Seq<u8>, ParseFailure>(#[trigger] buffers@[j]@),
        decreases h.num_buffers - i,
    {
        assert(f(i as int) == spec_table_buffer(img@, *h, i as int));
        let b = match read_table_buffer(img, h, i) {
            Ok(b) => b,
            Err(e) => {
                proof {
                    lemma_collect_first_error(h.num_buffers as nat, f, i as int);
                }
                return Err(e);
            },
        };
        buffers.push(b);
        i = i + 1;
    }
    assert(Seq::new(h.num_buffers as nat, |j: int| f(j)->Ok_0) =~= buffers@.map_values(
        |v: Vec<u8>| v@,
    ));
    Ok(buffers)
}

/// Unpacks a container: checks its magic number, decrypts its body, checks
/// its checksum, and returns its payload buffers, decompressed.
pub fn unpack_container(data: &[u8]) -> (r: Result<Vec<Vec<u8>>, ParseError>)
    ensures
        carries_all(r, spec_unpack(data@)),
{
    let header = match ContainerHeader::from_bytes(data) {
        Ok(h) => h,
        Err(e) => return Err(e),
    };
    if header.ident != ContainerHeader::MAGIC {
        let expected = String::from_str("SPC0 magic (0x53504330)");
        let actual = String::from_str("0x").concat(hex8(header.ident).as_str());
        return Err(ParseError::TypeMismatch { expected, actual });
    }
    let img = decrypted_copy(data, header.seed);
    let computed = checksum(img.as_slice());
    if computed != header.checksum {
        let expected = String::from_str("checksum 0x").concat(hex8(header.checksum).as_str());
        let actual = String::from_str("0x").concat(hex8(computed).as_str());
        return Err(ParseError::TypeMismatch { expected, actual });
    }
    read_table(img.as_slice(), &header)
}

} // verus!
