//! Fixed-size records of the object-tree format and the decoding errors.

use vstd::prelude::*;
use crate::le::{le_u64, read_u64, lemma_le_value_subrange};

verus! {

/// Why a decode failed.
#[derive(Debug)]
#[allow(inconsistent_fields)]
pub enum ParseError {
    /// The input is shorter than the record read from it.
    FileTooSmall { expected: usize, actual: usize },
    /// An offset, or the end of an offset/size range, lies past the buffer.
    InvalidOffset { offset: u64, size: usize },
    /// A string has no terminating zero byte, or is not UTF-8; holds its offset.
    UnterminatedString(u64),
    /// The variable table's byte size is not the declared count of records.
    VarCountMismatch { expected: u64, actual: usize },
    /// The child table's byte size is not the declared count of records.
    ChildCountMismatch { expected: u64, actual: usize },
    /// A required object or value is absent; holds its name.
    MissingField(String),
    /// A value has another type or size than expected, or a magic number or
    /// checksum does not match.
    TypeMismatch { expected: String, actual: String },
    /// Objects are nested deeper than the parser follows; holds that limit.
    NestingTooDeep(usize),
}

/// What a decoding error says, as plain values.
#[allow(inconsistent_fields)]
pub enum ParseFailure {
    FileTooSmall { expected: usize, actual: usize },
    InvalidOffset { offset: u64, size: usize },
    UnterminatedString(u64),
    VarCountMismatch { expected: u64, actual: usize },
    ChildCountMismatch { expected: u64, actual: usize },
    MissingField(Seq<char>),
    TypeMismatch { expected: Seq<char>, actual: Seq<char> },
    NestingTooDeep(usize),
}

impl View for ParseError {
    type V = ParseFailure;

    open spec fn view(&self) -> ParseFailure {
        match self {
            ParseError::FileTooSmall { expected, actual } => ParseFailure::FileTooSmall {
                expected: *expected,
                actual: *actual,
            },
            ParseError::InvalidOffset { offset, size } => ParseFailure::InvalidOffset {
                offset: *offset,
                size: *size,
            },
            ParseError::UnterminatedString(o) => ParseFailure::UnterminatedString(*o),
            ParseError::VarCountMismatch { expected, actual } => ParseFailure::VarCountMismatch {
                expected: *expected,
                actual: *actual,
            },
            ParseError::ChildCountMismatch { expected, actual } => ParseFailure::ChildCountMismatch {
                expected: *expected,
                actual: *actual,
            },
            ParseError::MissingField(s) => ParseFailure::MissingField(s@),
            ParseError::TypeMismatch { expected, actual } => ParseFailure::TypeMismatch {
                expected: expected@,
                actual: actual@,
            },
            ParseError::NestingTooDeep(n) => ParseFailure::NestingTooDeep(*n),
        }
    }
}

/// `r` carries the outcome `s`: the same error, or a value whose view is
/// the model.
pub open spec fn carries<T: View>(r: Result<T, ParseError>, s: Result<T::V, ParseFailure>) -> bool {
    match r {
        Ok(v) => s == Ok::<T::V, ParseFailure>(v@),
        Err(e) => s == Err::<T::V, ParseFailure>(e@),
    }
}

/// `r` carries the outcome `s`: the same error, or a list whose views are
/// the models.
pub open spec fn carries_all<T: View>(r: Result<Vec<T>, ParseError>, s: Result<Seq<T::V>, ParseFailure>) -> bool {
    match r {
        Ok(v) => s == Ok::<Seq<T::V>, ParseFailure>(v@.map_values(|x: T| x@)),
        Err(e) => s == Err::<Seq<T::V>, ParseFailure>(e@),
    }
}

/// The values `f(0)`, ..., `f(n - 1)` when each is `Ok`; else the error of
/// the first that is not.
pub open spec fn collect<T>(n: nat, f: spec_fn(int) -> Result<T, ParseFailure>) -> Result<
    Seq<T>,
    ParseFailure,
> {
    if forall|i: int| 0 <= i < n ==> #[trigger] f(i) is Ok {
        Ok(Seq::new(n, |i: int| f(i)->Ok_0))
    } else {
        let k = choose|k: int| #![trigger f(k)]
            0 <= k < n && f(k) is Err && forall|j: int| 0 <= j < k ==> #[trigger] f(j) is Ok;
        Err(f(k)->Err_0)
    }
}

/// When `f(i)` is the first error among `f(0)`, ..., `f(n - 1)`, `collect`
/// reports it.
pub proof fn lemma_collect_first_error<T>(n: nat, f: spec_fn(int) -> Result<T, ParseFailure>, i: int)
    requires
        0 <= i < n,
        f(i) is Err,
        forall|j: int| 0 <= j < i ==> #[trigger] f(j) is Ok,
    ensures
        collect(n, f) == Err::<Seq<T>, ParseFailure>(f(i)->Err_0),
{
    let k = choose|k: int| #![trigger f(k)]
        0 <= k < n && f(k) is Err && forall|j: int| 0 <= j < k ==> #[trigger] f(j) is Ok;
    assert(0 <= k < n && f(k) is Err && forall|j: int| 0 <= j < k ==> #[trigger] f(j) is Ok);
    if k < i {
        assert(f(k) is Ok);
    } else if k > i {
        assert(f(i) is Ok);
    }
}

/// An {offset, size} pair locating a section inside an object's buffer.
#[derive(Clone, Copy, Debug, PartialEq, Eq)]
pub struct BufferSection {
    pub offset: u64,
    pub size: u64,
}

/// The section described by the 16 bytes of `b` at `at`.
pub open spec fn spec_section(b: Seq<u8>, at: int) -> BufferSection {
    BufferSection { offset: le_u64(b, at), size: le_u64(b, at + 8) }
}

impl BufferSection {
    /// Reads a section from the first 16 bytes of `data`.
    pub fn from_bytes(data: &[u8]) -> (r: Self)
        requires
            data@.len() >= 16,
        ensures
            r == spec_section(data@, 0),
    {
        BufferSection { offset: read_u64(data, 0), size: read_u64(data, 8) }
    }
}

/// The 104-byte header at the start of every stored object.
#[derive(Clone, Copy, Debug, PartialEq, Eq)]
pub struct PackHeader {
    pub type_name_offset: u64,
    pub owner_offset: u64,
    pub name_offset: u64,
    pub num_vars: u64,
    pub num_children: u64,
    pub strings: BufferSection,
    pub vars: BufferSection,
    pub children: BufferSection,
    pub data: BufferSection,
}

/// The object header held by the first 104 bytes of `b`.
pub open spec fn spec_pack_header(b: Seq<u8>) -> PackHeader {
    PackHeader {
        type_name_offset: le_u64(b, 0),
        owner_offset: le_u64(b, 8),
        name_offset: le_u64(b, 16),
        num_vars: le_u64(b, 24),
        num_children: le_u64(b, 32),
        strings: spec_section(b, 40),
        vars: spec_section(b, 56),
        children: spec_section(b, 72),
        data: spec_section(b, 88),
    }
}

impl PackHeader {
    pub const SIZE: usize = 104;

    /// Reads an object header; fails when fewer than 104 bytes are given.
    pub fn from_bytes(data: &[u8]) -> (r: Result<Self, ParseError>)
        ensures
            data@.len() < 104 ==> r == Err::<PackHeader, ParseError>(
                ParseError::FileTooSmall { expected: 104, actual: data@.len() as usize },
            ),
            data@.len() >= 104 ==> r == Ok::<PackHeader, ParseError>(spec_pack_header(data@)),
    {
        if data.len() < Self::SIZE {
            return Err(ParseError::FileTooSmall { expected: Self::SIZE, actual: data.len() });
        }
        proof {
            let b = data@;
            lemma_le_value_subrange(b, 40, 56, 0, 8);
            lemma_le_value_subrange(b, 40, 56, 8, 8);
            lemma_le_value_subrange(b, 56, 72, 0, 8);
            lemma_le_value_subrange(b, 56, 72, 8, 8);
            lemma_le_value_subrange(b, 72, 88, 0, 8);
            lemma_le_value_subrange(b, 72, 88, 8, 8);
            lemma_le_value_subrange(b, 88, 104, 0, 8);
            lemma_le_value_subrange(b, 88, 104, 8, 8);
        }
        Ok(PackHeader {
            type_name_offset: read_u64(data, 0),
            owner_offset: read_u64(data, 8),
            name_offset: read_u64(data, 16),
            num_vars: read_u64(data, 24),
            num_children: read_u64(data, 32),
            strings: BufferSection::from_bytes(&data[40..56]),
            vars: BufferSection::from_bytes(&data[56..72]),
            children: BufferSection::from_bytes(&data[72..88]),
            data: BufferSection::from_bytes(&data[88..104]),
        })
    }
}

/// A 40-byte variable descriptor.
#[derive(Clone, Copy, Debug, PartialEq, Eq)]
pub struct PackVar {
    pub owner_offset: u64,
    pub name_offset: u64,
    pub type_offset: u64,
    pub data_offset: u64,
    pub bytes_size: u64,
}

/// The variable descriptor held by the 40 bytes of `b` at `at`.
pub open spec fn spec_pack_var(b: Seq<u8>, at: int) -> PackVar {
    PackVar {
        owner_offset: le_u64(b, at),
        name_offset: le_u64(b, at + 8),
        type_offset: le_u64(b, at + 16),
        data_offset: le_u64(b, at + 24),
        bytes_size: le_u64(b, at + 32),
    }
}

/// A descriptor read from a 40-byte window of `b` is the one at the
/// window's start.
pub proof fn lemma_pack_var_window(b: Seq<u8>, at: int)
    requires
        0 <= at,
        at + 40 <= b.len(),
    ensures
        spec_pack_var(b.subrange(at, at + 40), 0) == spec_pack_var(b, at),
{
    lemma_le_value_subrange(b, at, at + 40, 0, 8);
    lemma_le_value_subrange(b, at, at + 40, 8, 8);
    lemma_le_value_subrange(b, at, at + 40, 16, 8);
    lemma_le_value_subrange(b, at, at + 40, 24, 8);
    lemma_le_value_subrange(b, at, at + 40, 32, 8);
}

impl PackVar {
    pub const SIZE: usize = 40;

    /// Reads a variable descriptor from the first 40 bytes of `data`.
    pub fn from_bytes(data: &[u8]) -> (r: Self)
        requires
            data@.len() >= 40,
        ensures
            r == spec_pack_var(data@, 0),
    {
        PackVar {
            owner_offset: read_u64(data, 0),
            name_offset: read_u64(data, 8),
            type_offset: read_u64(data, 16),
            data_offset: read_u64(data, 24),
            bytes_size: read_u64(data, 32),
        }
    }
}

/// A 32-byte child-object descriptor.
#[derive(Clone, Copy, Debug, PartialEq, Eq)]
pub struct PackChild {
    pub owner_offset: u64,
    pub name_offset: u64,
    pub data_offset: u64,
    pub size: u64,
}

/// The child descriptor held by the 32 bytes of `b` at `at`.
pub open spec fn spec_pack_child(b: Seq<u8>, at: int) -> PackChild {
    PackChild {
        owner_offset: le_u64(b, at),
        name_offset: le_u64(b, at + 8),
        data_offset: le_u64(b, at + 16),
        size: le_u64(b, at + 24),
    }
}

/// A descriptor read from a 32-byte window of `b` is the one at the
/// window's start.
pub proof fn lemma_pack_child_window(b: Seq<u8>, at: int)
    requires
        0 <= at,
        at + 32 <= b.len(),
    ensures
        spec_pack_child(b.subrange(at, at + 32), 0) == spec_pack_child(b, at),
{
    lemma_le_value_subrange(b, at, at + 32, 0, 8);
    lemma_le_value_subrange(b, at, at + 32, 8, 8);
    lemma_le_value_subrange(b, at, at + 32, 16, 8);
    lemma_le_value_subrange(b, at, at + 32, 24, 8);
}

impl PackChild {
    pub const SIZE: usize = 32;

    /// Reads a child descriptor from the first 32 bytes of `data`.
    pub fn from_bytes(data: &[u8]) -> (r: Self)
        requires
            data@.len() >= 32,
        ensures
            r == spec_pack_child(data@, 0),
    {
        PackChild {
            owner_offset: read_u64(data, 0),
            name_offset: read_u64(data, 8),
            data_offset: read_u64(data, 16),
            size: read_u64(data, 24),
        }
    }
}

} // verus!
