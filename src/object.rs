//! The generic object tree: a type name, named variables holding raw bytes,
//! and nested child objects, rebuilt from one decompressed buffer.

use vstd::prelude::*;
use vstd::slice::slice_to_vec;
use vstd::utf8::*;
use crate::header::{
    ParseError, ParseFailure, carries, carries_all, collect, lemma_collect_first_error, PackHeader, PackVar, PackChild, BufferSection, spec_pack_header, spec_pack_var,
    spec_pack_child, lemma_pack_var_window, lemma_pack_child_window,
};
use crate::text::{utf8_to_string, same_text};

verus! {

/// How deep objects may nest below the root object before parsing gives up.
pub const MAX_NESTING: usize = 256;

/// What a variable holds, as plain values.
pub struct VarModel {
    pub owner: Seq<char>,
    pub name: Seq<char>,
    pub typename: Seq<char>,
    pub data: Seq<u8>,
}

/// What an object holds, as plain values.
pub struct ObjectModel {
    pub typename: Seq<char>,
    pub owner_name: Seq<char>,
    pub var_name: Seq<char>,
    pub variables: Seq<VarModel>,
    pub children: Seq<ObjectModel>,
}

/// A named, typed variable stored in an object, with its raw bytes.
#[derive(Clone, Debug)]
pub struct Variable {
    pub owner: String,
    pub name: String,
    pub typename: String,
    pub data: Vec<u8>,
}

/// An object of the tree. It owns its variables and its children.
#[derive(Debug)]
pub struct StorageObject {
    pub typename: String,
    pub owner_name: String,
    pub var_name: String,
    pub variables: Vec<Variable>,
    pub children: Vec<StorageObject>,
}

impl View for Variable {
    type V = VarModel;

    open spec fn view(&self) -> VarModel {
        VarModel {
            owner: self.owner@,
            name: self.name@,
            typename: self.typename@,
            data: self.data@,
        }
    }
}

impl View for StorageObject {
    type V = ObjectModel;

    open spec fn view(&self) -> ObjectModel {
        object_model(self)
    }
}

/// The plain values held by `o` and, recursively, by its children.
#[verifier::opaque]
pub open spec fn object_model(o: &StorageObject) -> ObjectModel
    decreases o,
{
    ObjectModel {
        typename: o.typename@,
        owner_name: o.owner_name@,
        var_name: o.var_name@,
        variables: o.variables@.map_values(|v: Variable| v@),
        children: Seq::new(
            o.children@.len(),
            |i: int|
                if 0 <= i < o.children@.len() {
                    object_model(&o.children@[i])
                } else {
                    arbitrary()
                },
        ),
    }
}

/// The model of an object is made of its fields' views and its children's
/// models.
pub broadcast proof fn lemma_object_model(o: &StorageObject)
    ensures
        #[trigger] object_model(o) == (ObjectModel {
            typename: o.typename@,
            owner_name: o.owner_name@,
            var_name: o.var_name@,
            variables: o.variables@.map_values(|v: Variable| v@),
            children: o.children@.map_values(|c: StorageObject| c@),
        }),
{
    reveal(object_model);
    assert(object_model(o).children =~= o.children@.map_values(|c: StorageObject| c@));
}

/// The first of `vars`, from index `k` on, named `name`.
pub open spec fn first_var_named(vars: Seq<VarModel>, name: Seq<char>, k: int) -> Option<VarModel>
    decreases vars.len() - k,
{
    if k < 0 || k >= vars.len() {
        None
    } else if vars[k].name == name {
        Some(vars[k])
    } else {
        first_var_named(vars, name, k + 1)
    }
}

/// The first of `children`, from index `k` on, referenced under `name`.
pub open spec fn first_child_named(children: Seq<ObjectModel>, name: Seq<char>, k: int) -> Option<
    ObjectModel,
>
    decreases children.len() - k,
{
    if k < 0 || k >= children.len() {
        None
    } else if children[k].var_name == name {
        Some(children[k])
    } else {
        first_child_named(children, name, k + 1)
    }
}

/// Whether a variable after the `i`-th of `vars` has its name.
pub open spec fn named_later(vars: Seq<VarModel>, i: int) -> bool {
    exists|k: int| i < k < vars.len() && #[trigger] vars[k].name == vars[i].name
}

/// Among the first `n` of `vars`, those that no later variable of `vars`
/// shares a name with, in order.
pub open spec fn last_of_each_name(vars: Seq<VarModel>, n: nat) -> Seq<VarModel>
    decreases n,
{
    if n == 0 || n > vars.len() {
        Seq::empty()
    } else {
        let prev = last_of_each_name(vars, (n - 1) as nat);
        if named_later(vars, n - 1) {
            prev
        } else {
            prev.push(vars[n - 1])
        }
    }
}

/// Whether the `size` bytes at `offset` lie within `len` bytes.
pub open spec fn fits(offset: u64, size: u64, len: nat) -> bool {
    offset + size <= len
}

/// The bytes of a section that fits in `b`.
pub open spec fn window(b: Seq<u8>, s: BufferSection) -> Seq<u8> {
    b.subrange(s.offset as int, s.offset + s.size)
}

/// The error for a range of `size` bytes at `offset` that does not fit in
/// `len` bytes; it reports where the range ends.
pub open spec fn out_of_range(offset: u64, size: u64, len: nat) -> ParseFailure {
    ParseFailure::InvalidOffset { offset: offset.saturating_add(size), size: len as usize }
}

/// The position of the first zero byte of `s` at or after `k`, or -1.
pub open spec fn first_zero_from(s: Seq<u8>, k: int) -> int
    decreases s.len() - k,
{
    if k < 0 || k >= s.len() {
        -1
    } else if s[k] == 0 {
        k
    } else {
        first_zero_from(s, k + 1)
    }
}

/// The zero-terminated UTF-8 string that starts at `offset` of `s`.
pub open spec fn spec_read_string(s: Seq<u8>, offset: u64) -> Result<Seq<char>, ParseFailure> {
    if offset >= s.len() {
        Err(ParseFailure::InvalidOffset { offset, size: s.len() as usize })
    } else {
        let end = first_zero_from(s, offset as int);
        if end < 0 || !valid_utf8(s.subrange(offset as int, end)) {
            Err(ParseFailure::UnterminatedString(offset))
        } else {
            Ok(decode_utf8(s.subrange(offset as int, end)))
        }
    }
}

/// The variable described by record `i` of the variable table `vars`; its
/// strings come from `strings` and its bytes from `data`.
#[verifier::opaque]
pub open spec fn spec_var(strings: Seq<u8>, vars: Seq<u8>, data: Seq<u8>, i: int) -> Result<
    VarModel,
    ParseFailure,
> {
    let d = spec_pack_var(vars, 40 * i);
    match spec_read_string(strings, d.owner_offset) {
        Err(e) => Err(e),
        Ok(owner) => match spec_read_string(strings, d.name_offset) {
            Err(e) => Err(e),
            Ok(name) => match spec_read_string(strings, d.type_offset) {
                Err(e) => Err(e),
                Ok(typename) => if !fits(d.data_offset, d.bytes_size, data.len()) {
                    Err(out_of_range(d.data_offset, d.bytes_size, data.len()))
                } else {
                    Ok(
                        VarModel {
                            owner,
                            name,
                            typename,
                            data: data.subrange(
                                d.data_offset as int,
                                d.data_offset + d.bytes_size,
                            ),
                        },
                    )
                },
            },
        },
    }
}

/// The variable records of one object, by index.
pub open spec fn var_parser(strings: Seq<u8>, vars: Seq<u8>, data: Seq<u8>) -> spec_fn(int) -> Result<
    VarModel,
    ParseFailure,
> {
    |i: int| spec_var(strings, vars, data, i)
}

/// The child objects of one object, by index, parsed one level deeper.
pub open spec fn child_parser(table: Seq<u8>, data: Seq<u8>, depth: nat) -> spec_fn(int) -> Result<
    ObjectModel,
    ParseFailure,
>
    decreases MAX_NESTING + 1 - depth, 1int,
{
    |i: int| spec_child(table, data, i, depth)
}

/// The child object described by record `i` of the child table `table`,
/// whose bytes lie in `data`.
pub open spec fn spec_child(table: Seq<u8>, data: Seq<u8>, i: int, depth: nat) -> Result<
    ObjectModel,
    ParseFailure,
>
    decreases MAX_NESTING + 1 - depth, 0int,
{
    let d = spec_pack_child(table, 32 * i);
    if !fits(d.data_offset, d.size, data.len()) {
        Err(out_of_range(d.data_offset, d.size, data.len()))
    } else if depth >= MAX_NESTING + 1 {
        // What `spec_parse` says one level deeper still; stated here so that
        // the recursion visibly ends.
        Err(ParseFailure::NestingTooDeep(MAX_NESTING))
    } else {
        spec_parse(data.subrange(d.data_offset as int, d.data_offset + d.size), depth + 1)
    }
}

/// The object's type name, owner name and name, read from its strings
/// section once the strings and data sections are known to fit in `b`.
#[verifier::opaque]
pub open spec fn spec_names(b: Seq<u8>, h: PackHeader) -> Result<
    (Seq<char>, Seq<char>, Seq<char>),
    ParseFailure,
> {
    if !fits(h.strings.offset, h.strings.size, b.len()) {
        Err(out_of_range(h.strings.offset, h.strings.size, b.len()))
    } else if !fits(h.data.offset, h.data.size, b.len()) {
        Err(out_of_range(h.data.offset, h.data.size, b.len()))
    } else {
        let strings = window(b, h.strings);
        match spec_read_string(strings, h.type_name_offset) {
            Err(e) => Err(e),
            Ok(typename) => match spec_read_string(strings, h.owner_offset) {
                Err(e) => Err(e),
                Ok(owner_name) => match spec_read_string(strings, h.name_offset) {
                    Err(e) => Err(e),
                    Ok(var_name) => Ok((typename, owner_name, var_name)),
                },
            },
        }
    }
}

/// The object's variables: its variable table must fit in `b` and hold
/// exactly `num_vars` records, each of which must read.
#[verifier::opaque]
pub open spec fn spec_vars(b: Seq<u8>, h: PackHeader) -> Result<Seq<VarModel>, ParseFailure> {
    if !fits(h.vars.offset, h.vars.size, b.len()) {
        Err(out_of_range(h.vars.offset, h.vars.size, b.len()))
    } else if h.num_vars * 40 != h.vars.size {
        Err(
            ParseFailure::VarCountMismatch {
                expected: h.num_vars,
                actual: (h.vars.size / 40) as usize,
            },
        )
    } else {
        collect(
            h.num_vars as nat,
            var_parser(window(b, h.strings), window(b, h.vars), window(b, h.data)),
        )
    }
}

/// The object's children: its child table must fit in `b` and hold exactly
/// `num_children` records, each of which must parse one level deeper.
pub open spec fn spec_children(b: Seq<u8>, h: PackHeader, depth: nat) -> Result<
    Seq<ObjectModel>,
    ParseFailure,
>
    decreases MAX_NESTING + 1 - depth, 2int,
{
    if !fits(h.children.offset, h.children.size, b.len()) {
        Err(out_of_range(h.children.offset, h.children.size, b.len()))
    } else if h.num_children * 32 != h.children.size {
        Err(
            ParseFailure::ChildCountMismatch {
                expected: h.num_children,
                actual: (h.children.size / 32) as usize,
            },
        )
    } else {
        collect(
            h.num_children as nat,
            child_parser(window(b, h.children), window(b, h.data), depth),
        )
    }
}

/// The object stored in `b`, found `depth` levels below the root; or the
/// first error met while reading it, in the order the format is read:
/// header, strings and data sections, the object's three names, the
/// variable table and each variable, the child table and each child.
pub open spec fn spec_parse(b: Seq<u8>, depth: nat) -> Result<ObjectModel, ParseFailure>
    decreases MAX_NESTING + 1 - depth, 3int,
{
    if depth > MAX_NESTING {
        Err(ParseFailure::NestingTooDeep(MAX_NESTING))
    } else if b.len() < 104 {
        Err(ParseFailure::FileTooSmall { expected: 104, actual: b.len() as usize })
    } else {
        let h = spec_pack_header(b);
        match spec_names(b, h) {
            Err(e) => Err(e),
            Ok(names) => match spec_vars(b, h) {
                Err(e) => Err(e),
                Ok(variables) => match spec_children(b, h, depth) {
                    Err(e) => Err(e),
                    Ok(children) => Ok(
                        ObjectModel {
                            typename: names.0,
                            owner_name: names.1,
                            var_name: names.2,
                            variables,
                            children,
                        },
                    ),
                },
            },
        }
    }
}

/// The object stored in the buffer `b`, read as a root object.
#[verifier::opaque]
pub open spec fn spec_object(b: Seq<u8>) -> Result<ObjectModel, ParseFailure> {
    spec_parse(b, 0)
}

/// A buffer shorter than an object header is rejected as too small.
pub proof fn lemma_short_buffer_rejected(b: Seq<u8>)
    requires
        b.len() < 104,
    ensures
        spec_object(b) == Err::<ObjectModel, ParseFailure>(
            ParseFailure::FileTooSmall { expected: 104, actual: b.len() as usize },
        ),
{
    reveal(spec_object);
}

/// Once its names are read and its variable table lies within the buffer,
/// an object whose variable table is not a whole number of 40-byte records
/// is rejected with a count mismatch.
pub proof fn lemma_ragged_var_table_rejected(b: Seq<u8>)
    requires
        b.len() >= 104,
        spec_names(b, spec_pack_header(b)) is Ok,
        fits(spec_pack_header(b).vars.offset, spec_pack_header(b).vars.size, b.len()),
        spec_pack_header(b).vars.size % 40 != 0,
    ensures
        spec_object(b) == Err::<ObjectModel, ParseFailure>(
            ParseFailure::VarCountMismatch {
                expected: spec_pack_header(b).num_vars,
                actual: (spec_pack_header(b).vars.size / 40) as usize,
            },
        ),
{
    reveal(spec_object);
    reveal(spec_vars);
    let h = spec_pack_header(b);
    assert(h.num_vars * 40 != h.vars.size) by (nonlinear_arith)
        requires
            h.vars.size % 40 != 0,
    ;
}

/// Reads the zero-terminated UTF-8 string at `offset` of the strings section.
fn read_string(strings: &[u8], offset: u64) -> (r: Result<String, ParseError>)
    ensures
        carries(r, spec_read_string(strings@, offset)),
{
    let len = strings.len();
    if offset >= len as u64 {
        return Err(ParseError::InvalidOffset { offset, size: len });
    }
    let start = offset as usize;
    let mut k: usize = start;
    while k < len && strings[k] != 0
        invariant
            len == strings@.len(),
            start == offset,
            start <= k <= len,
            first_zero_from(strings@, start as int) == first_zero_from(strings@, k as int),
        decreases len - k,
    {
        k = k + 1;
    }
    if k == len {
        return Err(ParseError::UnterminatedString(offset));
    }
    let bytes = slice_to_vec(&strings[start..k]);
    match utf8_to_string(bytes) {
        Some(s) => Ok(s),
        None => Err(ParseError::UnterminatedString(offset)),
    }
}

/// Whether the `size` bytes at `offset` lie within `len` bytes.
fn range_fits(offset: u64, size: u64, len: usize) -> (r: bool)
    ensures
        r == fits(offset, size, len as nat),
{
    offset <= len as u64 && size <= len as u64 - offset
}

/// The bytes of a section already known to fit in `data`.
fn section<'a>(data: &'a [u8], s: BufferSection) -> (r: &'a [u8])
    requires
        fits(s.offset, s.size, data.len() as nat),
    ensures
        r@ == window(data@, s),
{
    let start = s.offset as usize;
    let end = start + s.size as usize;
    &data[start..end]
}

/// Reads the variable described by record `i` of the variable table.
fn parse_var(strings: &[u8], vars: &[u8], data: &[u8], i: usize) -> (r: Result<
    Variable,
    ParseError,
>)
    requires
        40 * i + 40 <= vars.len(),
    ensures
        carries(r, spec_var(strings@, vars@, data@, i as int)),
{
    let at = 40 * i;
    let d = PackVar::from_bytes(&vars[at..at + 40]);
    proof {
        lemma_pack_var_window(vars@, at as int);
        reveal(spec_var);
    }
    let owner = match read_string(strings, d.owner_offset) {
        Ok(s) => s,
        Err(e) => return Err(e),
    };
    let name = match read_string(strings, d.name_offset) {
        Ok(s) => s,
        Err(e) => return Err(e),
    };
    let typename = match read_string(strings, d.type_offset) {
        Ok(s) => s,
        Err(e) => return Err(e),
    };
    if !range_fits(d.data_offset, d.bytes_size, data.len()) {
        return Err(
            ParseError::InvalidOffset {
                offset: d.data_offset.saturating_add(d.bytes_size),
                size: data.len(),
            },
        );
    }
    let start = d.data_offset as usize;
    let end = start + d.bytes_size as usize;
    let bytes = slice_to_vec(&data[start..end]);
    Ok(Variable { owner, name, typename, data: bytes })
}

/// Reads the object's three names.
fn parse_names(data: &[u8], h: &PackHeader) -> (r: Result<(String, String, String), ParseError>)
    ensures
        match r {
            Ok(t) => spec_names(data@, *h) == Ok::<(Seq<char>, Seq<char>, Seq<char>), ParseFailure>(
                (t.0@, t.1@, t.2@),
            ),
            Err(e) => spec_names(data@, *h) == Err::<(Seq<char>, Seq<char>, Seq<char>), ParseFailure>(e@),
        },
        r is Ok ==> fits(h.strings.offset, h.strings.size, data@.len()),
        r is Ok ==> fits(h.data.offset, h.data.size, data@.len()),
{
    reveal(spec_names);
    let len = data.len();
    if !range_fits(h.strings.offset, h.strings.size, len) {
        return Err(
            ParseError::InvalidOffset {
                offset: h.strings.offset.saturating_add(h.strings.size),
                size: len,
            },
        );
    }
    if !range_fits(h.data.offset, h.data.size, len) {
        return Err(
            ParseError::InvalidOffset {
                offset: h.data.offset.saturating_add(h.data.size),
                size: len,
            },
        );
    }
    let strings = section(data, h.strings);
    let typename = match read_string(strings, h.type_name_offset) {
        Ok(s) => s,
        Err(e) => return Err(e),
    };
    let owner_name = match read_string(strings, h.owner_offset) {
        Ok(s) => s,
        Err(e) => return Err(e),
    };
    let var_name = match read_string(strings, h.name_offset) {
        Ok(s) => s,
        Err(e) => return Err(e),
    };
    Ok((typename, owner_name, var_name))
}

/// Reads the object's variables.
fn parse_vars(data: &[u8], h: &PackHeader) -> (r: Result<Vec<Variable>, ParseError>)
    requires
        fits(h.strings.offset, h.strings.size, data@.len()),
        fits(h.data.offset, h.data.size, data@.len()),
    ensures
        carries_all(r, spec_vars(data@, *h)),
{
    reveal(spec_vars);
    let len = data.len();
    if !range_fits(h.vars.offset, h.vars.size, len) {
        return Err(
            ParseError::InvalidOffset {
                offset: h.vars.offset.saturating_add(h.vars.size),
                size: len,
            },
        );
    }
    if h.vars.size % 40 != 0 || h.vars.size / 40 != h.num_vars {
        return Err(
            ParseError::VarCountMismatch {
                expected: h.num_vars,
                actual: (h.vars.size / 40) as usize,
            },
        );
    }
    assert(h.num_vars * 40 == h.vars.size) by (nonlinear_arith)
        requires
            h.vars.size % 40 == 0,
            h.vars.size / 40 == h.num_vars,
    ;
    let strings = section(data, h.strings);
    let vars = section(data, h.vars);
    let values = section(data, h.data);
    let num_vars = h.num_vars as usize;
    let ghost vf = var_parser(strings@, vars@, values@);
    assert(spec_vars(data@, *h) == collect(num_vars as nat, vf));
    let mut variables: Vec<Variable> = Vec::new();
    let mut i: usize = 0;
    while i < num_vars
        invariant
            spec_vars(data@, *h) == collect(num_vars as nat, vf),
            num_vars == h.num_vars,
            strings@ == window(data@, h.strings),
            vars@ == window(data@, h.vars),
            values@ == window(data@, h.data),
            40 * num_vars == vars@.len(),
            vf == var_parser(strings@, vars@, values@),
            0 <= i <= num_vars,
            variables@.len() == i,
            forall|j: int| 0 <= j < i ==> #[trigger] vf(j) is Ok,
            forall|j: int| 0 <= j < i ==> vf(j) == Ok::<VarModel, ParseFailure>(#[trigger] variables@[j]@),
        decreases num_vars - i,
    {
        let v = match parse_var(strings, vars, values, i) {
            Ok(v) => v,
            Err(e) => {
                proof {
                    assert(vf(i as int) == spec_var(strings@, vars@, values@, i as int));
                    lemma_collect_first_error(num_vars as nat, vf, i as int);
                }
                return Err(e);
            },
        };
        variables.push(v);
        i = i + 1;
    }
    assert(Seq::new(num_vars as nat, |j: int| vf(j)->Ok_0) =~= variables@.map_values(|v: Variable| v@));
    Ok(variables)
}

/// Reads the child object described by record `i` of the child table, one
/// level below `depth`.
fn parse_child(table: &[u8], values: &[u8], i: usize, depth: usize) -> (r: Result<
    StorageObject,
    ParseError,
>)
    requires
        depth <= MAX_NESTING,
        32 * i + 32 <= table.len(),
    ensures
        carries(r, spec_child(table@, values@, i as int, depth as nat)),
    decreases MAX_NESTING + 1 - depth, 0int,
{
    let at = 32 * i;
    let d = PackChild::from_bytes(&table[at..at + 32]);
    proof {
        lemma_pack_child_window(table@, at as int);
    }
    if !range_fits(d.data_offset, d.size, values.len()) {
        return Err(
            ParseError::InvalidOffset {
                offset: d.data_offset.saturating_add(d.size),
                size: values.len(),
            },
        );
    }
    let start = d.data_offset as usize;
    let end = start + d.size as usize;
    StorageObject::parse_nested(&values[start..end], depth + 1)
}

/// Reads the object's children, `depth` being the object's own depth.
fn parse_children(data: &[u8], h: &PackHeader, depth: usize) -> (r: Result<
    Vec<StorageObject>,
    ParseError,
>)
    requires
        depth <= MAX_NESTING,
        fits(h.data.offset, h.data.size, data@.len()),
    ensures
        carries_all(r, spec_children(data@, *h, depth as nat)),
    decreases MAX_NESTING + 1 - depth, 1int,
{
    let len = data.len();
    if !range_fits(h.children.offset, h.children.size, len) {
        return Err(
            ParseError::InvalidOffset {
                offset: h.children.offset.saturating_add(h.children.size),
                size: len,
            },
        );
    }
    if h.children.size % 32 != 0 || h.children.size / 32 != h.num_children {
        return Err(
            ParseError::ChildCountMismatch {
                expected: h.num_children,
                actual: (h.children.size / 32) as usize,
            },
        );
    }
    assert(h.num_children * 32 == h.children.size) by (nonlinear_arith)
        requires
            h.children.size % 32 == 0,
            h.children.size / 32 == h.num_children,
    ;
    let table = section(data, h.children);
    let values = section(data, h.data);
    let num_children = h.num_children as usize;
    let ghost cf = child_parser(table@, values@, depth as nat);
    assert(spec_children(data@, *h, depth as nat) == collect(num_children as nat, cf));
    let mut children: Vec<StorageObject> = Vec::new();
    let mut i: usize = 0;
    while i < num_children
        invariant
            spec_children(data@, *h, depth as nat) == collect(num_children as nat, cf),
            depth <= MAX_NESTING,
            num_children == h.num_children,
            table@ == window(data@, h.children),
            values@ == window(data@, h.data),
            32 * num_children == table.len(),
            cf == child_parser(table@, values@, depth as nat),
            0 <= i <= num_children,
            children@.len() == i,
            forall|j: int| 0 <= j < i ==> #[trigger] cf(j) is Ok,
            forall|j: int| 0 <= j < i ==> cf(j) == Ok::<ObjectModel, ParseFailure>(#[trigger] children@[j]@),
        decreases num_children - i,
    {
        assert(32 * i + 32 <= 32 * num_children) by (nonlinear_arith)
            requires
                i < num_children,
        ;
        let child = match parse_child(table, values, i, depth) {
            Ok(c) => c,
            Err(e) => {
                proof {
                    assert(cf(i as int) == spec_child(table@, values@, i as int, depth as nat));
                    lemma_collect_first_error(num_children as nat, cf, i as int);
                }
                return Err(e);
            },
        };
        children.push(child);
        i = i + 1;
    }
    assert(Seq::new(num_children as nat, |j: int| cf(j)->Ok_0) =~= children@.map_values(
        |c: StorageObject| c@,
    ));
    Ok(children)
}

impl StorageObject {
    /// Rebuilds the object stored in `data`, with all its variables and,
    /// recursively, its children.
    pub fn from_bytes(data: &[u8]) -> (r: Result<Self, ParseError>)
        ensures
            carries(r, spec_object(data@)),
    {
        reveal(spec_object);
        Self::parse_nested(data, 0)
    }

    /// Rebuilds the object stored in `data`, found `depth` levels below the
    /// root.
    fn parse_nested(data: &[u8], depth: usize) -> (r: Result<Self, ParseError>)
        requires
            depth <= MAX_NESTING + 1,
        ensures
            carries(r, spec_parse(data@, depth as nat)),
        decreases MAX_NESTING + 1 - depth, 2int,
    {
        if depth > MAX_NESTING {
            return Err(ParseError::NestingTooDeep(MAX_NESTING));
        }
        let h = match PackHeader::from_bytes(data) {
            Ok(h) => h,
            Err(e) => return Err(e),
        };
        let (typename, owner_name, var_name) = match parse_names(data, &h) {
            Ok(t) => t,
            Err(e) => return Err(e),
        };
        let variables = match parse_vars(data, &h) {
            Ok(v) => v,
            Err(e) => return Err(e),
        };
        let children = match parse_children(data, &h, depth) {
            Ok(c) => c,
            Err(e) => return Err(e),
        };
        let r = StorageObject { typename, owner_name, var_name, variables, children };
        proof {
            lemma_object_model(&r);
        }
        Ok(r)
    }

    /// The first variable named `name`, if any.
    pub fn find_var(&self, name: &str) -> (r: Option<&Variable>)
        ensures
            match r {
                Some(v) => first_var_named(self@.variables, name@, 0) == Some(v@),
                None => first_var_named(self@.variables, name@, 0) is None,
            },
    {
        proof {
            lemma_object_model(self);
        }
        let ghost vars = self@.variables;
        let mut i: usize = 0;
        while i < self.variables.len()
            invariant
                vars == self@.variables,
                vars == self.variables@.map_values(|v: Variable| v@),
                0 <= i <= self.variables@.len(),
                first_var_named(vars, name@, 0) == first_var_named(vars, name@, i as int),
            decreases self.variables@.len() - i,
        {
            assert(vars[i as int] == self.variables@[i as int]@);
            if same_text(self.variables[i].name.as_str(), name) {
                return Some(&self.variables[i]);
            }
            i = i + 1;
        }
        None
    }

    /// The first child referenced under the name `var_name`, if any.
    pub fn find_child(&self, var_name: &str) -> (r: Option<&StorageObject>)
        ensures
            match r {
                Some(c) => first_child_named(self@.children, var_name@, 0) == Some(c@),
                None => first_child_named(self@.children, var_name@, 0) is None,
            },
    {
        proof {
            lemma_object_model(self);
        }
        let ghost children = self@.children;
        let mut i: usize = 0;
        while i < self.children.len()
            invariant
                children == self@.children,
                children == self.children@.map_values(|c: StorageObject| c@),
                0 <= i <= self.children@.len(),
                first_child_named(children, var_name@, 0) == first_child_named(
                    children,
                    var_name@,
                    i as int,
                ),
            decreases self.children@.len() - i,
        {
            assert(children[i as int] == self.children@[i as int]@);
            proof {
                lemma_object_model(&self.children@[i as int]);
            }
            if same_text(self.children[i].var_name.as_str(), var_name) {
                return Some(&self.children[i]);
            }
            i = i + 1;
        }
        None
    }

    /// The variables by name: for each name, the last variable that has it,
    /// in the order of those last occurrences.
    pub fn vars_by_name(&self) -> (r: Vec<&Variable>)
        ensures
            r@.map_values(|v: &Variable| v@) == last_of_each_name(
                self@.variables,
                self@.variables.len(),
            ),
    {
        proof {
            lemma_object_model(self);
        }
        let ghost vars = self@.variables;
        let n = self.variables.len();
        let mut r: Vec<&Variable> = Vec::new();
        let mut i: usize = 0;
        while i < n
            invariant
                n == vars.len(),
                vars == self.variables@.map_values(|v: Variable| v@),
                0 <= i <= n,
                r@.map_values(|v: &Variable| v@) == last_of_each_name(vars, i as nat),
            decreases n - i,
        {
            let mut j: usize = i + 1;
            let mut later = false;
            while j < n && !later
                invariant
                    n == vars.len(),
                    vars == self.variables@.map_values(|v: Variable| v@),
                    i < j <= n,
                    later ==> named_later(vars, i as int),
                    !later ==> forall|k: int| i < k < j ==> vars[k].name != vars[i as int].name,
                decreases n - j,
            {
                assert(vars[j as int] == self.variables@[j as int]@);
                assert(vars[i as int] == self.variables@[i as int]@);
                if same_text(self.variables[j].name.as_str(), self.variables[i].name.as_str()) {
                    assert(vars[j as int].name == vars[i as int].name);
                    later = true;
                }
                j = j + 1;
            }
            let ghost before = r@.map_values(|v: &Variable| v@);
            if !later {
                r.push(&self.variables[i]);
                assert(r@.map_values(|v: &Variable| v@) =~= before.push(vars[i as int]));
            }
            i = i + 1;
        }
        r
    }
}

} // verus!
