//! The basic spectrum of a container: identifier, intensities and blank,
//! read from the object tree of its first buffer.

use vstd::prelude::*;
use crate::header::{ParseError, ParseFailure, carries};
use crate::object::{StorageObject, ObjectModel, spec_object};
use crate::container::{unpack_container, spec_unpack};
use crate::spc_file::{
    extract_string_child, extract_double_vector_child, spec_string_child, spec_double_child,
};

verus! {

/// A spectrum without calibration or configuration. Doubles are carried as
/// their IEEE-754 bit patterns.
#[derive(Clone, Debug)]
pub struct SpectreFile {
    /// Identifier of the measurement.
    pub uid: String,
    /// Intensities (the y axis).
    pub data: Vec<u64>,
    /// The blank (reference) spectrum.
    pub blank: Vec<u64>,
}

/// What a spectrum holds, as plain values.
pub struct SpectreModel {
    pub uid: Seq<char>,
    pub data: Seq<u64>,
    pub blank: Seq<u64>,
}

impl View for SpectreFile {
    type V = SpectreModel;

    open spec fn view(&self) -> SpectreModel {
        SpectreModel { uid: self.uid@, data: self.data@, blank: self.blank@ }
    }
}

/// The spectrum held by the object `o`: the string child `m_uid` and the
/// double lists `m_data` and `m_blank`.
pub open spec fn spec_spectre(o: ObjectModel) -> Result<SpectreModel, ParseFailure> {
    match spec_string_child(o, "m_uid"@) {
        Err(e) => Err(e),
        Ok(uid) => match spec_double_child(o, "m_data"@) {
            Err(e) => Err(e),
            Ok(data) => match spec_double_child(o, "m_blank"@) {
                Err(e) => Err(e),
                Ok(blank) => Ok(SpectreModel { uid, data, blank }),
            },
        },
    }
}

/// The spectrum held by the first buffer of the container `b`.
pub open spec fn spec_spectre_file(b: Seq<u8>) -> Result<SpectreModel, ParseFailure> {
    match spec_unpack(b) {
        Err(e) => Err(e),
        Ok(bufs) => if bufs.len() == 0 {
            Err(ParseFailure::MissingField("No buffers in container"@))
        } else {
            match spec_object(bufs[0]) {
                Err(e) => Err(e),
                Ok(o) => spec_spectre(o),
            }
        },
    }
}

impl SpectreFile {
    /// Reads the spectrum held by a parsed object.
    pub fn from_storage_object(obj: &StorageObject) -> (r: Result<Self, ParseError>)
        ensures
            carries(r, spec_spectre(obj@)),
    {
        let uid = match extract_string_child(obj, "m_uid") {
            Ok(s) => s,
            Err(e) => return Err(e),
        };
        let data = match extract_double_vector_child(obj, "m_data") {
            Ok(v) => v,
            Err(e) => return Err(e),
        };
        let blank = match extract_double_vector_child(obj, "m_blank") {
            Ok(v) => v,
            Err(e) => return Err(e),
        };
        Ok(SpectreFile { uid, data, blank })
    }

    /// Reads the spectrum held by a container's bytes, from its first buffer.
    pub fn from_bytes(bytes: &[u8]) -> (r: Result<Self, ParseError>)
        ensures
            carries(r, spec_spectre_file(bytes@)),
    {
        let buffers = match unpack_container(bytes) {
            Ok(b) => b,
            Err(e) => return Err(e),
        };
        if buffers.len() == 0 {
            return Err(ParseError::MissingField(String::from_str("No buffers in container")));
        }
        assert(buffers@.map_values(|b: Vec<u8>| b@)[0] == buffers@[0]@);
        let obj = match StorageObject::from_bytes(buffers[0].as_slice()) {
            Ok(o) => o,
            Err(e) => return Err(e),
        };
        Self::from_storage_object(&obj)
    }
}

} // verus!
