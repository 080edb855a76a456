//! The spectral record held by a container: the intensity and blank arrays,
//! the calibration coefficients and the acquisition configuration, read from
//! the object trees of its buffers.
//!
//! Doubles are carried as their IEEE-754 bit patterns (`u64`); turning them
//! into numbers, and deriving the wavelength and Raman-shift axes from them,
//! is left to the caller.

use vstd::prelude::*;
use vstd::slice::slice_to_vec;
use vstd::string::*;
use vstd::utf8::*;
use crate::header::{ParseError, ParseFailure, carries, collect, lemma_collect_first_error};
use crate::le::{le_u64, le_value, read_u32, read_u64};
use crate::object::{
    StorageObject, ObjectModel, VarModel, Variable, first_var_named, first_child_named,
    first_zero_from, spec_object, lemma_object_model,
};
use crate::container::{unpack_container, spec_unpack};
use crate::text::{same_text, decimal, decimal_digits, utf8_to_string};

verus! {

// ---------------------------------------------------------------------------
// Leaf values

/// A configuration value whose name is not one of the known fields, typed by
/// its byte length.
#[derive(Clone, Copy, Debug, PartialEq, Eq, Structural)]
pub enum ConfigValue {
    /// Eight bytes: a double, as its bit pattern.
    Double(u64),
    /// Four bytes: a signed 32-bit integer.
    Int(i32),
    /// One byte: a flag, set when nonzero.
    Bool(bool),
}

/// The axis a spectrum is preferably shown against.
#[derive(Clone, Copy, Debug, PartialEq, Eq, Structural)]
pub enum AxisType {
    Pixels,
    Wavelengths,
    RamanShifts,
}

/// The axis stored as `v`: 1 and 2 name the wavelength and Raman-shift
/// axes, anything else the pixel axis.
pub open spec fn axis_of(v: i32) -> AxisType {
    if v == 1 {
        AxisType::Wavelengths
    } else if v == 2 {
        AxisType::RamanShifts
    } else {
        AxisType::Pixels
    }
}

impl From<i32> for AxisType {
    fn from(value: i32) -> Self {
        match value {
            1 => AxisType::Wavelengths,
            2 => AxisType::RamanShifts,
            _ => AxisType::Pixels,
        }
    }
}

impl vstd::std_specs::convert::FromSpecImpl<i32> for AxisType {
    open spec fn obeys_from_spec() -> bool {
        true
    }

    open spec fn from_spec(v: i32) -> AxisType {
        axis_of(v)
    }
}

/// The signed 32-bit integer stored little-endian at `at`.
pub open spec fn le_i32(b: Seq<u8>, at: int) -> i32 {
    let u = le_value(b, at, 4);
    if u >= 0x8000_0000 {
        (u - 0x1_0000_0000) as i32
    } else {
        u as i32
    }
}

fn read_i32(b: &[u8], at: usize) -> (r: i32)
    requires
        at + 4 <= b.len(),
    ensures
        r == le_i32(b@, at as int),
{
    let u = read_u32(b, at);
    if u >= 0x8000_0000 {
        (u as i64 - 0x1_0000_0000) as i32
    } else {
        u as i32
    }
}

// ---------------------------------------------------------------------------
// The record

/// Legendre coefficients turning a pixel index into a wavelength, as bit
/// patterns of doubles. Axes can be derived only from exactly four.
#[derive(Clone, Debug)]
pub struct Calibration {
    pub coefficients: Vec<u64>,
}

/// The acquisition configuration. Doubles are bit patterns.
#[derive(Clone, Debug)]
pub struct Config {
    pub raman_wavelength: Option<u64>,
    pub exposure: Option<u64>,
    pub gain: Option<u64>,
    pub smoothing: Option<i32>,
    pub average: Option<i32>,
    pub sgolay_window: Option<i32>,
    pub sgolay_order: Option<i32>,
    pub sgolay_deriv: Option<i32>,
    pub medfilt: Option<bool>,
    pub baseline: Option<bool>,
    pub sgolay: Option<bool>,
    pub axis: Option<AxisType>,
    /// Values under other names, in the order they were met.
    pub other: Vec<(String, ConfigValue)>,
}

/// What a configuration holds, as plain values.
pub struct ConfigModel {
    pub raman_wavelength: Option<u64>,
    pub exposure: Option<u64>,
    pub gain: Option<u64>,
    pub smoothing: Option<i32>,
    pub average: Option<i32>,
    pub sgolay_window: Option<i32>,
    pub sgolay_order: Option<i32>,
    pub sgolay_deriv: Option<i32>,
    pub medfilt: Option<bool>,
    pub baseline: Option<bool>,
    pub sgolay: Option<bool>,
    pub axis: Option<AxisType>,
    pub other: Seq<(Seq<char>, ConfigValue)>,
}

impl View for Config {
    type V = ConfigModel;

    open spec fn view(&self) -> ConfigModel {
        ConfigModel {
            raman_wavelength: self.raman_wavelength,
            exposure: self.exposure,
            gain: self.gain,
            smoothing: self.smoothing,
            average: self.average,
            sgolay_window: self.sgolay_window,
            sgolay_order: self.sgolay_order,
            sgolay_deriv: self.sgolay_deriv,
            medfilt: self.medfilt,
            baseline: self.baseline,
            sgolay: self.sgolay,
            axis: self.axis,
            other: self.other@.map_values(|p: (String, ConfigValue)| (p.0@, p.1)),
        }
    }
}

/// The configuration with nothing set.
pub open spec fn empty_config() -> ConfigModel {
    ConfigModel {
        raman_wavelength: None,
        exposure: None,
        gain: None,
        smoothing: None,
        average: None,
        sgolay_window: None,
        sgolay_order: None,
        sgolay_deriv: None,
        medfilt: None,
        baseline: None,
        sgolay: None,
        axis: None,
        other: Seq::empty(),
    }
}

impl Default for Config {
    fn default() -> (r: Self)
        ensures
            r@ == empty_config(),
    {
        let r = Config {
            raman_wavelength: None,
            exposure: None,
            gain: None,
            smoothing: None,
            average: None,
            sgolay_window: None,
            sgolay_order: None,
            sgolay_deriv: None,
            medfilt: None,
            baseline: None,
            sgolay: None,
            axis: None,
            other: Vec::new(),
        };
        assert(r@.other =~= Seq::<(Seq<char>, ConfigValue)>::empty());
        r
    }
}

/// The spectral record of one file.
#[derive(Clone, Debug)]
pub struct SpcFile {
    /// Identifier of the measurement, typically the camera's serial number.
    pub uid: String,
    /// Intensities, as bit patterns of doubles.
    pub data: Vec<u64>,
    /// The blank (reference) spectrum, as bit patterns of doubles.
    pub blank: Vec<u64>,
    pub calibration: Option<Calibration>,
    pub config: Option<Config>,
}

/// What a spectral record holds, as plain values.
pub struct SpcModel {
    pub uid: Seq<char>,
    pub data: Seq<u64>,
    pub blank: Seq<u64>,
    pub calibration: Option<Seq<u64>>,
    pub config: Option<ConfigModel>,
}

impl View for SpcFile {
    type V = SpcModel;

    open spec fn view(&self) -> SpcModel {
        SpcModel {
            uid: self.uid@,
            data: self.data@,
            blank: self.blank@,
            calibration: match self.calibration {
                Some(c) => Some(c.coefficients@),
                None => None,
            },
            config: match self.config {
                Some(c) => Some(c@),
                None => None,
            },
        }
    }
}

// ---------------------------------------------------------------------------
// Reading values out of objects

/// The double held by a variable of exactly eight bytes.
pub open spec fn spec_double(v: VarModel) -> Result<u64, ParseFailure> {
    if v.data.len() == 8 {
        Ok(le_u64(v.data, 0))
    } else {
        Err(
            ParseFailure::TypeMismatch {
                expected: "double (8 bytes)"@,
                actual: decimal_digits(v.data.len()) + " bytes"@,
            },
        )
    }
}

/// The doubles held by `vars`, by index.
pub open spec fn double_reader(vars: Seq<VarModel>) -> spec_fn(int) -> Result<u64, ParseFailure> {
    |i: int| spec_double(vars[i])
}

/// The doubles held by all of `vars`, in order; every one must be eight bytes.
pub open spec fn spec_doubles(vars: Seq<VarModel>) -> Result<Seq<u64>, ParseFailure> {
    collect(vars.len(), double_reader(vars))
}

/// The doubles held by the child of `o` named `name`.
pub open spec fn spec_double_child(o: ObjectModel, name: Seq<char>) -> Result<Seq<u64>, ParseFailure> {
    match first_child_named(o.children, name, 0) {
        None => Err(ParseFailure::MissingField(name)),
        Some(c) => spec_doubles(c.variables),
    }
}

/// The bytes of `d` up to its first zero byte, or all of them.
pub open spec fn until_zero(d: Seq<u8>) -> Seq<u8> {
    let end = first_zero_from(d, 0);
    if end < 0 {
        d
    } else {
        d.subrange(0, end)
    }
}

/// The string held by the `data` variable of the child of `o` named `name`,
/// up to its first zero byte.
pub open spec fn spec_string_child(o: ObjectModel, name: Seq<char>) -> Result<Seq<char>, ParseFailure> {
    match first_child_named(o.children, name, 0) {
        None => Err(ParseFailure::MissingField(name)),
        Some(c) => match first_var_named(c.variables, "data"@, 0) {
            None => Err(ParseFailure::MissingField(name + ".data"@)),
            Some(v) => if valid_utf8(until_zero(v.data)) {
                Ok(decode_utf8(until_zero(v.data)))
            } else {
                Err(ParseFailure::MissingField(name + " (invalid UTF-8)"@))
            },
        },
    }
}

/// Reads every variable of `obj` as a double; each must be eight bytes.
pub(crate) fn extract_double_vector(obj: &StorageObject) -> (r: Result<Vec<u64>, ParseError>)
    ensures
        carries(r, spec_doubles(obj@.variables)),
{
    proof {
        lemma_object_model(obj);
    }
    let ghost vars = obj@.variables;
    let ghost f = double_reader(vars);
    let n = obj.variables.len();
    let mut values: Vec<u64> = Vec::new();
    let mut i: usize = 0;
    while i < n
        invariant
            n == vars.len(),
            vars == obj@.variables,
            vars == obj.variables@.map_values(|v: Variable| v@),
            f == double_reader(vars),
            0 <= i <= n,
            values@.len() == i,
            forall|j: int| 0 <= j < i ==> #[trigger] f(j) is Ok,
            forall|j: int| 0 <= j < i ==> f(j) == Ok::<u64, ParseFailure>(#[trigger] values@[j]),
        decreases n - i,
    {
        let var = &obj.variables[i];
        assert(f(i as int) == spec_double(var@));
        if var.data.len() != 8 {
            proof {
                lemma_collect_first_error(n as nat, f, i as int);
            }
            let expected = String::from_str("double (8 bytes)");
            let actual = decimal(var.data.len()).concat(" bytes");
            return Err(ParseError::TypeMismatch { expected, actual });
        }
        let value = read_u64(var.data.as_slice(), 0);
        values.push(value);
        i = i + 1;
    }
    assert(Seq::new(n as nat, |j: int| f(j)->Ok_0) =~= values@);
    Ok(values)
}

/// Reads the child of `obj` named `name` as a list of doubles.
pub(crate) fn extract_double_vector_child(obj: &StorageObject, name: &str) -> (r: Result<
    Vec<u64>,
    ParseError,
>)
    ensures
        carries(r, spec_double_child(obj@, name@)),
{
    match obj.find_child(name) {
        Some(child) => extract_double_vector(child),
        None => Err(ParseError::MissingField(String::from_str(name))),
    }
}

/// Reads the string held by the `data` variable of the child of `obj` named
/// `name`, up to its first zero byte.
pub(crate) fn extract_string_child(obj: &StorageObject, name: &str) -> (r: Result<
    String,
    ParseError,
>)
    ensures
        carries(r, spec_string_child(obj@, name@)),
{
    let child = match obj.find_child(name) {
        Some(c) => c,
        None => return Err(ParseError::MissingField(String::from_str(name))),
    };
    let var = match child.find_var("data") {
        Some(v) => v,
        None => return Err(ParseError::MissingField(String::from_str(name).concat(".data"))),
    };
    let bytes = var.data.as_slice();
    let len = bytes.len();
    let mut end: usize = 0;
    while end < len && bytes[end] != 0
        invariant
            len == bytes@.len(),
            0 <= end <= len,
            first_zero_from(bytes@, 0) == first_zero_from(bytes@, end as int),
        decreases len - end,
    {
        end = end + 1;
    }
    assert(until_zero(bytes@) =~= bytes@.subrange(0, end as int));
    match utf8_to_string(slice_to_vec(&bytes[0..end])) {
        Some(s) => Ok(s),
        None => Err(ParseError::MissingField(String::from_str(name).concat(" (invalid UTF-8)"))),
    }
}

// ---------------------------------------------------------------------------
// The configuration

/// `c` after recording the value `d` found under `name`: by its length a
/// double, an integer or a flag, stored in the field of that name or else
/// among the other values. Values of any other length are skipped.
pub open spec fn record_value(c: ConfigModel, name: Seq<char>, d: Seq<u8>) -> ConfigModel {
    if d.len() == 8 {
        let x = le_u64(d, 0);
        if name == "raman_wavelength"@ {
            ConfigModel { raman_wavelength: Some(x), ..c }
        } else if name == "exposure"@ {
            ConfigModel { exposure: Some(x), ..c }
        } else if name == "gain"@ {
            ConfigModel { gain: Some(x), ..c }
        } else {
            ConfigModel { other: c.other.push((name, ConfigValue::Double(x))), ..c }
        }
    } else if d.len() == 4 {
        let x = le_i32(d, 0);
        if name == "smoothing"@ {
            ConfigModel { smoothing: Some(x), ..c }
        } else if name == "average"@ {
            ConfigModel { average: Some(x), ..c }
        } else if name == "sgolay_window"@ {
            ConfigModel { sgolay_window: Some(x), ..c }
        } else if name == "sgolay_order"@ {
            ConfigModel { sgolay_order: Some(x), ..c }
        } else if name == "sgolay_deriv"@ {
            ConfigModel { sgolay_deriv: Some(x), ..c }
        } else if name == "axis"@ {
            ConfigModel { axis: Some(axis_of(x)), ..c }
        } else {
            ConfigModel { other: c.other.push((name, ConfigValue::Int(x))), ..c }
        }
    } else if d.len() == 1 {
        let x = d[0] != 0;
        if name == "medfilt"@ {
            ConfigModel { medfilt: Some(x), ..c }
        } else if name == "baseline"@ {
            ConfigModel { baseline: Some(x), ..c }
        } else if name == "sgolay"@ {
            ConfigModel { sgolay: Some(x), ..c }
        } else {
            ConfigModel { other: c.other.push((name, ConfigValue::Bool(x))), ..c }
        }
    } else {
        c
    }
}

/// `c` after the first `n` children: each that has a `data` variable
/// records it under the child's name.
pub open spec fn config_from_children(children: Seq<ObjectModel>, n: nat) -> ConfigModel
    decreases n,
{
    if n == 0 || n > children.len() {
        empty_config()
    } else {
        let c = config_from_children(children, (n - 1) as nat);
        let child = children[n - 1];
        match first_var_named(child.variables, "data"@, 0) {
            None => c,
            Some(v) => record_value(c, child.var_name, v.data),
        }
    }
}

/// `c` after the first `n` of the object's own variables: an eight-byte
/// `raman_wavelength` sets that field when nothing set it before.
pub open spec fn raman_fallback(c: ConfigModel, vars: Seq<VarModel>, n: nat) -> ConfigModel
    decreases n,
{
    if n == 0 || n > vars.len() {
        c
    } else {
        let prev = raman_fallback(c, vars, (n - 1) as nat);
        let v = vars[n - 1];
        if v.data.len() == 8 && v.name == "raman_wavelength"@ && prev.raman_wavelength is None {
            ConfigModel { raman_wavelength: Some(le_u64(v.data, 0)), ..prev }
        } else {
            prev
        }
    }
}

/// The configuration held by the object `o`.
pub open spec fn spec_config(o: ObjectModel) -> ConfigModel {
    raman_fallback(
        config_from_children(o.children, o.children.len()),
        o.variables,
        o.variables.len(),
    )
}

/// Records the value `data` found under `name`.
fn record(config: &mut Config, name: &String, data: &Vec<u8>)
    ensures
        final(config)@ == record_value(old(config)@, name@, data@),
{
    let n = name.as_str();
    let d = data.as_slice();
    let ghost before = config@;
    if d.len() == 8 {
        let x = read_u64(d, 0);
        if same_text(n, "raman_wavelength") {
            config.raman_wavelength = Some(x);
        } else if same_text(n, "exposure") {
            config.exposure = Some(x);
        } else if same_text(n, "gain") {
            config.gain = Some(x);
        } else {
            config.other.push((name.clone(), ConfigValue::Double(x)));
            assert(config@.other =~= before.other.push((name@, ConfigValue::Double(x))));
        }
    } else if d.len() == 4 {
        let x = read_i32(d, 0);
        if same_text(n, "smoothing") {
            config.smoothing = Some(x);
        } else if same_text(n, "average") {
            config.average = Some(x);
        } else if same_text(n, "sgolay_window") {
            config.sgolay_window = Some(x);
        } else if same_text(n, "sgolay_order") {
            config.sgolay_order = Some(x);
        } else if same_text(n, "sgolay_deriv") {
            config.sgolay_deriv = Some(x);
        } else if same_text(n, "axis") {
            config.axis = Some(AxisType::from(x));
        } else {
            config.other.push((name.clone(), ConfigValue::Int(x)));
            assert(config@.other =~= before.other.push((name@, ConfigValue::Int(x))));
        }
    } else if d.len() == 1 {
        let x = d[0] != 0;
        if same_text(n, "medfilt") {
            config.medfilt = Some(x);
        } else if same_text(n, "baseline") {
            config.baseline = Some(x);
        } else if same_text(n, "sgolay") {
            config.sgolay = Some(x);
        } else {
            config.other.push((name.clone(), ConfigValue::Bool(x)));
            assert(config@.other =~= before.other.push((name@, ConfigValue::Bool(x))));
        }
    }
}

/// Reads the configuration held by `obj`: one value per child, from the
/// child's `data` variable; then, if no child gave it, the object's own
/// `raman_wavelength` variable.
pub(crate) fn extract_config(obj: &StorageObject) -> (r: Config)
    ensures
        r@ == spec_config(obj@),
{
    proof {
        lemma_object_model(obj);
    }
    let ghost model = obj@;
    let mut config = Config::default();
    let n = obj.children.len();
    let mut i: usize = 0;
    while i < n
        invariant
            model == obj@,
            n == model.children.len(),
            model.children == obj.children@.map_values(|c: StorageObject| c@),
            0 <= i <= n,
            config@ == config_from_children(model.children, i as nat),
        decreases n - i,
    {
        let child = &obj.children[i];
        assert(model.children[i as int] == child@);
        match child.find_var("data") {
            Some(v) => {
                proof {
                    lemma_object_model(child);
                }
                record(&mut config, &child.var_name, &v.data);
            },
            None => {},
        }
        i = i + 1;
    }
    let ghost from_children = config@;
    let m = obj.variables.len();
    let mut k: usize = 0;
    while k < m
        invariant
            model == obj@,
            m == model.variables.len(),
            model.variables == obj.variables@.map_values(|v: Variable| v@),
            0 <= k <= m,
            config@ == raman_fallback(from_children, model.variables, k as nat),
        decreases m - k,
    {
        let var = &obj.variables[k];
        assert(model.variables[k as int] == var@);
        if var.data.len() == 8 {
            let x = read_u64(var.data.as_slice(), 0);
            if same_text(var.name.as_str(), "raman_wavelength") && config.raman_wavelength.is_none() {
                config.raman_wavelength = Some(x);
            }
        }
        k = k + 1;
    }
    config
}

// ---------------------------------------------------------------------------
// Assembly

/// The object, among those that the buffers `bufs` parse into, that is the
/// last one referenced under `name`.
pub open spec fn last_object_named(bufs: Seq<Seq<u8>>, name: Seq<char>) -> Option<ObjectModel>
    decreases bufs.len(),
{
    if bufs.len() == 0 {
        None
    } else {
        match spec_object(bufs.last()) {
            Ok(m) => if m.var_name == name {
                Some(m)
            } else {
                last_object_named(bufs.drop_last(), name)
            },
            Err(_) => last_object_named(bufs.drop_last(), name),
        }
    }
}

/// Taking one more buffer into account: it wins when it parses into an
/// object referenced under `name`.
proof fn lemma_last_object_step(bufs: Seq<Seq<u8>>, i: int, name: Seq<char>)
    requires
        0 <= i < bufs.len(),
    ensures
        last_object_named(bufs.subrange(0, i + 1), name) == match spec_object(bufs[i]) {
            Ok(m) => if m.var_name == name {
                Some(m)
            } else {
                last_object_named(bufs.subrange(0, i), name)
            },
            Err(_) => last_object_named(bufs.subrange(0, i), name),
        },
{
    let prefix = bufs.subrange(0, i + 1);
    assert(prefix.drop_last() =~= bufs.subrange(0, i));
    assert(prefix.last() == bufs[i]);
}

/// The record held by the payload buffers `bufs`. Buffers that are not
/// objects are skipped; the `data` object is required, the `calibration`
/// and `config` objects are optional, and a calibration whose variables are
/// not all doubles is left out.
pub open spec fn spec_spc(bufs: Seq<Seq<u8>>) -> Result<SpcModel, ParseFailure> {
    if bufs.len() == 0 {
        Err(ParseFailure::MissingField("No buffers in container"@))
    } else {
        match last_object_named(bufs, "data"@) {
            None => Err(ParseFailure::MissingField("data"@)),
            Some(d) => match spec_string_child(d, "m_uid"@) {
                Err(e) => Err(e),
                Ok(uid) => match spec_double_child(d, "m_data"@) {
                    Err(e) => Err(e),
                    Ok(data) => match spec_double_child(d, "m_blank"@) {
                        Err(e) => Err(e),
                        Ok(blank) => Ok(
                            SpcModel {
                                uid,
                                data,
                                blank,
                                calibration: match last_object_named(bufs, "calibration"@) {
                                    Some(c) => match spec_doubles(c.variables) {
                                        Ok(v) => Some(v),
                                        Err(_) => None,
                                    },
                                    None => None,
                                },
                                config: match last_object_named(bufs, "config"@) {
                                    Some(c) => Some(spec_config(c)),
                                    None => None,
                                },
                            },
                        ),
                    },
                },
            },
        }
    }
}

/// The record held by the container `b`.
pub open spec fn spec_spc_file(b: Seq<u8>) -> Result<SpcModel, ParseFailure> {
    match spec_unpack(b) {
        Err(e) => Err(e),
        Ok(bufs) => spec_spc(bufs),
    }
}

/// Whether an axis can be derived from `coefficients` over `num_pixels`
/// pixels: four coefficients and at least two pixels.
pub open spec fn axis_available(coefficients: Seq<u64>, num_pixels: nat) -> bool {
    coefficients.len() == 4 && num_pixels >= 2
}

/// Whether a wavelength axis can be derived for the record `m`.
pub open spec fn wavelength_axis_available(m: SpcModel) -> bool {
    match m.calibration {
        Some(c) => axis_available(c, m.data.len()),
        None => false,
    }
}

/// Whether a Raman-shift axis can be derived for the record `m`: a
/// wavelength axis and the laser wavelength.
pub open spec fn raman_axis_available(m: SpcModel) -> bool {
    wavelength_axis_available(m) && match m.config {
        Some(g) => g.raman_wavelength is Some,
        None => false,
    }
}

impl SpcFile {
    /// Reads the record held by the decoded payload buffers of a container.
    pub fn from_buffers(buffers: &[Vec<u8>]) -> (r: Result<Self, ParseError>)
        ensures
            carries(r, spec_spc(buffers@.map_values(|b: Vec<u8>| b@))),
    {
        let ghost bufs = buffers@.map_values(|b: Vec<u8>| b@);
        if buffers.len() == 0 {
            return Err(ParseError::MissingField(String::from_str("No buffers in container")));
        }
        let mut data_obj: Option<StorageObject> = None;
        let mut calibration_obj: Option<StorageObject> = None;
        let mut config_obj: Option<StorageObject> = None;
        let n = buffers.len();
        let mut i: usize = 0;
        assert(bufs.subrange(0, 0) =~= Seq::<Seq<u8>>::empty());
        while i < n
            invariant
                n == buffers@.len(),
                bufs == buffers@.map_values(|b: Vec<u8>| b@),
                0 <= i <= n,
                last_object_named(bufs.subrange(0, i as int), "data"@) == match data_obj {
                    Some(o) => Some(o@),
                    None => None::<ObjectModel>,
                },
                last_object_named(bufs.subrange(0, i as int), "calibration"@) == match calibration_obj {
                    Some(o) => Some(o@),
                    None => None::<ObjectModel>,
                },
                last_object_named(bufs.subrange(0, i as int), "config"@) == match config_obj {
                    Some(o) => Some(o@),
                    None => None::<ObjectModel>,
                },
            decreases n - i,
        {
            proof {
                reveal_strlit("data");
                reveal_strlit("calibration");
                reveal_strlit("config");
                assert("data"@.len() == 4 && "calibration"@.len() == 11 && "config"@.len() == 6);
                assert("data"@ != "calibration"@ && "data"@ != "config"@);
                assert("calibration"@ != "config"@);
                lemma_last_object_step(bufs, i as int, "data"@);
                lemma_last_object_step(bufs, i as int, "calibration"@);
                lemma_last_object_step(bufs, i as int, "config"@);
            }
            assert(bufs[i as int] == buffers@[i as int]@);
            match StorageObject::from_bytes(buffers[i].as_slice()) {
                Ok(obj) => {
                    proof {
                        lemma_object_model(&obj);
                    }
                    if same_text(obj.var_name.as_str(), "data") {
                        data_obj = Some(obj);
                    } else if same_text(obj.var_name.as_str(), "calibration") {
                        calibration_obj = Some(obj);
                    } else if same_text(obj.var_name.as_str(), "config") {
                        config_obj = Some(obj);
                    }
                },
                Err(_) => {},
            }
            i = i + 1;
        }
        assert(bufs.subrange(0, n as int) =~= bufs);
        let data_obj = match data_obj {
            Some(o) => o,
            None => return Err(ParseError::MissingField(String::from_str("data"))),
        };
        let uid = match extract_string_child(&data_obj, "m_uid") {
            Ok(s) => s,
            Err(e) => return Err(e),
        };
        let data = match extract_double_vector_child(&data_obj, "m_data") {
            Ok(v) => v,
            Err(e) => return Err(e),
        };
        let blank = match extract_double_vector_child(&data_obj, "m_blank") {
            Ok(v) => v,
            Err(e) => return Err(e),
        };
        let calibration = match calibration_obj {
            Some(obj) => match extract_double_vector(&obj) {
                Ok(coefficients) => Some(Calibration { coefficients }),
                Err(_) => None,
            },
            None => None,
        };
        let config = match config_obj {
            Some(obj) => Some(extract_config(&obj)),
            None => None,
        };
        Ok(SpcFile { uid, data, blank, calibration, config })
    }

    /// Reads the record held by a container's bytes: unpacks it, then reads
    /// its buffers.
    pub fn from_bytes(bytes: &[u8]) -> (r: Result<Self, ParseError>)
        ensures
            carries(r, spec_spc_file(bytes@)),
    {
        let buffers = match unpack_container(bytes) {
            Ok(b) => b,
            Err(e) => return Err(e),
        };
        Self::from_buffers(buffers.as_slice())
    }

    /// Whether calibration coefficients were read, usable or not.
    pub fn has_calibration(&self) -> (r: bool)
        ensures
            r == self.calibration is Some,
    {
        self.calibration.is_some()
    }

    /// Whether a wavelength axis can be derived: four calibration
    /// coefficients and at least two pixels.
    pub fn has_wavelength_axis(&self) -> (r: bool)
        ensures
            r == wavelength_axis_available(self@),
    {
        match &self.calibration {
            Some(c) => c.coefficients.len() == 4 && self.data.len() >= 2,
            None => false,
        }
    }

    /// Whether a Raman-shift axis can be derived: a wavelength axis and the
    /// laser wavelength.
    pub fn has_raman_shift(&self) -> (r: bool)
        ensures
            r == raman_axis_available(self@),
    {
        let laser = match &self.config {
            Some(g) => g.raman_wavelength.is_some(),
            None => false,
        };
        self.has_wavelength_axis() && laser
    }
}

} // verus!
