//! What a run is told before it starts: which fields to read, and the
//! pressure above which the run begins.

use vstd::prelude::*;
use vstd::string::*;
use vstd::utf8::encode_utf8;

verus! {

/// The bit pattern of 101.0, the pressure threshold of the default settings.
pub const DEFAULT_PRESSURE_THRESHOLD: u32 = 0x42CA_0000;

/// The names of the three fields that a run reads, and its pressure
/// threshold as a binary32 bit pattern.
#[derive(Debug, Clone, PartialEq, Eq)]
pub struct Config {
    pub pressure_field: String,
    pub displacement_field: String,
    pub min_max_field: String,
    pub pressure_threshold: u32,
}

/// The settings as a run reads them: each name by its bytes.
pub struct Settings {
    pub pressure: Seq<u8>,
    pub displacement: Seq<u8>,
    pub min_max: Seq<u8>,
    pub threshold: u32,
}

impl View for Config {
    type V = Settings;

    open spec fn view(&self) -> Settings {
        Settings {
            pressure: encode_utf8(self.pressure_field@),
            displacement: encode_utf8(self.displacement_field@),
            min_max: encode_utf8(self.min_max_field@),
            threshold: self.pressure_threshold,
        }
    }
}

impl Default for Config {
    /// Pressure is read from `F_pri_pressure_bar`, displacement and the
    /// tracked readings from `Displacement_A_mm`, and the threshold is 101.
    fn default() -> (r: Self)
        ensures
            r.pressure_field@ == "F_pri_pressure_bar"@,
            r.displacement_field@ == "Displacement_A_mm"@,
            r.min_max_field@ == "Displacement_A_mm"@,
            r.pressure_threshold == DEFAULT_PRESSURE_THRESHOLD,
    {
        Config {
            pressure_field: String::from_str("F_pri_pressure_bar"),
            displacement_field: String::from_str("Displacement_A_mm"),
            min_max_field: String::from_str("Displacement_A_mm"),
            pressure_threshold: DEFAULT_PRESSURE_THRESHOLD,
        }
    }
}

impl Config {
    /// The bytes of the name of the pressure field.
    pub fn pressure_name(&self) -> (r: &[u8])
        ensures
            r@ == self@.pressure,
    {
        self.pressure_field.as_str().as_bytes()
    }

    /// The bytes of the name of the displacement field.
    pub fn displacement_name(&self) -> (r: &[u8])
        ensures
            r@ == self@.displacement,
    {
        self.displacement_field.as_str().as_bytes()
    }

    /// The bytes of the name of the field whose range is kept.
    pub fn min_max_name(&self) -> (r: &[u8])
        ensures
            r@ == self@.min_max,
    {
        self.min_max_field.as_str().as_bytes()
    }
}

} // verus!
