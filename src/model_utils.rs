//! Port declarations of the stock processing units.
use vstd::prelude::*;

use crate::types::IOType;

verus! {

/// A voltage-controlled amplifier: multiplies its `Input` by its `Control`,
/// sample by sample, into its `Output`.
pub struct Vca;

impl Vca {
    /// Declared inputs: `Input` and `Control`, both voltages.
    pub fn input_format(&self) -> (r: Vec<(String, IOType)>)
        ensures
            r@.len() == 2,
            r@[0].0@ == "Input"@ && r@[0].1 == IOType::Voltage,
            r@[1].0@ == "Control"@ && r@[1].1 == IOType::Voltage,
    {
        let mut r: Vec<(String, IOType)> = Vec::new();
        r.push((String::from_str("Input"), IOType::Voltage));
        r.push((String::from_str("Control"), IOType::Voltage));
        r
    }

    /// Declared outputs: `Output`, a voltage.
    pub fn output_format(&self) -> (r: Vec<(String, IOType)>)
        ensures
            r@.len() == 1,
            r@[0].0@ == "Output"@ && r@[0].1 == IOType::Voltage,
    {
        let mut r: Vec<(String, IOType)> = Vec::new();
        r.push((String::from_str("Output"), IOType::Voltage));
        r
    }
}

} // verus!
