//! Protocol parameters: the soundness regime, the polynomial's dimension,
//! and the knobs the round planner derives the per-round plan from.

use vstd::prelude::*;

verus! {

/// The list-decoding assumption under which query counts are derived.
#[derive(Debug, Clone, Copy, PartialEq, Eq, Structural)]
pub enum SoundnessType {
    UniqueDecoding,
    ProvableList,
    ConjectureList,
}

impl SoundnessType {
    /// The regime's display name.
    pub fn name(&self) -> (r: &'static str)
        ensures
            r@ == match *self {
                SoundnessType::ProvableList => "ProvableList"@,
                SoundnessType::ConjectureList => "ConjectureList"@,
                SoundnessType::UniqueDecoding => "UniqueDecoding"@,
            },
    {
        match self {
            SoundnessType::ProvableList => "ProvableList",
            SoundnessType::ConjectureList => "ConjectureList",
            SoundnessType::UniqueDecoding => "UniqueDecoding",
        }
    }
}

impl core::str::FromStr for SoundnessType {
    type Err = String;

    /// Parses a regime from its display name.
    fn from_str(s: &str) -> (r: Result<SoundnessType, String>) {
        if s.to_owned() == "ProvableList".to_owned() {
            Ok(SoundnessType::ProvableList)
        } else if s.to_owned() == "ConjectureList".to_owned() {
            Ok(SoundnessType::ConjectureList)
        } else if s.to_owned() == "UniqueDecoding".to_owned() {
            Ok(SoundnessType::UniqueDecoding)
        } else {
            Err("Invalid soundness specification".to_owned())
        }
    }
}

/// The dimension of the committed polynomial.
#[derive(Debug, Clone, Copy)]
pub struct MultivariateParameters {
    pub num_variables: usize,
}

impl MultivariateParameters {
    /// Parameters for an `num_variables`-variate multilinear polynomial.
    pub fn new(num_variables: usize) -> (r: Self)
        ensures
            r.num_variables == num_variables,
    {
        Self { num_variables }
    }
}

/// The protocol-level parameters the round planner starts from. The Merkle
/// hashing parameters the original commitment layer carries belong to the
/// unverified outer layer.
#[derive(Debug, Clone, Copy)]
pub struct WhirParameters {
    pub starting_log_inv_rate: usize,
    pub folding_factor: usize,
    pub soundness_type: SoundnessType,
    pub security_level: usize,
    pub protocol_security_level: usize,
}

} // verus!
