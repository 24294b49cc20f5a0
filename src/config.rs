//! The parameters of a run, and their validation.

use vstd::prelude::*;
use vstd::string::*;

verus! {

/// What a caller asks for when starting a run.
#[derive(Clone, Debug)]
pub struct RunConfig {
    pub target: String,
    pub clones_per_ind: u32,
    pub survivors: u32,
    pub mut_count: u16,
    pub ind_count: u32,
}

/// Why a run configuration was refused.
#[derive(Clone, Copy, Debug, PartialEq, Eq, Structural)]
pub enum ConfigError {
    /// More survivors than children made in one generation.
    TooManySurvivors,
    /// A target of two characters or fewer.
    TargetTooShort,
    /// No mutation per child.
    NoMutation,
    /// No seed candidate, or no clone per candidate.
    NoIndividuals,
}

/// The outcome of validation, checks taken in order: survivors against
/// children per generation, target length, mutation count, population.
pub open spec fn check_of(
    target_len: nat,
    clones_per_ind: nat,
    survivors: nat,
    mut_count: nat,
    ind_count: nat,
) -> Result<(), ConfigError> {
    if survivors > clones_per_ind * ind_count {
        Err(ConfigError::TooManySurvivors)
    } else if target_len <= 2 {
        Err(ConfigError::TargetTooShort)
    } else if mut_count == 0 {
        Err(ConfigError::NoMutation)
    } else if ind_count == 0 || clones_per_ind == 0 {
        Err(ConfigError::NoIndividuals)
    } else {
        Ok(())
    }
}

/// Validates a run configuration before any simulation work.
pub fn sanitize(arg: &RunConfig) -> (r: Result<(), ConfigError>)
    ensures
        r == check_of(
            arg.target@.len(),
            arg.clones_per_ind as nat,
            arg.survivors as nat,
            arg.mut_count as nat,
            arg.ind_count as nat,
        ),
{
    let a = arg.clones_per_ind as u64;
    let b = arg.ind_count as u64;
    assert(a * b <= u32::MAX as int * u32::MAX as int) by (nonlinear_arith)
        requires
            a <= u32::MAX,
            b <= u32::MAX,
    ;
    let children = a * b;
    if arg.survivors as u64 > children {
        Err(ConfigError::TooManySurvivors)
    } else if arg.target.as_str().unicode_len() <= 2 {
        Err(ConfigError::TargetTooShort)
    } else if arg.mut_count == 0 {
        Err(ConfigError::NoMutation)
    } else if arg.ind_count == 0 || arg.clones_per_ind == 0 {
        Err(ConfigError::NoIndividuals)
    } else {
        Ok(())
    }
}

} // verus!
