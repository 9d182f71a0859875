//! The die roller: fresh face values from a random source that the caller
//! owns.

use crate::error::EngineError;
use crate::pool::valid_faces;
use rand::rngs::StdRng;
use rand::Rng;
use vstd::prelude::*;

verus! {

/// The lowest face of a die.
pub const FACCIA_MIN: u8 = 1;

/// The highest face of a die.
pub const FACCIA_MAX: u8 = 10;

/// The fewest dice that one roll may ask for.
pub const MIN_DADI: usize = 1;

/// The most dice that one roll may ask for.
pub const MAX_DADI: usize = 100;

/// `num_dadi` is a number of dice that a roll accepts.
pub open spec fn valid_count(num_dadi: usize) -> bool {
    1 <= num_dadi <= 100
}

/// `rand::rngs::StdRng`, the random source; nothing is known of its state.
#[verifier::external_type_specification]
#[verifier::external_body]
pub struct ExStdRng(rand::rngs::StdRng);

/// One call of `Rng::gen_range` on the closed range from `minimo` to
/// `massimo`, which must not be empty. Which value comes up is left open;
/// only that it lies in the range is relied on.
#[verifier::external_body]
pub(crate) fn estrai_tra(rng: &mut StdRng, minimo: u8, massimo: u8) -> (valore: u8)
    requires
        minimo <= massimo,
    ensures
        minimo <= valore <= massimo,
{
    rng.gen_range(minimo..=massimo)
}

/// Rolls one ten-sided die.
pub fn tira_dado(rng: &mut StdRng) -> (faccia: u8)
    ensures
        1 <= faccia <= 10,
{
    estrai_tra(rng, FACCIA_MIN, FACCIA_MAX)
}

/// Rolls `num_dadi` ten-sided dice and hands them back in the order in
/// which they came up; a count of zero or above the limit is refused.
pub fn lancia_dadi(num_dadi: usize, rng: &mut StdRng) -> (esito: Result<Vec<u8>, EngineError>)
    ensures
        match esito {
            Ok(dadi) => valid_count(num_dadi) && dadi@.len() == num_dadi && valid_faces(dadi@),
            Err(e) => e == EngineError::InvalidArgument && !valid_count(num_dadi),
        },
{
    if num_dadi < MIN_DADI || num_dadi > MAX_DADI {
        return Err(EngineError::InvalidArgument);
    }
    let mut dadi: Vec<u8> = Vec::new();
    let mut i: usize = 0;
    while i < num_dadi
        invariant
            i <= num_dadi,
            dadi@.len() == i,
            valid_faces(dadi@),
        decreases num_dadi - i,
    {
        let faccia = tira_dado(rng);
        dadi.push(faccia);
        i += 1;
    }
    Ok(dadi)
}

} // verus!
