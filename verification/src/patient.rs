//! The record type the whole library works on, its error type, and the
//! primary split of a population by outcome label.

use crate::model::{entries, entry, with_diagnosis};
use vstd::prelude::*;

verus! {

/// One record of the population: a feature vector in the caller's
/// fixed-point scale, and a binary outcome label.
#[derive(Debug, PartialEq)]
pub struct Patient {
    pub features: Vec<i64>,
    pub diagnosis: u8,
}

impl Clone for Patient {
    /// A clone carries the same feature values and the same label.
    fn clone(&self) -> (r: Self)
        ensures
            entry(r) == entry(*self),
    {
        Patient { features: self.features.clone(), diagnosis: self.diagnosis }
    }
}

/// The error kinds of the library. `InvalidInput` covers an empty record
/// set, a cluster count out of range, and records of differing
/// dimensionality handed to an operation that validates its whole input;
/// `DimensionMismatch` is signalled by the distance metric itself.
#[derive(Debug, Clone, Copy, PartialEq, Eq, Structural)]
pub enum Error {
    InvalidInput,
    DimensionMismatch,
}

/// Splits the population into the records whose diagnosis label is 1 and
/// those whose label is anything else, keeping input order in both parts.
pub fn split_diagnosis(patients: &Vec<Patient>) -> (r: (Vec<Patient>, Vec<Patient>))
    ensures
        entries(r.0@) == with_diagnosis(entries(patients@), true),
        entries(r.1@) == with_diagnosis(entries(patients@), false),
{
    let mut diagnosed: Vec<Patient> = Vec::new();
    let mut not_diagnosed: Vec<Patient> = Vec::new();

    proof {
        assert(entries(patients@.take(0)) =~= Seq::<(Seq<i64>, u8)>::empty());
        assert(entries(diagnosed@) =~= with_diagnosis(entries(patients@.take(0)), true));
        assert(entries(not_diagnosed@) =~= with_diagnosis(entries(patients@.take(0)), false));
    }
    let n = patients.len();
    for i in 0..n
        invariant
            n == patients@.len(),
            entries(diagnosed@) == with_diagnosis(entries(patients@.take(i as int)), true),
            entries(not_diagnosed@) == with_diagnosis(entries(patients@.take(i as int)), false),
    {
        let p = &patients[i];
        let c = p.clone();
        let ghost prev_d = diagnosed@;
        let ghost prev_n = not_diagnosed@;
        proof {
            assert(entries(patients@.take(i + 1)) =~= entries(patients@.take(i as int)).push(
                entry(patients@[i as int]),
            ));
            assert(entries(patients@.take(i + 1)).drop_last() =~= entries(
                patients@.take(i as int),
            ));
        }
        if c.diagnosis == 1 {
            diagnosed.push(c);
            proof {
                assert(entries(diagnosed@) =~= entries(prev_d).push(entry(patients@[i as int])));
                assert(entries(diagnosed@) == with_diagnosis(
                    entries(patients@.take(i + 1)),
                    true,
                ));
                assert(entries(not_diagnosed@) == with_diagnosis(
                    entries(patients@.take(i + 1)),
                    false,
                ));
            }
        } else {
            not_diagnosed.push(c);
            proof {
                assert(entries(not_diagnosed@) =~= entries(prev_n).push(
                    entry(patients@[i as int]),
                ));
                assert(entries(diagnosed@) == with_diagnosis(
                    entries(patients@.take(i + 1)),
                    true,
                ));
                assert(entries(not_diagnosed@) == with_diagnosis(
                    entries(patients@.take(i + 1)),
                    false,
                ));
            }
        }
    }
    proof {
        assert(patients@.take(n as int) =~= patients@);
    }
    (diagnosed, not_diagnosed)
}

} // verus!
