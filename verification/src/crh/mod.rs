//! Fixed-length collision-resistant hash functions.

pub mod pedersen;

use crate::Error;
use vstd::prelude::*;

verus! {

/// The random number generator that parameter generation draws from.
#[verifier::external_type_specification]
#[verifier::external_body]
pub struct ExStdRng(ark_std::rand::rngs::StdRng);

/// A collision-resistant hash function on inputs of a fixed bit length.
///
/// An output is handled as its byte encoding: two outputs are equal exactly when
/// their encodings are.
pub trait FixedLengthCRH {
    /// The number of input bits that the function takes.
    const INPUT_SIZE_BITS: usize;

    /// The public parameters of the function.
    type Parameters;

    /// The byte length of an encoded output.
    spec fn output_size() -> nat;

    /// Whether reading an output from the bytes `d` succeeds.
    spec fn output_decodes(d: Seq<u8>) -> bool;

    /// The inputs on which `evaluate` runs to its end.
    spec fn evaluate_accepts(parameters: Self::Parameters, input: Seq<u8>) -> bool;

    /// The encoded output on `input`, or none where the parameters hold a value that
    /// cannot be used.
    spec fn spec_evaluate(parameters: Self::Parameters, input: Seq<u8>) -> Option<Seq<u8>>;

    /// The output encoded at the start of `bytes`, if any.
    spec fn spec_read_output(bytes: Seq<u8>) -> Option<Seq<u8>>;

    /// The encoding of the default output.
    spec fn spec_default_output() -> Seq<u8>;

    /// Parameters under which the function has an output on every input.
    spec fn evaluate_total(parameters: Self::Parameters) -> bool;

    /// Encoded outputs have a positive length.
    proof fn lemma_output_size()
        ensures
            Self::output_size() > 0,
    ;

    /// Every result of `evaluate` is an encoded output of the fixed length.
    proof fn lemma_evaluate_output(parameters: Self::Parameters, input: Seq<u8>)
        ensures
            Self::spec_evaluate(parameters, input) matches Some(d) ==> d.len()
                == Self::output_size(),
    ;

    /// Reading takes the encoded output at the start of the bytes, and succeeds exactly
    /// where those bytes decode.
    proof fn lemma_read_output(bytes: Seq<u8>)
        ensures
            Self::spec_read_output(bytes) is Some <==> (bytes.len() >= Self::output_size()
                && Self::output_decodes(bytes.take(Self::output_size() as int))),
            Self::spec_read_output(bytes) is Some ==> Self::spec_read_output(bytes)
                == Some(bytes.take(Self::output_size() as int)),
    ;

    /// Under parameters of `evaluate_total`, every input has an output.
    proof fn lemma_evaluate_total(parameters: Self::Parameters, input: Seq<u8>)
        requires
            Self::evaluate_total(parameters),
        ensures
            Self::spec_evaluate(parameters, input) is Some,
    ;

    /// Samples parameters, under which every input has an output.
    fn setup(rng: &mut ark_std::rand::rngs::StdRng) -> (r: Result<Self::Parameters, Error>)
        ensures
            r matches Ok(p) ==> Self::evaluate_total(p),
    ;

    /// Evaluates the function on `input`.
    fn evaluate(parameters: &Self::Parameters, input: &[u8]) -> (r: Result<Vec<u8>, Error>)
        requires
            Self::evaluate_accepts(*parameters, input@),
        ensures
            match r {
                Ok(d) => Self::spec_evaluate(*parameters, input@) == Some(d@),
                Err(e) => Self::spec_evaluate(*parameters, input@) is None && e == Error::Crh,
            },
            Self::evaluate_total(*parameters) ==> r is Ok,
    ;

    /// Whether `evaluate` accepts every input of `len` bytes under `parameters`.
    fn accepts_input_len(parameters: &Self::Parameters, len: usize) -> (r: bool)
        ensures
            r == (forall|s: Seq<u8>|
                s.len() == len ==> #[trigger] Self::evaluate_accepts(*parameters, s)),
    ;

    /// Reads an encoded output from the start of `bytes`.
    fn read_output(bytes: &[u8]) -> (r: Option<Vec<u8>>)
        ensures
            match r {
                Some(d) => Self::spec_read_output(bytes@) == Some(d@),
                None => Self::spec_read_output(bytes@) is None,
            },
    ;

    /// The default output.
    fn default_output() -> (r: Vec<u8>)
        ensures
            r@ == Self::spec_default_output(),
    ;
}

} // verus!
