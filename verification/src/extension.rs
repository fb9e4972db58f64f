//! The interface shared by multilinear extensions.
use crate::field::Fp;
use vstd::prelude::*;

verus! {

/// A multilinear extension over `Fp<P>`: it can be evaluated fully or
/// partially, shrunk to the variables it uses, and serialised.
///
/// Each operation is described by spec functions that an implementation
/// defines; the implementation's bodies are checked against them.
pub trait MultiLinearExtension<const P: u64>: Sized {
    /// The value is well formed.
    spec fn ext_wf(&self) -> bool;

    /// The number of variables.
    spec fn ext_vars(&self) -> nat;

    /// `evaluate` is defined on these assignments.
    spec fn evaluate_allowed(&self, assignments: Seq<Fp<P>>) -> bool;

    /// `evaluate` succeeds on these assignments.
    spec fn evaluate_succeeds(&self, assignments: Seq<Fp<P>>) -> bool;

    /// The value a successful `evaluate` returns.
    spec fn evaluate_value(&self, assignments: Seq<Fp<P>>) -> Fp<P>;

    /// `partial_evaluate` is defined on these assignments.
    spec fn partial_allowed(&self, assignments: Seq<(Vec<bool>, Fp<P>)>) -> bool;

    /// `partial_evaluate` succeeds on these assignments.
    spec fn partial_succeeds(&self, assignments: Seq<(Vec<bool>, Fp<P>)>) -> bool;

    /// The result of a successful `partial_evaluate` is this one.
    spec fn partial_result(&self, assignments: Seq<(Vec<bool>, Fp<P>)>, result: Self) -> bool;

    /// `relabel` is defined on this value.
    spec fn relabel_allowed(&self) -> bool;

    /// The result of `relabel` is this one.
    spec fn relabel_result(&self, result: Self) -> bool;

    /// The bytes `to_bytes` gives.
    spec fn bytes_spec(&self) -> Seq<u8>;

    /// Returns the number of variables in the extension.
    fn n_vars(&self) -> (r: usize)
        requires
            self.ext_wf(),
        ensures
            r as nat == self.ext_vars(),
    ;

    /// Assign a value to every variable and return the evaluation.
    fn evaluate(&self, assignments: &[Fp<P>]) -> (r: Result<Fp<P>, &'static str>)
        requires
            self.ext_wf(),
            self.evaluate_allowed(assignments@),
        ensures
            r is Ok <==> self.evaluate_succeeds(assignments@),
            r matches Ok(v) ==> v == self.evaluate_value(assignments@),
    ;

    /// Fix some variables and return the reduced extension.
    fn partial_evaluate(&self, assignments: &[(Vec<bool>, Fp<P>)]) -> (r: Result<Self, &'static str>)
        requires
            self.ext_wf(),
            self.partial_allowed(assignments@),
        ensures
            r is Ok <==> self.partial_succeeds(assignments@),
            r matches Ok(p) ==> p.ext_wf() && self.partial_result(assignments@, p),
    ;

    /// Remove the variables that are no longer used, renumbering the others.
    fn relabel(self) -> (r: Self)
        requires
            self.ext_wf(),
            self.relabel_allowed(),
        ensures
            self.relabel_result(r),
    ;

    /// Convert the extension to bytes (used for transcripts).
    fn to_bytes(&self) -> (r: Vec<u8>)
        ensures
            r@ == self.bytes_spec(),
    ;
}

} // verus!
