//! Steps that run one after the other as one step.

use vstd::prelude::*;
use crate::error::RunError;

verus! {

/// A list of steps that counts as one step: the steps run in order, each on a
/// request of its own, and the first failure ends the sequence.
pub struct NodeSequence<N>(pub Vec<N>);

impl<N> NodeSequence<N> {
    /// The sequence of `nodes`.
    pub fn new(nodes: Vec<N>) -> (sequence: Self)
        ensures
            sequence.0@ == nodes@,
    {
        NodeSequence(nodes)
    }

    /// This sequence with `node` as one more step at its end.
    pub fn followed_by(self, node: N) -> (sequence: Self)
        ensures
            sequence.0@ == self.0@.push(node),
    {
        let mut nodes = self.0;
        nodes.push(node);
        NodeSequence(nodes)
    }

    /// This sequence with the steps of `sequence` at its end.
    pub fn then_sequence(self, sequence: NodeSequence<N>) -> (both: Self)
        ensures
            both.0@ == self.0@ + sequence.0@,
    {
        let mut nodes = self.0;
        let mut more = sequence.0;
        nodes.append(&mut more);
        NodeSequence(nodes)
    }

    /// The first `count` steps succeed on `request`.
    pub open spec fn succeed<Req>(&self, request: &Req, count: int) -> bool where
        N: Fn(&Req) -> Result<(), RunError>,
     {
        forall|i: int| 0 <= i < count ==> call_ensures(#[trigger] self.0@[i], (request,), Ok(()))
    }

    /// Runs the steps in order on `request` and stops at the first failure.
    ///
    /// Succeeds when every step has succeeded. Fails with the failure of the
    /// first step that failed; the steps after it have not run.
    pub fn call<Req>(&self, request: &Req) -> (outcome: Result<(), RunError>) where
        N: Fn(&Req) -> Result<(), RunError>,

        requires
            forall|i: int| 0 <= i < self.0@.len() ==> call_requires(#[trigger] self.0@[i], (request,)),
        ensures
            match outcome {
                Ok(()) => self.succeed(request, self.0@.len() as int),
                Err(error) => exists|at: int|
                    0 <= at < self.0@.len() && self.succeed(request, at) && call_ensures(
                        #[trigger] self.0@[at],
                        (request,),
                        Err::<(), RunError>(error),
                    ),
            },
    {
        let mut i: usize = 0;
        while i < self.0.len()
            invariant
                i <= self.0@.len(),
                forall|j: int|
                    0 <= j < self.0@.len() ==> call_requires(#[trigger] self.0@[j], (request,)),
                self.succeed(request, i as int),
            decreases self.0@.len() - i,
        {
            let step: &N = &self.0[i];
            let out = step(request);
            match out {
                Ok(()) => {
                    assert(call_ensures(*step, (request,), out));
                    assert(out->Ok_0 == ());
                    assert(out == Ok::<(), RunError>(()));
                },
                Err(error) => {
                    return Err(error);
                },
            }
            i += 1;
        }
        Ok(())
    }
}

} // verus!
