//! Unified-diff hunk formation: turns an edit script over two line sequences
//! into the hunk region of a unified diff.

pub mod hunk;
pub mod laws;
pub mod processor;
pub mod script;

pub use hunk::Context;
pub use processor::{EditOp, Processor};

use vstd::prelude::*;

use hunk::texts;
use processor::ProcessorState;
use script::{covers, edit_script, lemma_covers_runs, runs_through};

verus! {

/// Why no diff was produced.
#[derive(Clone, Copy, Debug, PartialEq, Eq, Structural)]
pub enum DiffError {
    /// The edit script does not cover both sequences run after run.
    MalformedScript,
}

/// The accumulator's state once the script `ops` over `a` and `b` has run
/// to its end, with context radius `radius`.
pub open spec fn final_state(a: Seq<Seq<char>>, b: Seq<Seq<char>>, radius: nat, ops: Seq<EditOp>) -> ProcessorState {
    ProcessorState::initial(a, b, radius).run(ops).after_finish()
}

/// The hunk lines of the unified diff of `a` against `b` that the script
/// `ops` gives, with context radius `radius`.
pub open spec fn unified(a: Seq<Seq<char>>, b: Seq<Seq<char>>, radius: nat, ops: Seq<EditOp>) -> Seq<Seq<char>> {
    final_state(a, b, radius, ops).output
}

/// The outcome of a diff driven by the script `ops`.
pub open spec fn diff_outcome(
    a: Seq<Seq<char>>,
    b: Seq<Seq<char>>,
    radius: nat,
    ops: Seq<EditOp>,
) -> Result<Seq<Seq<char>>, DiffError> {
    if covers(0, 0, a, b, ops) {
        Ok(unified(a, b, radius, ops))
    } else {
        Err(DiffError::MalformedScript)
    }
}

/// `r` is the outcome `o`, its lines read as text.
pub open spec fn outcome_is(r: Result<Vec<String>, DiffError>, o: Result<Seq<Seq<char>>, DiffError>) -> bool {
    match r {
        Ok(v) => o == Ok::<Seq<Seq<char>>, DiffError>(texts(v@)),
        Err(e) => o == Err::<Seq<Seq<char>>, DiffError>(e),
    }
}

/// The hunk lines of the unified diff of `text1` against `text2` for the
/// edit script `ops`, with `context_radius` lines of context around each
/// change; an error if `ops` does not cover both sequences.
pub fn unidiff_with_script(
    text1: &[String],
    text2: &[String],
    context_radius: usize,
    ops: &Vec<EditOp>,
) -> (r: Result<Vec<String>, DiffError>)
    requires
        text1@.len() + text2@.len() < usize::MAX,
    ensures
        outcome_is(r, diff_outcome(texts(text1@), texts(text2@), context_radius as nat, ops@)),
{
    if !script::script_covers(text1, text2, ops) {
        return Err(DiffError::MalformedScript);
    }
    let mut p = Processor::new(text1, text2, context_radius);
    let ghost init = p@;
    proof {
        lemma_covers_runs(init, ops@);
        assert(ops@.skip(0) =~= ops@);
    }
    let mut i: usize = 0;
    while i < ops.len()
        invariant
            i <= ops@.len(),
            p@.wf(),
            p@.run(ops@.skip(i as int)) == init.run(ops@),
            runs_through(p@, ops@.skip(i as int)),
        decreases ops@.len() - i,
    {
        let op = ops[i];
        assert(ops@.skip(i as int)[0] == op);
        assert(ops@.skip(i as int).drop_first() =~= ops@.skip(i + 1));
        p.process(op);
        i += 1;
    }
    assert(ops@.skip(i as int) =~= Seq::<EditOp>::empty());
    p.finish();
    Ok(p.result())
}

/// The hunk lines of the unified diff of `text1` against `text2`, with
/// `context_radius` lines of context around each change, from the runs that
/// Myers' comparison reports.
pub fn unidiff(text1: &[String], text2: &[String], context_radius: usize) -> (r: Result<
    Vec<String>,
    DiffError,
>)
    requires
        text1@.len() + text2@.len() < usize::MAX,
    ensures
        outcome_is(
            r,
            diff_outcome(
                texts(text1@),
                texts(text2@),
                context_radius as nat,
                script::myers_script(texts(text1@), texts(text2@)),
            ),
        ),
{
    let ops = edit_script(text1, text2);
    unidiff_with_script(text1, text2, context_radius, &ops)
}

} // verus!
