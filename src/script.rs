//! Edit scripts: the runs that the line comparison reports, checked to cover
//! both sequences in order.

use vstd::prelude::*;

use crate::hunk::texts;
use crate::processor::{EditOp, ProcessorState};

verus! {

/// The runs that Myers' comparison reports for `a` against `b`, with each
/// deletion and insertion that meet merged into one replacement.
pub uninterp spec fn myers_script(a: Seq<Seq<char>>, b: Seq<Seq<char>>) -> Seq<EditOp>;

/// Records the runs of an edit script as they are reported.
pub struct ScriptRecorder {
    pub ops: Vec<EditOp>,
}

impl diffs::Diff for ScriptRecorder {
    type Error = ();

    fn equal(&mut self, old: usize, new: usize, len: usize) -> Result<(), ()> {
        self.ops.push(EditOp::Equal { old, new, len });
        Ok(())
    }

    fn delete(&mut self, old: usize, len: usize) -> Result<(), ()> {
        self.ops.push(EditOp::Delete { old, len });
        Ok(())
    }

    fn insert(&mut self, old: usize, new: usize, new_len: usize) -> Result<(), ()> {
        self.ops.push(EditOp::Insert { old, new, new_len });
        Ok(())
    }

    fn replace(&mut self, old: usize, old_len: usize, new: usize, new_len: usize) -> Result<(), ()> {
        self.ops.push(EditOp::Replace { old, old_len, new, new_len });
        Ok(())
    }

    fn finish(&mut self) -> Result<(), ()> {
        Ok(())
    }
}

/// Relies on `diffs::myers::diff`, driven through `diffs::Replace`: the runs
/// it reports for two sequences of lines, which depend on those lines alone.
#[verifier::external_body]
pub(crate) fn edit_script(text1: &[String], text2: &[String]) -> (r: Vec<EditOp>)
    ensures
        r@ == myers_script(texts(text1@), texts(text2@)),
{
    let mut replace = diffs::Replace::new(ScriptRecorder { ops: Vec::new() });
    let _ = diffs::myers::diff(&mut replace, text1, 0, text1.len(), text2, 0, text2.len());
    replace.into_inner().ops
}

/// Where a run ends in the old sequence.
pub open spec fn old_end(op: EditOp) -> nat {
    match op {
        EditOp::Equal { old, len, .. } => (old + len) as nat,
        EditOp::Delete { old, len } => (old + len) as nat,
        EditOp::Insert { old, .. } => old as nat,
        EditOp::Replace { old, old_len, .. } => (old + old_len) as nat,
    }
}

/// Where a run ends in the new sequence, `new_pos` being where it starts.
pub open spec fn new_end(op: EditOp, new_pos: nat) -> nat {
    match op {
        EditOp::Equal { new, len, .. } => (new + len) as nat,
        EditOp::Delete { .. } => new_pos,
        EditOp::Insert { new, new_len, .. } => (new + new_len) as nat,
        EditOp::Replace { new, new_len, .. } => (new + new_len) as nat,
    }
}

/// `a[old..old+len]` and `b[new..new+len]` hold the same lines.
pub open spec fn same_lines(a: Seq<Seq<char>>, b: Seq<Seq<char>>, old: nat, new: nat, len: nat) -> bool {
    forall|k: int| 0 <= k < len ==> #[trigger] a[old + k] == b[new + k]
}

/// Run `op` starts at `old_pos` / `new_pos` and stays inside `a` and `b`;
/// an equal run holds the same lines in both.
pub open spec fn op_fits(op: EditOp, old_pos: nat, new_pos: nat, a: Seq<Seq<char>>, b: Seq<Seq<char>>) -> bool {
    let a_len = a.len();
    let b_len = b.len();
    match op {
        EditOp::Equal { old, new, len } => old == old_pos && new == new_pos && old + len <= a_len
            && new + len <= b_len && same_lines(a, b, old as nat, new as nat, len as nat),
        EditOp::Delete { old, len } => old == old_pos && old + len <= a_len,
        EditOp::Insert { old, new, new_len } => old == old_pos && new == new_pos && new + new_len
            <= b_len,
        EditOp::Replace { old, old_len, new, new_len } => old == old_pos && new == new_pos && old
            + old_len <= a_len && new + new_len <= b_len,
    }
}

/// The runs `ops`, from `old_pos` / `new_pos` on, follow each other without
/// gap or overlap, end exactly at the ends of `a` and `b`, and each equal
/// run holds the same lines in both.
pub open spec fn covers(old_pos: nat, new_pos: nat, a: Seq<Seq<char>>, b: Seq<Seq<char>>, ops: Seq<EditOp>) -> bool
    decreases ops.len(),
{
    if ops.len() == 0 {
        old_pos == a.len() && new_pos == b.len()
    } else {
        op_fits(ops[0], old_pos, new_pos, a, b) && covers(
            old_end(ops[0]),
            new_end(ops[0], new_pos),
            a,
            b,
            ops.drop_first(),
        )
    }
}

/// A script that covers the sequences from the state's position runs
/// through: every run is accepted, and the state stays well formed.
pub proof fn lemma_covers_runs(s: ProcessorState, ops: Seq<EditOp>)
    requires
        s.wf(),
        covers(s.old_pos, s.new_pos, s.a, s.b, ops),
    ensures
        runs_through(s, ops),
        s.run(ops).wf(),
        s.run(ops).old_pos == s.a.len(),
        s.run(ops).new_pos == s.b.len(),
    decreases ops.len(),
{
    if ops.len() > 0 {
        let op = ops[0];
        assert(s.accepts(op));
        crate::processor::lemma_apply_wf(s, op);
        let t = s.apply(op);
        assert(t.old_pos == old_end(op) && t.new_pos == new_end(op, s.new_pos));
        lemma_covers_runs(t, ops.drop_first());
    }
}

/// Every run of `ops` is accepted in turn from state `s`.
pub open spec fn runs_through(s: ProcessorState, ops: Seq<EditOp>) -> bool
    decreases ops.len(),
{
    ops.len() == 0 || (s.accepts(ops[0]) && runs_through(s.apply(ops[0]), ops.drop_first()))
}

/// Whether `text1[old..old+len]` and `text2[new..new+len]` hold the same lines.
fn lines_match(text1: &[String], text2: &[String], old: usize, new: usize, len: usize) -> (r: bool)
    requires
        old + len <= text1@.len(),
        new + len <= text2@.len(),
    ensures
        r == same_lines(texts(text1@), texts(text2@), old as nat, new as nat, len as nat),
{
    let n1 = text1.len();
    let n2 = text2.len();
    let mut k: usize = 0;
    while k < len
        invariant
            k <= len,
            n1 == text1@.len(),
            n2 == text2@.len(),
            old + len <= n1,
            new + len <= n2,
            forall|j: int| 0 <= j < k ==> #[trigger] texts(text1@)[old + j] == texts(text2@)[new + j],
        decreases len - k,
    {
        if text1[old + k] != text2[new + k] {
            assert(texts(text1@)[old + k] != texts(text2@)[new + k]);
            return false;
        }
        k += 1;
    }
    true
}

/// Whether `ops` covers `text1` and `text2`.
pub fn script_covers(text1: &[String], text2: &[String], ops: &Vec<EditOp>) -> (r: bool)
    ensures
        r == covers(0, 0, texts(text1@), texts(text2@), ops@),
{
    let a_len = text1.len();
    let b_len = text2.len();
    let ghost a = texts(text1@);
    let ghost b = texts(text2@);
    let mut old_pos: usize = 0;
    let mut new_pos: usize = 0;
    let mut i: usize = 0;
    assert(ops@.skip(0) =~= ops@);
    while i < ops.len()
        invariant
            i <= ops@.len(),
            old_pos <= a_len,
            new_pos <= b_len,
            a_len == a.len(),
            b_len == b.len(),
            a == texts(text1@),
            b == texts(text2@),
            covers(0, 0, a, b, ops@) == covers(old_pos as nat, new_pos as nat, a, b, ops@.skip(i as int)),
        decreases ops@.len() - i,
    {
        let op = ops[i];
        assert(ops@.skip(i as int)[0] == op);
        assert(ops@.skip(i as int).drop_first() =~= ops@.skip(i + 1));
        let fits = match op {
            EditOp::Equal { old, new, len } => old == old_pos && new == new_pos && len <= a_len
                - old && len <= b_len - new && lines_match(text1, text2, old, new, len),
            EditOp::Delete { old, len } => old == old_pos && len <= a_len - old,
            EditOp::Insert { old, new, new_len } => old == old_pos && new == new_pos && new_len
                <= b_len - new,
            EditOp::Replace { old, old_len, new, new_len } => old == old_pos && new == new_pos
                && old_len <= a_len - old && new_len <= b_len - new,
        };
        if !fits {
            return false;
        }
        match op {
            EditOp::Equal { old, new, len } => {
                old_pos = old + len;
                new_pos = new + len;
            },
            EditOp::Delete { old, len } => {
                old_pos = old + len;
            },
            EditOp::Insert { old, new, new_len } => {
                old_pos = old;
                new_pos = new + new_len;
            },
            EditOp::Replace { old, old_len, new, new_len } => {
                old_pos = old + old_len;
                new_pos = new + new_len;
            },
        }
        i += 1;
    }
    assert(ops@.skip(i as int).len() == 0);
    old_pos == a_len && new_pos == b_len
}

} // verus!
