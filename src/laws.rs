//! What holds of every diff: laws over edit scripts and the accumulator.

use vstd::prelude::*;

use crate::hunk::ContextView;
use crate::processor::{
    change_lines, context_lines, header_lines, header_texts, hunk_applies, layout,
    lemma_after_finish_wf, lemma_context_filters, lemma_initial_wf, net_growth, EditOp,
    ProcessorState,
};
use crate::script::{covers, lemma_covers_runs};
use crate::{final_state, unified};

verus! {

/// A run that shows no line as removed or added.
pub open spec fn changes_nothing(op: EditOp) -> bool {
    match op {
        EditOp::Equal { .. } => true,
        EditOp::Delete { len, .. } => len == 0,
        EditOp::Insert { new_len, .. } => new_len == 0,
        EditOp::Replace { old_len, new_len, .. } => old_len + new_len == 0,
    }
}

proof fn lemma_unchanged_run(s: ProcessorState, ops: Seq<EditOp>)
    requires
        !s.hunk.changed,
        forall|i: int| 0 <= i < ops.len() ==> changes_nothing(#[trigger] ops[i]),
    ensures
        !s.run(ops).hunk.changed,
        s.run(ops).output == s.output,
    decreases ops.len(),
{
    if ops.len() > 0 {
        assert(changes_nothing(ops[0]));
        let t = s.apply(ops[0]);
        assert forall|i: int| 0 <= i < ops.drop_first().len() implies changes_nothing(
            #[trigger] ops.drop_first()[i],
        ) by {
            assert(ops.drop_first()[i] == ops[i + 1]);
        }
        lemma_unchanged_run(t, ops.drop_first());
    }
}

/// A script in which no run removes or adds a line (such as the script of a
/// sequence against itself) yields no hunk, whatever the context radius.
pub proof fn lemma_unchanged_script_no_hunks(
    a: Seq<Seq<char>>,
    b: Seq<Seq<char>>,
    radius: nat,
    ops: Seq<EditOp>,
)
    requires
        forall|i: int| 0 <= i < ops.len() ==> changes_nothing(#[trigger] ops[i]),
    ensures
        unified(a, b, radius, ops) == Seq::<Seq<char>>::empty(),
{
    let s = ProcessorState::initial(a, b, radius);
    lemma_unchanged_run(s, ops);
    let t = s.run(ops);
    assert(t.trimmed() == t.hunk);
    assert(t.after_finish().output =~= t.output);
}

/// The output is a sequence of hunks, each a header line and a body. Every
/// header starts in the new sequence as far from its start in the old
/// sequence as the hunks before it grew the text (their added minus removed
/// lines), and every hunk turns its slice of the old sequence into its
/// slice of the new one: its context and removed lines are
/// `a[old_start-1 .. old_start-1+old_count]`, its context and added lines
/// `b[new_start-1 .. new_start-1+new_count]`.
pub proof fn lemma_header_offsets(
    a: Seq<Seq<char>>,
    b: Seq<Seq<char>>,
    radius: usize,
    ops: Seq<EditOp>,
)
    requires
        a.len() + b.len() < usize::MAX,
        covers(0, 0, a, b, ops),
    ensures
        ({
            let f = final_state(a, b, radius as nat, ops);
            &&& f.output == layout(f.headers, f.bodies)
            &&& header_lines(f.output) == header_texts(f.headers)
            &&& forall|k: int|
                0 <= k < f.headers.len() ==> #[trigger] f.headers[k].new_start
                    - f.headers[k].old_start == net_growth(f.headers.take(k))
            &&& forall|k: int|
                0 <= k < f.headers.len() ==> hunk_applies(a, b, #[trigger] f.headers[k], f.bodies[k])
        }),
{
    let s = ProcessorState::initial(a, b, radius as nat);
    lemma_initial_wf(a, b, radius as nat);
    lemma_covers_runs(s, ops);
    lemma_after_finish_wf(s.run(ops));
    lemma_run_keeps_sequences(s, ops);
}

proof fn lemma_run_keeps_sequences(s: ProcessorState, ops: Seq<EditOp>)
    ensures
        s.run(ops).a == s.a,
        s.run(ops).b == s.b,
    decreases ops.len(),
{
    if ops.len() > 0 {
        lemma_run_keeps_sequences(s.apply(ops[0]), ops.drop_first());
    }
}

proof fn lemma_same_changes(s1: ProcessorState, s2: ProcessorState, ops: Seq<EditOp>)
    requires
        s1.a == s2.a,
        s1.b == s2.b,
        s1.old_pos == s2.old_pos,
        s1.new_pos == s2.new_pos,
        s1.changes == s2.changes,
    ensures
        s1.run(ops).changes == s2.run(ops).changes,
    decreases ops.len(),
{
    if ops.len() > 0 {
        lemma_same_changes(s1.apply(ops[0]), s2.apply(ops[0]), ops.drop_first());
    }
}

/// The removed and added lines of a diff, in order, do not depend on the
/// context radius: a larger radius changes only the context shown and how
/// hunks merge.
pub proof fn lemma_changes_independent_of_radius(
    a: Seq<Seq<char>>,
    b: Seq<Seq<char>>,
    r1: usize,
    r2: usize,
    ops: Seq<EditOp>,
)
    requires
        a.len() + b.len() < usize::MAX,
        covers(0, 0, a, b, ops),
    ensures
        change_lines(unified(a, b, r1 as nat, ops)) == change_lines(unified(a, b, r2 as nat, ops)),
{
    let s1 = ProcessorState::initial(a, b, r1 as nat);
    let s2 = ProcessorState::initial(a, b, r2 as nat);
    lemma_initial_wf(a, b, r1 as nat);
    lemma_initial_wf(a, b, r2 as nat);
    lemma_covers_runs(s1, ops);
    lemma_covers_runs(s2, ops);
    lemma_after_finish_wf(s1.run(ops));
    lemma_after_finish_wf(s2.run(ops));
    lemma_same_changes(s1, s2, ops);
    let f1 = s1.run(ops).after_finish();
    let f2 = s2.run(ops).after_finish();
    lemma_context_filters(f1.hunk.data);
    lemma_context_filters(f2.hunk.data);
    assert(change_lines(f1.output) =~= change_lines(f1.output) + change_lines(f1.hunk.data));
    assert(change_lines(f2.output) =~= change_lines(f2.output) + change_lines(f2.hunk.data));
}

/// The hunk under construction with `n` more context lines, from `a[old..]`.
pub open spec fn with_context(s: ProcessorState, old: nat, n: nat) -> ContextView {
    ContextView {
        data: s.hunk.data + context_lines(s.a, old, old + n),
        equaled: s.hunk.equaled + n,
        ..s.hunk
    }
}

/// After a change, an equal run longer than twice the radius ends the hunk
/// with exactly `radius` lines of trailing context, and the next hunk starts
/// with exactly the last `radius` lines of the run.
pub proof fn lemma_wide_gap_splits(s: ProcessorState, old: nat, new: nat, len: nat)
    requires
        s.hunk.changed,
        len > 2 * s.radius,
    ensures
        ({
            let t = s.after_equal(old, new, len);
            &&& t.output == s.output + with_context(s, old, s.radius).rendered(
                s.removed as int,
                s.inserted as int,
            )
            &&& !t.hunk.changed
            &&& t.hunk.data == context_lines(s.a, (old + len - s.radius) as nat, old + len)
            &&& t.hunk.start == Some((old + len - s.radius + 1) as nat)
        }),
{
}

/// After a change, an equal run of at most twice the radius stays whole in
/// the hunk, so the changes on either side of it share one hunk.
pub proof fn lemma_narrow_gap_merges(s: ProcessorState, old: nat, new: nat, len: nat)
    requires
        s.hunk.changed,
        len <= 2 * s.radius,
    ensures
        ({
            let t = s.after_equal(old, new, len);
            &&& t.output == s.output
            &&& t.hunk.changed
            &&& t.hunk.data == with_context(s, old, len).data
        }),
{
}

/// A change followed by the last equal run of the script shows that run's
/// first `min(len, radius)` lines as trailing context: all of a shorter run,
/// exactly `radius` lines of a longer one.
pub proof fn lemma_trailing_context_at_end(s: ProcessorState, old: nat, new: nat, len: nat)
    requires
        s.hunk.changed,
    ensures
        ({
            let shown = if len < s.radius {
                len
            } else {
                s.radius
            };
            s.after_equal(old, new, len).after_finish().output == s.output + with_context(
                s,
                old,
                shown,
            ).rendered(s.removed as int, s.inserted as int)
        }),
{
    let r = s.radius;
    let t = s.after_equal(old, new, len);
    let shown = if len < r {
        len
    } else {
        r
    };
    let w = with_context(s, old, shown);
    if len > 2 * r {
        assert(t.trimmed() == t.hunk);
        assert(t.after_finish().output =~= t.output);
    } else {
        let tr = t.trimmed();
        assert(tr.data =~= w.data);
        assert(tr.equaled == w.equaled);
        assert(tr.rendered(s.removed as int, s.inserted as int) == w.rendered(
            s.removed as int,
            s.inserted as int,
        ));
    }
}

} // verus!
