//! The hunk accumulator: consumes the runs of an edit script one by one and
//! groups the changes into hunks with their surrounding context.

use vstd::prelude::*;
use vstd::string::*;

use crate::hunk::{texts, Context, ContextView, HunkHeader};

verus! {

/// A line shown unchanged.
pub open spec fn context_line(t: Seq<char>) -> Seq<char> {
    seq![' '] + t
}

/// A line of the old sequence that is removed.
pub open spec fn removed_line(t: Seq<char>) -> Seq<char> {
    seq!['-'] + t
}

/// A line of the new sequence that is added.
pub open spec fn added_line(t: Seq<char>) -> Seq<char> {
    seq!['+'] + t
}

/// The context lines for `a[lo..hi]`.
pub open spec fn context_lines(a: Seq<Seq<char>>, lo: nat, hi: nat) -> Seq<Seq<char>> {
    Seq::new((hi - lo) as nat, |k: int| context_line(a[lo + k]))
}

/// The removed lines for `a[lo..hi]`.
pub open spec fn removed_lines(a: Seq<Seq<char>>, lo: nat, hi: nat) -> Seq<Seq<char>> {
    Seq::new((hi - lo) as nat, |k: int| removed_line(a[lo + k]))
}

/// The added lines for `b[lo..hi]`.
pub open spec fn added_lines(b: Seq<Seq<char>>, lo: nat, hi: nat) -> Seq<Seq<char>> {
    Seq::new((hi - lo) as nat, |k: int| added_line(b[lo + k]))
}

/// A hunk header line.
pub open spec fn is_header(l: Seq<char>) -> bool {
    l.len() > 0 && l[0] == '@'
}

/// A removed or added line.
pub open spec fn is_change(l: Seq<char>) -> bool {
    l.len() > 0 && (l[0] == '-' || l[0] == '+')
}

/// A line of a hunk body: context, removed or added.
pub open spec fn is_body(l: Seq<char>) -> bool {
    l.len() > 0 && (l[0] == ' ' || l[0] == '-' || l[0] == '+')
}

/// The header lines of `out`, in order.
pub open spec fn header_lines(out: Seq<Seq<char>>) -> Seq<Seq<char>> {
    out.filter(|l: Seq<char>| is_header(l))
}

/// The removed and added lines of `out`, in order.
pub open spec fn change_lines(out: Seq<Seq<char>>) -> Seq<Seq<char>> {
    out.filter(|l: Seq<char>| is_change(l))
}

/// The header line of each header of `hs`.
pub open spec fn header_texts(hs: Seq<HunkHeader>) -> Seq<Seq<char>> {
    hs.map_values(|h: HunkHeader| h.line())
}

/// The old-sequence side of hunk lines: the text of its context and
/// removed lines, in order.
pub open spec fn old_side(lines: Seq<Seq<char>>) -> Seq<Seq<char>>
    decreases lines.len(),
{
    if lines.len() == 0 {
        Seq::empty()
    } else {
        let l = lines.last();
        let rest = old_side(lines.drop_last());
        if l.len() > 0 && (l[0] == ' ' || l[0] == '-') {
            rest.push(l.drop_first())
        } else {
            rest
        }
    }
}

/// The new-sequence side of hunk lines: the text of its context and added
/// lines, in order.
pub open spec fn new_side(lines: Seq<Seq<char>>) -> Seq<Seq<char>>
    decreases lines.len(),
{
    if lines.len() == 0 {
        Seq::empty()
    } else {
        let l = lines.last();
        let rest = new_side(lines.drop_last());
        if l.len() > 0 && (l[0] == ' ' || l[0] == '+') {
            rest.push(l.drop_first())
        } else {
            rest
        }
    }
}

/// Hunk `h` with body `body` turns `a[old_start-1 .. old_start-1+old_count]`
/// into `b[new_start-1 .. new_start-1+new_count]`: its context and removed
/// lines are that slice of `a`, its context and added lines that slice of `b`.
pub open spec fn hunk_applies(a: Seq<Seq<char>>, b: Seq<Seq<char>>, h: HunkHeader, body: Seq<Seq<char>>) -> bool {
    &&& 1 <= h.old_start
    &&& h.old_start - 1 + h.old_count <= a.len()
    &&& 1 <= h.new_start
    &&& h.new_start - 1 + h.new_count <= b.len()
    &&& old_side(body) == a.subrange(h.old_start - 1, h.old_start - 1 + h.old_count)
    &&& new_side(body) == b.subrange(h.new_start - 1, h.new_start - 1 + h.new_count)
}

/// The output that hunks with headers `hs` and bodies `bodies` make, in order.
pub open spec fn layout(hs: Seq<HunkHeader>, bodies: Seq<Seq<Seq<char>>>) -> Seq<Seq<char>>
    decreases hs.len(),
{
    if hs.len() == 0 || bodies.len() == 0 {
        Seq::empty()
    } else {
        layout(hs.drop_last(), bodies.drop_last()) + seq![hs.last().line()] + bodies.last()
    }
}

proof fn lemma_sides_add(x: Seq<Seq<char>>, y: Seq<Seq<char>>)
    ensures
        old_side(x + y) == old_side(x) + old_side(y),
        new_side(x + y) == new_side(x) + new_side(y),
    decreases y.len(),
{
    if y.len() == 0 {
        assert(x + y =~= x);
        assert(old_side(x) + old_side(y) =~= old_side(x));
        assert(new_side(x) + new_side(y) =~= new_side(x));
    } else {
        assert((x + y).drop_last() =~= x + y.drop_last());
        lemma_sides_add(x, y.drop_last());
        assert(old_side(x + y) =~= old_side(x) + old_side(y));
        assert(new_side(x + y) =~= new_side(x) + new_side(y));
    }
}

proof fn lemma_sides_context(a: Seq<Seq<char>>, lo: nat, hi: nat)
    requires
        lo <= hi <= a.len(),
    ensures
        old_side(context_lines(a, lo, hi)) == a.subrange(lo as int, hi as int),
        new_side(context_lines(a, lo, hi)) == a.subrange(lo as int, hi as int),
    decreases hi - lo,
{
    if lo < hi {
        let c = context_lines(a, lo, hi);
        assert(c.drop_last() =~= context_lines(a, lo, (hi - 1) as nat));
        lemma_sides_context(a, lo, (hi - 1) as nat);
        assert(c.last().drop_first() =~= a[hi - 1]);
        assert(old_side(c) =~= a.subrange(lo as int, hi as int));
        assert(new_side(c) =~= a.subrange(lo as int, hi as int));
    } else {
        assert(context_lines(a, lo, hi) =~= Seq::<Seq<char>>::empty());
    }
}

/// The texts of tagged lines, without their tag.
pub open spec fn untagged(x: Seq<Seq<char>>) -> Seq<Seq<char>> {
    x.map_values(|l: Seq<char>| l.drop_first())
}

/// Both sides of context lines are their texts.
proof fn lemma_context_sides(x: Seq<Seq<char>>)
    requires
        forall|i: int| 0 <= i < x.len() ==> (#[trigger] x[i]).len() > 0 && x[i][0] == ' ',
    ensures
        old_side(x) == untagged(x),
        new_side(x) == untagged(x),
    decreases x.len(),
{
    if x.len() > 0 {
        lemma_context_sides(x.drop_last());
        assert(x[x.len() - 1].len() > 0 && x[x.len() - 1][0] == ' ');
        assert(untagged(x.drop_last()).push(x.last().drop_first()) =~= untagged(x));
    } else {
        assert(untagged(x) =~= Seq::<Seq<char>>::empty());
    }
}

proof fn lemma_sides_removed(a: Seq<Seq<char>>, lo: nat, hi: nat)
    requires
        lo <= hi <= a.len(),
    ensures
        old_side(removed_lines(a, lo, hi)) == a.subrange(lo as int, hi as int),
        new_side(removed_lines(a, lo, hi)) == Seq::<Seq<char>>::empty(),
    decreases hi - lo,
{
    if lo < hi {
        let c = removed_lines(a, lo, hi);
        assert(c.drop_last() =~= removed_lines(a, lo, (hi - 1) as nat));
        lemma_sides_removed(a, lo, (hi - 1) as nat);
        assert(c.last().drop_first() =~= a[hi - 1]);
        assert(old_side(c) =~= a.subrange(lo as int, hi as int));
    } else {
        assert(removed_lines(a, lo, hi) =~= Seq::<Seq<char>>::empty());
    }
}

proof fn lemma_sides_added(b: Seq<Seq<char>>, lo: nat, hi: nat)
    requires
        lo <= hi <= b.len(),
    ensures
        old_side(added_lines(b, lo, hi)) == Seq::<Seq<char>>::empty(),
        new_side(added_lines(b, lo, hi)) == b.subrange(lo as int, hi as int),
    decreases hi - lo,
{
    if lo < hi {
        let c = added_lines(b, lo, hi);
        assert(c.drop_last() =~= added_lines(b, lo, (hi - 1) as nat));
        lemma_sides_added(b, lo, (hi - 1) as nat);
        assert(c.last().drop_first() =~= b[hi - 1]);
        assert(new_side(c) =~= b.subrange(lo as int, hi as int));
    } else {
        assert(added_lines(b, lo, hi) =~= Seq::<Seq<char>>::empty());
    }
}

/// How much the hunks of `hs` grow the text, in lines: added minus removed.
pub open spec fn net_growth(hs: Seq<HunkHeader>) -> int
    decreases hs.len(),
{
    if hs.len() == 0 {
        0
    } else {
        net_growth(hs.drop_last()) + hs.last().new_count - hs.last().old_count
    }
}

/// One run of an edit script, over 0-based indices of the two sequences.
#[derive(Clone, Copy, Debug, PartialEq, Eq, Structural)]
pub enum EditOp {
    /// `len` lines equal in both sequences.
    Equal { old: usize, new: usize, len: usize },
    /// `len` lines of the old sequence removed.
    Delete { old: usize, len: usize },
    /// `new_len` lines of the new sequence inserted at `old`.
    Insert { old: usize, new: usize, new_len: usize },
    /// `old_len` lines of the old sequence replaced by `new_len` lines of the new one.
    Replace { old: usize, old_len: usize, new: usize, new_len: usize },
}

/// The abstract state of a [`Processor`].
pub struct ProcessorState {
    /// The old sequence.
    pub a: Seq<Seq<char>>,
    /// The new sequence.
    pub b: Seq<Seq<char>>,
    /// The context radius.
    pub radius: nat,
    /// Where the next run must start in the old sequence.
    pub old_pos: nat,
    /// Where the next run must start in the new sequence.
    pub new_pos: nat,
    /// Lines removed by the hunks already finalized.
    pub removed: nat,
    /// Lines added by the hunks already finalized.
    pub inserted: nat,
    /// The hunk under construction.
    pub hunk: ContextView,
    /// The output lines so far.
    pub output: Seq<Seq<char>>,
    /// The headers of the hunks emitted so far, in order.
    pub headers: Seq<HunkHeader>,
    /// The removed and added lines of the runs consumed so far, in order.
    pub changes: Seq<Seq<char>>,
    /// The bodies of the hunks emitted so far, in order.
    pub bodies: Seq<Seq<Seq<char>>>,
}

impl ProcessorState {
    pub open spec fn initial(a: Seq<Seq<char>>, b: Seq<Seq<char>>, radius: nat) -> ProcessorState {
        ProcessorState {
            a,
            b,
            radius,
            old_pos: 0,
            new_pos: 0,
            removed: 0,
            inserted: 0,
            hunk: ContextView::empty(),
            output: Seq::empty(),
            headers: Seq::empty(),
            changes: Seq::empty(),
            bodies: Seq::empty(),
        }
    }

    /// Finalizes hunk `h`: its lines follow the output (if it holds a change)
    /// and its counts join the carries. The hunk under construction is kept.
    pub open spec fn flush(self, h: ContextView) -> ProcessorState {
        ProcessorState {
            output: self.output + h.rendered(self.removed as int, self.inserted as int),
            headers: if h.emits() {
                self.headers.push(h.header(self.removed as int, self.inserted as int))
            } else {
                self.headers
            },
            bodies: if h.emits() {
                self.bodies.push(h.data)
            } else {
                self.bodies
            },
            removed: self.removed + h.removed,
            inserted: self.inserted + h.inserted,
            ..self
        }
    }

    /// An equal run may come next: it starts where the last run ended and
    /// its lines are the same in both sequences.
    pub open spec fn accepts_equal(self, old: nat, new: nat, len: nat) -> bool {
        &&& old == self.old_pos
        &&& new == self.new_pos
        &&& old + len <= self.a.len()
        &&& new + len <= self.b.len()
        &&& forall|k: int| 0 <= k < len ==> #[trigger] self.a[old + k] == self.b[new + k]
    }

    /// A changed run may come next.
    pub open spec fn accepts_change(self, old: nat, old_len: nat, new: nat, new_len: nat) -> bool {
        &&& old == self.old_pos
        &&& new == self.new_pos
        &&& old + old_len <= self.a.len()
        &&& new + new_len <= self.b.len()
    }

    /// The state after the equal run `a[old..old+len] == b[new..new+len]`.
    /// Before the first change of a hunk only the last `radius` context lines
    /// are kept, and the start slides with them. After a change, a run longer
    /// than twice the radius splits: the hunk gets `radius` trailing lines and
    /// is finalized, and the next hunk starts with the last `radius` lines of
    /// the run. A shorter run is shown whole.
    pub open spec fn after_equal(self, old: nat, new: nat, len: nat) -> ProcessorState {
        let h = self.hunk;
        let r = self.radius;
        let moved = ProcessorState { old_pos: old + len, new_pos: new + len, ..self };
        if !h.changed {
            let all = h.data + context_lines(self.a, old, old + len);
            let keep = if r < all.len() {
                r
            } else {
                all.len()
            };
            let base = match h.start {
                Some(s) => s,
                None => old + 1,
            };
            ProcessorState {
                hunk: ContextView {
                    start: Some(base + (all.len() - keep) as nat),
                    data: all.subrange(all.len() - keep, all.len() as int),
                    equaled: keep,
                    counter: len,
                    ..h
                },
                ..moved
            }
        } else if len > 2 * r {
            let closed = ContextView {
                data: h.data + context_lines(self.a, old, old + r),
                equaled: h.equaled + r,
                counter: r,
                ..h
            };
            ProcessorState {
                hunk: ContextView {
                    start: Some((old + len - r + 1) as nat),
                    data: context_lines(self.a, (old + len - r) as nat, old + len),
                    changed: false,
                    counter: len,
                    equaled: r,
                    removed: 0,
                    inserted: 0,
                },
                ..moved.flush(closed)
            }
        } else {
            ProcessorState {
                hunk: ContextView {
                    data: h.data + context_lines(self.a, old, old + len),
                    equaled: h.equaled + len,
                    counter: len,
                    ..h
                },
                ..moved
            }
        }
    }

    /// The state after `a[old..old+old_len]` is replaced by
    /// `b[new..new+new_len]`: removed lines, then added lines. An empty run
    /// changes nothing.
    pub open spec fn after_change(self, old: nat, old_len: nat, new: nat, new_len: nat) -> ProcessorState {
        let h = self.hunk;
        if old_len + new_len == 0 {
            self
        } else {
            ProcessorState {
                old_pos: old + old_len,
                new_pos: new + new_len,
                hunk: ContextView {
                    start: Some(
                        match h.start {
                            Some(s) => s,
                            None => old + 1,
                        },
                    ),
                    data: h.data + removed_lines(self.a, old, old + old_len) + added_lines(
                        self.b,
                        new,
                        new + new_len,
                    ),
                    changed: true,
                    counter: 0,
                    equaled: h.equaled,
                    removed: h.removed + old_len,
                    inserted: h.inserted + new_len,
                },
                changes: self.changes + removed_lines(self.a, old, old + old_len) + added_lines(
                    self.b,
                    new,
                    new + new_len,
                ),
                ..self
            }
        }
    }

    /// Run `op` may come next.
    pub open spec fn accepts(self, op: EditOp) -> bool {
        match op {
            EditOp::Equal { old, new, len } => self.accepts_equal(old as nat, new as nat, len as nat),
            EditOp::Delete { old, len } => self.accepts_change(old as nat, len as nat, self.new_pos, 0),
            EditOp::Insert { old, new, new_len } => self.accepts_change(
                old as nat,
                0,
                new as nat,
                new_len as nat,
            ),
            EditOp::Replace { old, old_len, new, new_len } => self.accepts_change(
                old as nat,
                old_len as nat,
                new as nat,
                new_len as nat,
            ),
        }
    }

    /// The state after run `op`.
    pub open spec fn apply(self, op: EditOp) -> ProcessorState {
        match op {
            EditOp::Equal { old, new, len } => self.after_equal(old as nat, new as nat, len as nat),
            EditOp::Delete { old, len } => self.after_change(old as nat, len as nat, self.new_pos, 0),
            EditOp::Insert { old, new, new_len } => self.after_change(
                old as nat,
                0,
                new as nat,
                new_len as nat,
            ),
            EditOp::Replace { old, old_len, new, new_len } => self.after_change(
                old as nat,
                old_len as nat,
                new as nat,
                new_len as nat,
            ),
        }
    }

    /// The state after the runs `ops`, in order.
    pub open spec fn run(self, ops: Seq<EditOp>) -> ProcessorState
        decreases ops.len(),
    {
        if ops.len() == 0 {
            self
        } else {
            self.apply(ops[0]).run(ops.drop_first())
        }
    }

    /// The hunk under construction with its trailing context cut to the radius.
    pub open spec fn trimmed(self) -> ContextView {
        let h = self.hunk;
        if h.changed && h.counter > self.radius {
            let t = (h.counter - self.radius) as nat;
            ContextView {
                data: h.data.subrange(0, h.data.len() - t),
                equaled: (h.equaled - t) as nat,
                counter: self.radius,
                ..h
            }
        } else {
            h
        }
    }

    /// The state at the end of the script: the last hunk, its trailing
    /// context cut to the radius, is finalized.
    pub open spec fn after_finish(self) -> ProcessorState {
        ProcessorState { hunk: ContextView::empty(), ..self.flush(self.trimmed()) }
    }

    /// Every emitted header starts as far from its old start in the new
    /// sequence as the hunks before it grew the text, and the carries
    /// add up the emitted hunks.
    pub open spec fn headers_consistent(self) -> bool {
        &&& forall|k: int|
            0 <= k < self.headers.len() ==> #[trigger] self.headers[k].new_start
                - self.headers[k].old_start == net_growth(self.headers.take(k))
        &&& self.inserted - self.removed == net_growth(self.headers)
    }

    pub open spec fn wf(self) -> bool {
        let h = self.hunk;
        &&& self.a.len() + self.b.len() < usize::MAX
        &&& self.radius <= usize::MAX
        &&& self.old_pos <= self.a.len()
        &&& self.new_pos <= self.b.len()
        &&& self.removed + h.removed <= self.old_pos
        &&& self.inserted + h.inserted <= self.new_pos
        &&& self.new_pos + self.removed + h.removed == self.old_pos + self.inserted + h.inserted
        &&& h.equaled + h.removed <= self.old_pos
        &&& h.data.len() == h.equaled + h.removed + h.inserted
        &&& h.counter <= self.a.len()
        &&& (!h.changed ==> h.removed == 0 && h.inserted == 0)
        &&& (h.changed ==> h.counter <= h.equaled && h.start is Some)
        &&& (h.start is None ==> h.data.len() == 0 && !h.changed)
        &&& (h.start matches Some(s) ==> s + self.inserted >= self.removed + 1 && s <= self.old_pos
            + 1)
        &&& (h.start matches Some(s) ==> !h.changed ==> s + h.data.len() == self.old_pos + 1)
        &&& self.headers_consistent()
        &&& forall|i: int| 0 <= i < h.data.len() ==> is_body(#[trigger] h.data[i])
        &&& forall|i: int|
            0 <= i < h.data.len() && (!h.changed || h.data.len() - h.counter <= i) ==> #[trigger] h.data[i][0] == ' '
        &&& header_lines(self.output) == header_texts(self.headers)
        &&& change_lines(self.output) + change_lines(h.data) == self.changes
        &&& self.headers.len() == self.bodies.len()
        &&& self.output == layout(self.headers, self.bodies)
        &&& forall|k: int|
            0 <= k < self.headers.len() ==> hunk_applies(self.a, self.b, #[trigger] self.headers[k], self.bodies[k])
        &&& (h.start matches Some(s) ==> {
            &&& s >= 1
            &&& s - 1 + h.equaled + h.removed == self.old_pos
            &&& old_side(h.data) == self.a.subrange(s - 1, self.old_pos as int)
            &&& new_side(h.data) == self.b.subrange(s - 1 + self.inserted - self.removed, self.new_pos as int)
        })
    }
}

/// Renders one context line.
fn context_string(t: &String) -> (r: String)
    ensures
        r@ == context_line(t@),
{
    let mut r = String::from_str(" ");
    r.append(t.as_str());
    proof {
        reveal_strlit(" ");
    }
    r
}

/// Renders one removed line.
fn removed_string(t: &String) -> (r: String)
    ensures
        r@ == removed_line(t@),
{
    let mut r = String::from_str("-");
    r.append(t.as_str());
    proof {
        reveal_strlit("-");
    }
    r
}

/// Renders one added line.
fn added_string(t: &String) -> (r: String)
    ensures
        r@ == added_line(t@),
{
    let mut r = String::from_str("+");
    r.append(t.as_str());
    proof {
        reveal_strlit("+");
    }
    r
}

/// Appends the context lines for `text[lo..hi]`.
fn push_context_lines(data: &mut Vec<String>, text: &[String], lo: usize, hi: usize)
    requires
        lo <= hi <= text@.len(),
    ensures
        texts(final(data)@) == texts(old(data)@) + context_lines(texts(text@), lo as nat, hi as nat),
{
    let mut i: usize = lo;
    while i < hi
        invariant
            lo <= i <= hi <= text@.len(),
            texts(data@) == texts(old(data)@) + context_lines(texts(text@), lo as nat, i as nat),
        decreases hi - i,
    {
        let ghost prev = texts(data@);
        data.push(context_string(&text[i]));
        assert(texts(data@) =~= prev.push(context_line(text@[i as int]@)));
        assert(context_lines(texts(text@), lo as nat, (i + 1) as nat) =~= context_lines(
            texts(text@),
            lo as nat,
            i as nat,
        ).push(context_line(text@[i as int]@)));
        assert(texts(data@) =~= texts(old(data)@) + context_lines(texts(text@), lo as nat, (i + 1) as nat));
        i += 1;
    }
}

/// Appends the removed lines for `text[lo..hi]`.
fn push_removed_lines(data: &mut Vec<String>, text: &[String], lo: usize, hi: usize)
    requires
        lo <= hi <= text@.len(),
    ensures
        texts(final(data)@) == texts(old(data)@) + removed_lines(texts(text@), lo as nat, hi as nat),
{
    let mut i: usize = lo;
    while i < hi
        invariant
            lo <= i <= hi <= text@.len(),
            texts(data@) == texts(old(data)@) + removed_lines(texts(text@), lo as nat, i as nat),
        decreases hi - i,
    {
        let ghost prev = texts(data@);
        data.push(removed_string(&text[i]));
        assert(texts(data@) =~= prev.push(removed_line(text@[i as int]@)));
        assert(removed_lines(texts(text@), lo as nat, (i + 1) as nat) =~= removed_lines(
            texts(text@),
            lo as nat,
            i as nat,
        ).push(removed_line(text@[i as int]@)));
        assert(texts(data@) =~= texts(old(data)@) + removed_lines(texts(text@), lo as nat, (i + 1) as nat));
        i += 1;
    }
}

/// Appends the added lines for `text[lo..hi]`.
fn push_added_lines(data: &mut Vec<String>, text: &[String], lo: usize, hi: usize)
    requires
        lo <= hi <= text@.len(),
    ensures
        texts(final(data)@) == texts(old(data)@) + added_lines(texts(text@), lo as nat, hi as nat),
{
    let mut i: usize = lo;
    while i < hi
        invariant
            lo <= i <= hi <= text@.len(),
            texts(data@) == texts(old(data)@) + added_lines(texts(text@), lo as nat, i as nat),
        decreases hi - i,
    {
        let ghost prev = texts(data@);
        data.push(added_string(&text[i]));
        assert(texts(data@) =~= prev.push(added_line(text@[i as int]@)));
        assert(added_lines(texts(text@), lo as nat, (i + 1) as nat) =~= added_lines(
            texts(text@),
            lo as nat,
            i as nat,
        ).push(added_line(text@[i as int]@)));
        assert(texts(data@) =~= texts(old(data)@) + added_lines(texts(text@), lo as nat, (i + 1) as nat));
        i += 1;
    }
}

/// Finalizing a hunk keeps the headers consistent with the carries.
proof fn lemma_flush_consistent(s: ProcessorState, h: ContextView)
    requires
        s.headers_consistent(),
        !h.emits() ==> h.removed == 0 && h.inserted == 0,
    ensures
        s.flush(h).headers_consistent(),
{
    let t = s.flush(h);
    if h.emits() {
        let x = h.header(s.removed as int, s.inserted as int);
        assert(t.headers.drop_last() =~= s.headers);
        assert(t.headers.take(s.headers.len() as int) =~= s.headers);
        assert(net_growth(t.headers) == net_growth(s.headers) + x.new_count - x.old_count);
        assert(t.inserted - t.removed == net_growth(t.headers));
        assert forall|k: int| 0 <= k < t.headers.len() implies #[trigger] t.headers[k].new_start
            - t.headers[k].old_start == net_growth(t.headers.take(k)) by {
            if k < s.headers.len() {
                assert(t.headers.take(k) =~= s.headers.take(k));
            }
        }
    }
}

/// The initial state is well formed when the two sequences together fit
/// below `usize::MAX`.
pub proof fn lemma_initial_wf(a: Seq<Seq<char>>, b: Seq<Seq<char>>, radius: nat)
    requires
        a.len() + b.len() < usize::MAX,
        radius <= usize::MAX,
    ensures
        ProcessorState::initial(a, b, radius).wf(),
{
    let s = ProcessorState::initial(a, b, radius);
    lemma_context_filters(s.output);
    assert(header_texts(s.headers) =~= Seq::<Seq<char>>::empty());
    assert(change_lines(s.output) + change_lines(s.hunk.data) =~= s.changes);
}

/// Filtering keeps nothing of a sequence whose lines all fail the test.
pub proof fn lemma_filter_none(s: Seq<Seq<char>>, pred: spec_fn(Seq<char>) -> bool)
    requires
        forall|i: int| 0 <= i < s.len() ==> !pred(#[trigger] s[i]),
    ensures
        s.filter(pred) == Seq::<Seq<char>>::empty(),
    decreases s.len(),
{
    reveal(Seq::filter);
    if s.len() > 0 {
        lemma_filter_none(s.drop_last(), pred);
        assert(!pred(s[s.len() - 1]));
    }
}

/// Filtering keeps the whole of a sequence whose lines all pass the test.
proof fn lemma_filter_all(s: Seq<Seq<char>>, pred: spec_fn(Seq<char>) -> bool)
    requires
        forall|i: int| 0 <= i < s.len() ==> pred(#[trigger] s[i]),
    ensures
        s.filter(pred) == s,
    decreases s.len(),
{
    reveal(Seq::filter);
    if s.len() > 0 {
        lemma_filter_all(s.drop_last(), pred);
        assert(pred(s[s.len() - 1]));
        assert(s.drop_last().push(s.last()) =~= s);
    }
}

/// Context lines are neither headers nor changes.
pub proof fn lemma_context_filters(s: Seq<Seq<char>>)
    requires
        forall|i: int| 0 <= i < s.len() ==> (#[trigger] s[i]).len() > 0 && s[i][0] == ' ',
    ensures
        header_lines(s) == Seq::<Seq<char>>::empty(),
        change_lines(s) == Seq::<Seq<char>>::empty(),
{
    lemma_filter_none(s, |l: Seq<char>| is_header(l));
    lemma_filter_none(s, |l: Seq<char>| is_change(l));
}

/// Body lines are not headers.
proof fn lemma_body_has_no_header(s: Seq<Seq<char>>)
    requires
        forall|i: int| 0 <= i < s.len() ==> is_body(#[trigger] s[i]),
    ensures
        header_lines(s) == Seq::<Seq<char>>::empty(),
{
    lemma_filter_none(s, |l: Seq<char>| is_header(l));
}

/// Removed and added lines are all changes.
proof fn lemma_changes_filter(s: Seq<Seq<char>>)
    requires
        forall|i: int| 0 <= i < s.len() ==> is_change(#[trigger] s[i]),
    ensures
        change_lines(s) == s,
        header_lines(s) == Seq::<Seq<char>>::empty(),
{
    lemma_filter_all(s, |l: Seq<char>| is_change(l));
    lemma_filter_none(s, |l: Seq<char>| is_header(l));
}

/// A header line is a header and no change.
proof fn lemma_header_line_filters(h: HunkHeader)
    ensures
        header_lines(seq![h.line()]) == seq![h.line()],
        change_lines(seq![h.line()]) == Seq::<Seq<char>>::empty(),
{
    let l = h.line();
    assert(l[0] == '@');
    lemma_filter_all(seq![l], |l: Seq<char>| is_header(l));
    lemma_filter_none(seq![l], |l: Seq<char>| is_change(l));
}

/// Finalizing a hunk adds its header to the header lines and moves its
/// changes from the hunk to the output.
proof fn lemma_flush_filters(s: ProcessorState, h: ContextView)
    requires
        forall|i: int| 0 <= i < h.data.len() ==> is_body(#[trigger] h.data[i]),
        !h.emits() ==> forall|i: int| 0 <= i < h.data.len() ==> #[trigger] h.data[i][0] == ' ',
    ensures
        header_lines(s.flush(h).output) == header_lines(s.output) + (if h.emits() {
            seq![h.header(s.removed as int, s.inserted as int).line()]
        } else {
            Seq::<Seq<char>>::empty()
        }),
        change_lines(s.flush(h).output) == change_lines(s.output) + change_lines(h.data),
{
    let out = s.flush(h).output;
    if h.emits() {
        let hl = seq![h.header(s.removed as int, s.inserted as int).line()];
        assert(out == s.output + hl + h.data);
        Seq::filter_distributes_over_add(s.output + hl, h.data, |l: Seq<char>| is_header(l));
        Seq::filter_distributes_over_add(s.output, hl, |l: Seq<char>| is_header(l));
        Seq::filter_distributes_over_add(s.output + hl, h.data, |l: Seq<char>| is_change(l));
        Seq::filter_distributes_over_add(s.output, hl, |l: Seq<char>| is_change(l));
        lemma_header_line_filters(h.header(s.removed as int, s.inserted as int));
        lemma_body_has_no_header(h.data);
        assert(header_lines(out) =~= header_lines(s.output) + hl);
        assert(change_lines(out) =~= change_lines(s.output) + change_lines(h.data));
    } else {
        assert(out =~= s.output);
        lemma_context_filters(h.data);
        assert(change_lines(out) =~= change_lines(s.output) + change_lines(h.data));
    }
}

/// Within an accepted equal run, matching slices of the two sequences are equal.
proof fn lemma_equal_slices(s: ProcessorState, old: nat, new: nat, len: nat, p: nat, q: nat)
    requires
        s.accepts_equal(old, new, len),
        p <= q <= len,
    ensures
        s.a.subrange((old + p) as int, (old + q) as int) == s.b.subrange((new + p) as int, (new + q) as int),
{
    assert forall|k: int| 0 <= k < q - p implies #[trigger] s.a.subrange((old + p) as int, (old + q) as int)[k]
        == s.b.subrange((new + p) as int, (new + q) as int)[k] by {
        assert(s.a[old + (p + k)] == s.b[new + (p + k)]);
    }
    assert(s.a.subrange((old + p) as int, (old + q) as int) =~= s.b.subrange((new + p) as int, (new + q) as int));
}

/// An equal run before the first change keeps the state well formed.
#[verifier::rlimit(50)]
proof fn lemma_window_wf(s: ProcessorState, old: nat, new: nat, len: nat)
    requires
        s.wf(),
        s.accepts_equal(old, new, len),
        !s.hunk.changed,
    ensures
        s.after_equal(old, new, len).wf(),
{
    let h = s.hunk;
    let r = s.radius;
    let t = s.after_equal(old, new, len);
    let ctx = context_lines(s.a, old, old + len);
    let all = h.data + ctx;
    assert forall|i: int| 0 <= i < all.len() implies (#[trigger] all[i]).len() > 0 && all[i][0] == ' ' by {
        if i >= h.data.len() {
            assert(all[i] == ctx[i - h.data.len()]);
        }
    }
    let keep = if r < all.len() { r } else { all.len() };
    let e = all.len() - keep;
    let d = t.hunk.data;
    assert forall|i: int| 0 <= i < d.len() implies (#[trigger] d[i]).len() > 0 && d[i][0] == ' ' by {
        assert(d[i] == all[e + i]);
    }
    lemma_context_filters(h.data);
    lemma_context_filters(d);
    let base = match h.start {
        Some(st) => st,
        None => old + 1,
    };
    let c = s.inserted - s.removed;
    lemma_sides_context(s.a, old, old + len);
    lemma_sides_add(h.data, ctx);
    lemma_equal_slices(s, old, new, len, 0, len);
    assert(s.a.subrange(old as int, (old + len) as int) == s.b.subrange(new as int, (new + len) as int));
    if h.start is None {
        assert(h.data =~= Seq::<Seq<char>>::empty());
        assert(all =~= ctx);
    }
    assert(old_side(all) =~= s.a.subrange(base - 1, (old + len) as int));
    assert(new_side(all) =~= s.b.subrange(base - 1 + c, (new + len) as int));
    lemma_context_sides(all);
    lemma_context_sides(d);
    assert(untagged(d) =~= untagged(all).subrange(e, all.len() as int));
    assert(old_side(d) =~= s.a.subrange(base + e - 1, (old + len) as int));
    assert(new_side(d) =~= s.b.subrange(base + e - 1 + c, (new + len) as int));
}

/// An equal run longer than twice the radius after a change keeps the
/// state well formed.
#[verifier::rlimit(50)]
proof fn lemma_split_wf(s: ProcessorState, old: nat, new: nat, len: nat)
    requires
        s.wf(),
        s.accepts_equal(old, new, len),
        s.hunk.changed,
        len > 2 * s.radius,
    ensures
        s.after_equal(old, new, len).wf(),
{
    let h = s.hunk;
    let r = s.radius;
    let t = s.after_equal(old, new, len);
    let moved = ProcessorState { old_pos: old + len, new_pos: new + len, ..s };
    let rctx = context_lines(s.a, old, old + r);
    let closed = ContextView { data: h.data + rctx, equaled: h.equaled + r, counter: r, ..h };
    lemma_flush_consistent(moved, closed);
    assert forall|i: int| 0 <= i < rctx.len() implies (#[trigger] rctx[i]).len() > 0 && rctx[i][0] == ' ' by {}
    assert forall|i: int| 0 <= i < closed.data.len() implies is_body(#[trigger] closed.data[i]) by {
        if i >= h.data.len() {
            assert(closed.data[i] == rctx[i - h.data.len()]);
        }
    }
    lemma_flush_filters(moved, closed);
    lemma_context_filters(rctx);
    Seq::filter_distributes_over_add(h.data, rctx, |l: Seq<char>| is_change(l));
    assert(change_lines(closed.data) =~= change_lines(h.data));
    let d = t.hunk.data;
    assert forall|i: int| 0 <= i < d.len() implies (#[trigger] d[i]).len() > 0 && d[i][0] == ' ' by {}
    lemma_context_filters(d);
    let x = closed.header(moved.removed as int, moved.inserted as int);
    assert(header_texts(moved.headers.push(x)) =~= header_texts(moved.headers) + seq![x.line()]);
    assert(change_lines(t.output) + change_lines(d) =~= change_lines(t.output));
    // the closed hunk turns its slice of `a` into its slice of `b`
    let st = h.start->0;
    let c = s.inserted - s.removed;
    lemma_sides_context(s.a, old, old + r);
    lemma_sides_add(h.data, rctx);
    lemma_equal_slices(s, old, new, len, 0, len);
    assert(s.a.subrange(old as int, (old + len) as int) == s.b.subrange(new as int, (new + len) as int));
    lemma_equal_slices(s, old, new, len, 0, r);
    assert(s.a.subrange(old as int, (old + r) as int) == s.b.subrange(new as int, (new + r) as int));
    assert(old_side(closed.data) =~= s.a.subrange(st - 1, (old + r) as int));
    assert(new_side(closed.data) =~= s.b.subrange(st - 1 + c, (new + r) as int));
    assert(hunk_applies(s.a, s.b, x, closed.data));
    assert(t.headers =~= s.headers.push(x));
    assert(t.bodies =~= s.bodies.push(closed.data));
    assert(t.headers.drop_last() =~= s.headers);
    assert(t.bodies.drop_last() =~= s.bodies);
    assert(t.output =~= layout(t.headers, t.bodies));
    assert forall|k: int| 0 <= k < t.headers.len() implies hunk_applies(
        t.a,
        t.b,
        #[trigger] t.headers[k],
        t.bodies[k],
    ) by {
        if k < s.headers.len() {
            assert(t.headers[k] == s.headers[k]);
            assert(t.bodies[k] == s.bodies[k]);
        }
    }
    // the next hunk starts with the end of the run
    let lo = (old + len - r) as nat;
    lemma_sides_context(s.a, lo, old + len);
    lemma_equal_slices(s, old, new, len, (len - r) as nat, len);
    assert(s.a.subrange(lo as int, (old + len) as int) == s.b.subrange((new + len - r) as int, (new + len) as int));
}

/// An equal run of at most twice the radius after a change keeps the state
/// well formed.
#[verifier::rlimit(50)]
proof fn lemma_extend_wf(s: ProcessorState, old: nat, new: nat, len: nat)
    requires
        s.wf(),
        s.accepts_equal(old, new, len),
        s.hunk.changed,
        len <= 2 * s.radius,
    ensures
        s.after_equal(old, new, len).wf(),
{
    let h = s.hunk;
    let t = s.after_equal(old, new, len);
    let ctx = context_lines(s.a, old, old + len);
    assert forall|i: int| 0 <= i < ctx.len() implies (#[trigger] ctx[i]).len() > 0 && ctx[i][0] == ' ' by {}
    lemma_context_filters(ctx);
    Seq::filter_distributes_over_add(h.data, ctx, |l: Seq<char>| is_change(l));
    let d = t.hunk.data;
    assert forall|i: int| 0 <= i < d.len() implies is_body(#[trigger] d[i]) by {
        if i >= h.data.len() {
            assert(d[i] == ctx[i - h.data.len()]);
        }
    }
    assert forall|i: int| 0 <= i < d.len() && d.len() - len <= i implies #[trigger] d[i][0] == ' ' by {
        assert(d[i] == ctx[i - h.data.len()]);
    }
    assert(change_lines(d) =~= change_lines(h.data));
    let st = h.start->0;
    let c = s.inserted - s.removed;
    lemma_sides_context(s.a, old, old + len);
    lemma_sides_add(h.data, ctx);
    lemma_equal_slices(s, old, new, len, 0, len);
    assert(s.a.subrange(old as int, (old + len) as int) == s.b.subrange(new as int, (new + len) as int));
    assert(old_side(d) =~= s.a.subrange(st - 1, (old + len) as int));
    assert(new_side(d) =~= s.b.subrange(st - 1 + c, (new + len) as int));
}

/// Each equal run that the state accepts keeps it well formed.
proof fn lemma_after_equal_wf(s: ProcessorState, old: nat, new: nat, len: nat)
    requires
        s.wf(),
        s.accepts_equal(old, new, len),
    ensures
        s.after_equal(old, new, len).wf(),
{
    if !s.hunk.changed {
        lemma_window_wf(s, old, new, len);
    } else if len > 2 * s.radius {
        lemma_split_wf(s, old, new, len);
    } else {
        lemma_extend_wf(s, old, new, len);
    }
}

/// Each changed run that the state accepts keeps it well formed.
proof fn lemma_after_change_wf(s: ProcessorState, old: nat, old_len: nat, new: nat, new_len: nat)
    requires
        s.wf(),
        s.accepts_change(old, old_len, new, new_len),
    ensures
        s.after_change(old, old_len, new, new_len).wf(),
{
    if old_len + new_len > 0 {
        let h = s.hunk;
        let t = s.after_change(old, old_len, new, new_len);
        let rem = removed_lines(s.a, old, old + old_len);
        let add = added_lines(s.b, new, new + new_len);
        assert forall|i: int| 0 <= i < rem.len() implies is_change(#[trigger] rem[i]) by {}
        assert forall|i: int| 0 <= i < add.len() implies is_change(#[trigger] add[i]) by {}
        lemma_changes_filter(rem);
        lemma_changes_filter(add);
        Seq::filter_distributes_over_add(h.data + rem, add, |l: Seq<char>| is_change(l));
        Seq::filter_distributes_over_add(h.data, rem, |l: Seq<char>| is_change(l));
        let d = t.hunk.data;
        assert forall|i: int| 0 <= i < d.len() implies is_body(#[trigger] d[i]) by {
            if h.data.len() <= i < h.data.len() + rem.len() {
                assert(d[i] == rem[i - h.data.len()]);
            } else if i >= h.data.len() + rem.len() {
                assert(d[i] == add[i - h.data.len() - rem.len()]);
            }
        }
        assert(change_lines(s.output) + change_lines(d) =~= t.changes);
        let st = t.hunk.start->0;
        let c = s.inserted - s.removed;
        lemma_sides_removed(s.a, old, old + old_len);
        lemma_sides_added(s.b, new, new + new_len);
        lemma_sides_add(h.data, rem);
        lemma_sides_add(h.data + rem, add);
        if h.start is None {
            assert(h.data =~= Seq::<Seq<char>>::empty());
        }
        assert(old_side(d) =~= s.a.subrange(st - 1, (old + old_len) as int));
        assert(new_side(d) =~= s.b.subrange(st - 1 + c, (new + new_len) as int));
    }
}

/// Cutting the trailing context keeps the hunk's lines, changes and slices.
#[verifier::rlimit(50)]
proof fn lemma_trimmed(s: ProcessorState)
    requires
        s.wf(),
    ensures
        forall|i: int| 0 <= i < s.trimmed().data.len() ==> is_body(#[trigger] s.trimmed().data[i]),
        !s.trimmed().emits() ==> forall|i: int|
            0 <= i < s.trimmed().data.len() ==> #[trigger] s.trimmed().data[i][0] == ' ',
        change_lines(s.trimmed().data) == change_lines(s.hunk.data),
        s.trimmed().emits() ==> hunk_applies(
            s.a,
            s.b,
            s.trimmed().header(s.removed as int, s.inserted as int),
            s.trimmed().data,
        ),
        s.trimmed().emits() == s.hunk.changed,
        !s.trimmed().emits() ==> s.trimmed().removed == 0 && s.trimmed().inserted == 0,
{
    let h = s.hunk;
    let tr = s.trimmed();
    let st = h.start->0;
    let c = s.inserted - s.removed;
    if h.changed && h.counter > s.radius {
        let n = h.data.len() - (h.counter - s.radius);
        let tail = h.data.subrange(n, h.data.len() as int);
        assert(h.data =~= tr.data + tail);
        assert forall|i: int| 0 <= i < tail.len() implies (#[trigger] tail[i]).len() > 0 && tail[i][0] == ' ' by {
            assert(tail[i] == h.data[n + i]);
        }
        lemma_context_filters(tail);
        Seq::filter_distributes_over_add(tr.data, tail, |l: Seq<char>| is_change(l));
        assert(change_lines(tr.data) =~= change_lines(h.data));
        lemma_context_sides(tail);
        lemma_sides_add(tr.data, tail);
        let cut = h.counter - s.radius;
        assert(untagged(tail).len() == cut);
        let os = old_side(tr.data);
        let ns = new_side(tr.data);
        assert(old_side(h.data) == os + untagged(tail));
        assert(new_side(h.data) == ns + untagged(tail));
        assert(os =~= old_side(h.data).subrange(0, os.len() as int));
        assert(ns =~= new_side(h.data).subrange(0, ns.len() as int));
        assert(h.start == Some(st));
        assert(st - 1 + h.equaled + h.removed == s.old_pos);
        assert(old_side(h.data).len() == s.old_pos - (st - 1));
        assert(os.len() == s.old_pos - cut - (st - 1));
        assert(os =~= s.a.subrange(st - 1, s.old_pos - cut));
        assert(s.new_pos + s.removed + h.removed == s.old_pos + s.inserted + h.inserted);
        assert(st - 1 + c + h.equaled + h.inserted == s.new_pos);
        assert(new_side(h.data).len() == s.new_pos - (st - 1 + c));
        assert(ns.len() == s.new_pos - cut - (st - 1 + c));
        assert(ns =~= s.b.subrange(st - 1 + c, s.new_pos - cut));
    }
    assert forall|i: int| 0 <= i < tr.data.len() implies is_body(#[trigger] tr.data[i]) by {
        assert(tr.data[i] == h.data[i]);
    }
}

/// The end of the script leaves the state well formed.
#[verifier::rlimit(50)]
pub proof fn lemma_after_finish_wf(s: ProcessorState)
    requires
        s.wf(),
    ensures
        s.after_finish().wf(),
{
    let tr = s.trimmed();
    lemma_trimmed(s);
    lemma_flush_consistent(s, tr);
    lemma_flush_filters(s, tr);
    let t = s.after_finish();
    lemma_context_filters(t.hunk.data);
    if tr.emits() {
        let x = tr.header(s.removed as int, s.inserted as int);
        assert(header_texts(s.headers.push(x)) =~= header_texts(s.headers) + seq![x.line()]);
        assert(t.headers.drop_last() =~= s.headers);
        assert(t.bodies.drop_last() =~= s.bodies);
        assert(t.output =~= layout(t.headers, t.bodies));
        assert forall|k: int| 0 <= k < t.headers.len() implies hunk_applies(
            t.a,
            t.b,
            #[trigger] t.headers[k],
            t.bodies[k],
        ) by {
            if k < s.headers.len() {
                assert(t.headers[k] == s.headers[k]);
                assert(t.bodies[k] == s.bodies[k]);
            }
        }
    } else {
        assert(t.output =~= s.output);
    }
    assert(change_lines(t.output) + change_lines(t.hunk.data) =~= change_lines(t.output));
}

/// Each run that the state accepts keeps it well formed.
pub proof fn lemma_apply_wf(s: ProcessorState, op: EditOp)
    requires
        s.wf(),
        s.accepts(op),
    ensures
        s.apply(op).wf(),
{
    match op {
        EditOp::Equal { old, new, len } => lemma_after_equal_wf(s, old as nat, new as nat, len as nat),
        EditOp::Delete { old, len } => lemma_after_change_wf(s, old as nat, len as nat, s.new_pos, 0),
        EditOp::Insert { old, new, new_len } => lemma_after_change_wf(
            s,
            old as nat,
            0,
            new as nat,
            new_len as nat,
        ),
        EditOp::Replace { old, old_len, new, new_len } => lemma_after_change_wf(
            s,
            old as nat,
            old_len as nat,
            new as nat,
            new_len as nat,
        ),
    }
}

/// Accumulates the hunks of a unified diff of `text1` against `text2`.
pub struct Processor<'a> {
    text1: &'a [String],
    text2: &'a [String],
    context_radius: usize,
    inserted: usize,
    removed: usize,
    context: Context,
    result: Vec<String>,
    old_pos: Ghost<nat>,
    new_pos: Ghost<nat>,
    headers: Ghost<Seq<HunkHeader>>,
    changes: Ghost<Seq<Seq<char>>>,
    bodies: Ghost<Seq<Seq<Seq<char>>>>,
}

impl<'a> View for Processor<'a> {
    type V = ProcessorState;

    closed spec fn view(&self) -> ProcessorState {
        ProcessorState {
            a: texts(self.text1@),
            b: texts(self.text2@),
            radius: self.context_radius as nat,
            old_pos: self.old_pos@,
            new_pos: self.new_pos@,
            removed: self.removed as nat,
            inserted: self.inserted as nat,
            hunk: self.context@,
            output: texts(self.result@),
            headers: self.headers@,
            changes: self.changes@,
            bodies: self.bodies@,
        }
    }
}

impl<'a> Processor<'a> {
    /// A processor with no run consumed yet.
    pub fn new(text1: &'a [String], text2: &'a [String], context_radius: usize) -> (r: Self)
        requires
            text1@.len() + text2@.len() < usize::MAX,
        ensures
            r@ == ProcessorState::initial(texts(text1@), texts(text2@), context_radius as nat),
            r@.wf(),
    {
        let r = Processor {
            text1,
            text2,
            context_radius,
            inserted: 0,
            removed: 0,
            context: Context::new(),
            result: Vec::new(),
            old_pos: Ghost(0),
            new_pos: Ghost(0),
            headers: Ghost(Seq::empty()),
            changes: Ghost(Seq::empty()),
            bodies: Ghost(Seq::empty()),
        };
        assert(r@.output =~= Seq::<Seq<char>>::empty());
        assert(r@.headers.len() == 0);
        proof {
            lemma_context_filters(r@.output);
            assert(header_texts(r@.headers) =~= Seq::<Seq<char>>::empty());
            assert(change_lines(r@.output) + change_lines(r@.hunk.data) =~= r@.changes);
        }
        r
    }

    /// Finalizes the hunk under construction into the output.
    fn flush(&mut self)
        requires
            old(self)@.hunk.header_fits(old(self)@.removed as int, old(self)@.inserted as int),
            old(self)@.removed + old(self)@.hunk.removed <= usize::MAX,
            old(self)@.inserted + old(self)@.hunk.inserted <= usize::MAX,
        ensures
            final(self)@ == old(self)@.flush(old(self)@.hunk),
            final(self).context == old(self).context,
    {
        let mut lines = self.context.to_vec(self.removed, self.inserted);
        let ghost hs = if self.context@.emits() {
            self.headers@.push(self.context@.header(self.removed as int, self.inserted as int))
        } else {
            self.headers@
        };
        self.headers = Ghost(hs);
        let ghost bs = if self.context@.emits() {
            self.bodies@.push(self.context@.data)
        } else {
            self.bodies@
        };
        self.bodies = Ghost(bs);
        let ghost before = self.result@;
        let ghost added = lines@;
        self.result.append(&mut lines);
        assert(texts(self.result@) =~= texts(before) + texts(added));
        self.removed = self.removed + self.context.removed;
        self.inserted = self.inserted + self.context.inserted;
    }

    /// Consumes the equal run `text1[old_index..old_index+len] == text2[new_index..new_index+len]`.
    pub fn equal(&mut self, old_index: usize, new_index: usize, len: usize)
        requires
            old(self)@.wf(),
            old(self)@.accepts_equal(old_index as nat, new_index as nat, len as nat),
        ensures
            final(self)@.wf(),
            final(self)@ == old(self)@.after_equal(old_index as nat, new_index as nat, len as nat),
    {
        proof {
            lemma_after_equal_wf(self@, old_index as nat, new_index as nat, len as nat);
        }
        let r = self.context_radius;
        if !self.context.changed {
            self.slide_window(old_index, new_index, len);
        } else if len > r && len - r > r {
            self.split(old_index, new_index, len);
        } else {
            push_context_lines(&mut self.context.data, self.text1, old_index, old_index + len);
            self.context.equaled = self.context.equaled + len;
            self.context.counter = len;
            self.old_pos = Ghost((old_index + len) as nat);
            self.new_pos = Ghost((new_index + len) as nat);
        }
    }

    /// An equal run before the first change of the hunk: only the last
    /// `radius` context lines stay.
    fn slide_window(&mut self, old_index: usize, new_index: usize, len: usize)
        requires
            old(self)@.wf(),
            old(self)@.accepts_equal(old_index as nat, new_index as nat, len as nat),
            !old(self)@.hunk.changed,
        ensures
            final(self)@ == old(self)@.after_equal(old_index as nat, new_index as nat, len as nat),
    {
        let ghost s0 = self@;
        let r = self.context_radius;
        let have = self.context.data.len();
        let total = have + len;
        let keep = if r < total {
            r
        } else {
            total
        };
        let evicted = total - keep;
        let ghost all = s0.hunk.data + context_lines(s0.a, old_index as nat, (old_index + len) as nat);
        assert(s0.a.len() == self.text1@.len());
        let mut data: Vec<String> = Vec::new();
        let mut k: usize = evicted;
        while k < total
            invariant
                evicted <= k <= total,
                old_index + len < usize::MAX,
                total == have + len,
                have == self.context.data@.len(),
                old_index + len <= self.text1@.len(),
                s0 == self@,
                all == s0.hunk.data + context_lines(s0.a, old_index as nat, (old_index + len) as nat),
                texts(data@) == all.subrange(evicted as int, k as int),
            decreases total - k,
        {
            let ghost prev = texts(data@);
            if k < have {
                data.push(self.context.data[k].clone());
            } else {
                data.push(context_string(&self.text1[old_index + (k - have)]));
            }
            assert(texts(data@) =~= prev.push(all[k as int]));
            assert(texts(data@) =~= all.subrange(evicted as int, k + 1));
            k += 1;
        }
        let base = match self.context.start {
            Some(st) => st,
            None => old_index + 1,
        };
        self.context.start = Some(base + evicted);
        self.context.data = data;
        self.context.equaled = keep;
        self.context.counter = len;
        self.old_pos = Ghost((old_index + len) as nat);
        self.new_pos = Ghost((new_index + len) as nat);
    }

    /// An equal run after a change, longer than twice the radius: the hunk
    /// is finalized and the next one starts with the end of the run.
    fn split(&mut self, old_index: usize, new_index: usize, len: usize)
        requires
            old(self)@.wf(),
            old(self)@.accepts_equal(old_index as nat, new_index as nat, len as nat),
            old(self)@.hunk.changed,
            len > 2 * old(self)@.radius,
        ensures
            final(self)@ == old(self)@.after_equal(old_index as nat, new_index as nat, len as nat),
    {
        let ghost s0 = self@;
        let r = self.context_radius;
        push_context_lines(&mut self.context.data, self.text1, old_index, old_index + r);
        self.context.equaled = self.context.equaled + r;
        self.context.counter = r;
        self.old_pos = Ghost((old_index + len) as nat);
        self.new_pos = Ghost((new_index + len) as nat);
        self.flush();
        let mut next = Context::new();
        push_context_lines(&mut next.data, self.text1, old_index + len - r, old_index + len);
        next.start = Some(old_index + len - r + 1);
        next.counter = len;
        next.equaled = r;
        self.context = next;
        assert(self@.hunk.data =~= s0.after_equal(old_index as nat, new_index as nat, len as nat).hunk.data);
    }

    /// Consumes the run that replaces `text1[old_index..old_index+old_len]`
    /// by `text2[new_index..new_index+new_len]`.
    pub fn replace(&mut self, old_index: usize, old_len: usize, new_index: usize, new_len: usize)
        requires
            old(self)@.wf(),
            old(self)@.accepts_change(old_index as nat, old_len as nat, new_index as nat, new_len as nat),
        ensures
            final(self)@.wf(),
            final(self)@ == old(self)@.after_change(
                old_index as nat,
                old_len as nat,
                new_index as nat,
                new_len as nat,
            ),
    {
        proof {
            lemma_after_change_wf(self@, old_index as nat, old_len as nat, new_index as nat, new_len as nat);
        }
        if old_len > 0 || new_len > 0 {
            let ghost s0 = self@;
            if self.context.start.is_none() {
                self.context.start = Some(old_index + 1);
            }
            push_removed_lines(&mut self.context.data, self.text1, old_index, old_index + old_len);
            push_added_lines(&mut self.context.data, self.text2, new_index, new_index + new_len);
            self.context.changed = true;
            self.context.counter = 0;
            self.context.removed = self.context.removed + old_len;
            self.context.inserted = self.context.inserted + new_len;
            self.old_pos = Ghost((old_index + old_len) as nat);
            self.new_pos = Ghost((new_index + new_len) as nat);
            self.changes = Ghost(
                s0.changes + removed_lines(s0.a, old_index as nat, (old_index + old_len) as nat)
                    + added_lines(s0.b, new_index as nat, (new_index + new_len) as nat),
            );
            assert(self@.hunk.data =~= s0.after_change(
                old_index as nat,
                old_len as nat,
                new_index as nat,
                new_len as nat,
            ).hunk.data);
        }
    }

    /// Consumes the run that inserts `text2[new_index..new_index+new_len]`
    /// at `old_index` of the old sequence.
    pub fn insert(&mut self, old_index: usize, new_index: usize, new_len: usize)
        requires
            old(self)@.wf(),
            old(self)@.accepts_change(old_index as nat, 0, new_index as nat, new_len as nat),
        ensures
            final(self)@.wf(),
            final(self)@ == old(self)@.after_change(old_index as nat, 0, new_index as nat, new_len as nat),
    {
        proof {
            lemma_after_change_wf(self@, old_index as nat, 0, new_index as nat, new_len as nat);
        }
        if new_len > 0 {
            let ghost s0 = self@;
            if self.context.start.is_none() {
                self.context.start = Some(old_index + 1);
            }
            push_added_lines(&mut self.context.data, self.text2, new_index, new_index + new_len);
            self.context.changed = true;
            self.context.counter = 0;
            self.context.inserted = self.context.inserted + new_len;
            self.new_pos = Ghost((new_index + new_len) as nat);
            self.changes = Ghost(
                s0.changes + removed_lines(s0.a, old_index as nat, old_index as nat)
                    + added_lines(s0.b, new_index as nat, (new_index + new_len) as nat),
            );
            assert(self@.hunk.data =~= s0.after_change(
                old_index as nat,
                0,
                new_index as nat,
                new_len as nat,
            ).hunk.data);
        }
    }

    /// Consumes the run that deletes `text1[old_index..old_index+len]`.
    pub fn delete(&mut self, old_index: usize, len: usize)
        requires
            old(self)@.wf(),
            old(self)@.accepts_change(old_index as nat, len as nat, old(self)@.new_pos, 0),
        ensures
            final(self)@.wf(),
            final(self)@ == old(self)@.after_change(old_index as nat, len as nat, old(self)@.new_pos, 0),
    {
        proof {
            lemma_after_change_wf(self@, old_index as nat, len as nat, self@.new_pos, 0);
        }
        if len > 0 {
            let ghost s0 = self@;
            if self.context.start.is_none() {
                self.context.start = Some(old_index + 1);
            }
            push_removed_lines(&mut self.context.data, self.text1, old_index, old_index + len);
            self.context.changed = true;
            self.context.counter = 0;
            self.context.removed = self.context.removed + len;
            self.old_pos = Ghost((old_index + len) as nat);
            self.changes = Ghost(
                s0.changes + removed_lines(s0.a, old_index as nat, (old_index + len) as nat)
                    + added_lines(s0.b, s0.new_pos, s0.new_pos),
            );
            assert(self@.hunk.data =~= s0.after_change(old_index as nat, len as nat, s0.new_pos, 0).hunk.data);
        }
    }

    /// Ends the script: the trailing context of the last hunk is cut to the
    /// radius and the hunk is finalized.
    pub fn finish(&mut self)
        requires
            old(self)@.wf(),
        ensures
            final(self)@.wf(),
            final(self)@ == old(self)@.after_finish(),
    {
        proof {
            lemma_after_finish_wf(self@);
        }
        let ghost s0 = self@;
        if self.context.changed && self.context.counter > self.context_radius {
            let cut = self.context.counter - self.context_radius;
            let new_size = self.context.data.len() - cut;
            self.context.equaled = self.context.equaled - cut;
            self.context.data.truncate(new_size);
            self.context.counter = self.context_radius;
            assert(self@.hunk.data =~= s0.trimmed().data);
        }
        assert(self@.hunk == s0.trimmed());
        self.flush();
        self.context = Context::new();
    }

    /// Consumes run `op`.
    pub fn process(&mut self, op: EditOp)
        requires
            old(self)@.wf(),
            old(self)@.accepts(op),
        ensures
            final(self)@.wf(),
            final(self)@ == old(self)@.apply(op),
    {
        match op {
            EditOp::Equal { old, new, len } => self.equal(old, new, len),
            EditOp::Delete { old, len } => self.delete(old, len),
            EditOp::Insert { old, new, new_len } => self.insert(old, new, new_len),
            EditOp::Replace { old, old_len, new, new_len } => self.replace(old, old_len, new, new_len),
        }
    }

    /// The output lines.
    pub fn result(self) -> (r: Vec<String>)
        ensures
            texts(r@) == self@.output,
    {
        self.result
    }
}

} // verus!
