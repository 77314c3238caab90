//! One hunk under construction, and how a finished hunk is rendered.

use vstd::prelude::*;
use vstd::string::*;

verus! {

/// The character of a decimal digit `d < 10`.
pub open spec fn digit_char(d: nat) -> char {
    if d == 0 {
        '0'
    } else if d == 1 {
        '1'
    } else if d == 2 {
        '2'
    } else if d == 3 {
        '3'
    } else if d == 4 {
        '4'
    } else if d == 5 {
        '5'
    } else if d == 6 {
        '6'
    } else if d == 7 {
        '7'
    } else if d == 8 {
        '8'
    } else {
        '9'
    }
}

/// A natural number in decimal notation, most significant digit first.
pub open spec fn decimal(n: nat) -> Seq<char>
    decreases n,
{
    if n < 10 {
        seq![digit_char(n)]
    } else {
        decimal(n / 10).push(digit_char(n % 10))
    }
}

/// The header line `@@ -os,oc +ns,nc @@`.
pub open spec fn header_line(os: nat, oc: nat, ns: nat, nc: nat) -> Seq<char> {
    seq!['@', '@', ' ', '-'] + decimal(os) + seq![','] + decimal(oc) + seq![' ', '+'] + decimal(ns)
        + seq![','] + decimal(nc) + seq![' ', '@', '@']
}

/// The text of each string of a sequence.
pub open spec fn texts(v: Seq<String>) -> Seq<Seq<char>> {
    v.map_values(|s: String| s@)
}

/// A hunk's displayed start: line numbers count from 1, so 0 shows as 1.
pub open spec fn anchor(start: nat) -> nat {
    if start == 0 {
        1
    } else {
        start
    }
}

/// The four numbers of a hunk header.
pub struct HunkHeader {
    pub old_start: int,
    pub old_count: int,
    pub new_start: int,
    pub new_count: int,
}

impl HunkHeader {
    pub open spec fn line(self) -> Seq<char> {
        header_line(
            self.old_start as nat,
            self.old_count as nat,
            self.new_start as nat,
            self.new_count as nat,
        )
    }
}

/// The abstract state of a hunk under construction.
pub struct ContextView {
    /// 1-based old-sequence line where the displayed region begins, once known.
    pub start: Option<nat>,
    /// Rendered body lines: context (` `), removed (`-`) and added (`+`).
    pub data: Seq<Seq<char>>,
    /// Whether a removed or added line has been placed.
    pub changed: bool,
    /// Length of the latest equal run; 0 once a change follows it.
    pub counter: nat,
    pub equaled: nat,
    pub removed: nat,
    pub inserted: nat,
}

impl ContextView {
    pub open spec fn empty() -> ContextView {
        ContextView {
            start: None,
            data: Seq::empty(),
            changed: false,
            counter: 0,
            equaled: 0,
            removed: 0,
            inserted: 0,
        }
    }

    /// A hunk is shown only once it has a start and holds a change.
    pub open spec fn emits(self) -> bool {
        self.start is Some && self.changed
    }

    /// The header of this hunk, given the removed and added counts of all
    /// hunks before it.
    pub open spec fn header(self, removed_carry: int, inserted_carry: int) -> HunkHeader {
        let s = anchor(self.start->0);
        HunkHeader {
            old_start: s as int,
            old_count: (self.equaled + self.removed) as int,
            new_start: s + inserted_carry - removed_carry,
            new_count: (self.equaled + self.inserted) as int,
        }
    }

    /// What this hunk contributes to the output: its header and body, or nothing.
    pub open spec fn rendered(self, removed_carry: int, inserted_carry: int) -> Seq<Seq<char>> {
        if self.emits() {
            seq![self.header(removed_carry, inserted_carry).line()] + self.data
        } else {
            Seq::empty()
        }
    }

    /// The header numbers of this hunk fit in `usize`.
    pub open spec fn header_fits(self, removed_carry: int, inserted_carry: int) -> bool {
        self.emits() ==> {
            let h = self.header(removed_carry, inserted_carry);
            &&& 0 <= h.new_start <= usize::MAX
            &&& h.old_count <= usize::MAX
            &&& h.new_count <= usize::MAX
        }
    }
}

/// Relies on `ToString` for `usize`, which writes the number through its
/// `Display`: plain decimal digits, no sign, no padding.
#[verifier::external_body]
fn decimal_string(n: usize) -> (r: String)
    ensures
        r@ == decimal(n as nat),
{
    n.to_string()
}

/// The header line of a hunk.
fn header_string(os: usize, oc: usize, ns: usize, nc: usize) -> (r: String)
    ensures
        r@ == header_line(os as nat, oc as nat, ns as nat, nc as nat),
{
    let mut r = String::from_str("@@ -");
    r.append(decimal_string(os).as_str());
    r.append(",");
    r.append(decimal_string(oc).as_str());
    r.append(" +");
    r.append(decimal_string(ns).as_str());
    r.append(",");
    r.append(decimal_string(nc).as_str());
    r.append(" @@");
    proof {
        reveal_strlit("@@ -");
        reveal_strlit(",");
        reveal_strlit(" +");
        reveal_strlit(" @@");
        assert(r@ =~= header_line(os as nat, oc as nat, ns as nat, nc as nat));
    }
    r
}

/// A hunk under construction.
pub struct Context {
    pub start: Option<usize>,
    pub data: Vec<String>,
    pub changed: bool,
    pub counter: usize,
    pub equaled: usize,
    pub removed: usize,
    pub inserted: usize,
}

impl View for Context {
    type V = ContextView;

    open spec fn view(&self) -> ContextView {
        ContextView {
            start: match self.start {
                Some(s) => Some(s as nat),
                None => None,
            },
            data: texts(self.data@),
            changed: self.changed,
            counter: self.counter as nat,
            equaled: self.equaled as nat,
            removed: self.removed as nat,
            inserted: self.inserted as nat,
        }
    }
}

impl Context {
    /// An empty hunk: no start, no lines, no change.
    pub fn new() -> (r: Self)
        ensures
            r@ == ContextView::empty(),
    {
        let r = Context {
            start: None,
            data: Vec::new(),
            changed: false,
            counter: 0,
            equaled: 0,
            removed: 0,
            inserted: 0,
        };
        assert(r@.data =~= Seq::<Seq<char>>::empty());
        r
    }

    /// The output lines of this hunk, given the removed and added counts of
    /// all hunks before it: the header and the body if the hunk holds a
    /// change, else nothing.
    pub fn to_vec(&self, removed: usize, inserted: usize) -> (r: Vec<String>)
        requires
            self@.header_fits(removed as int, inserted as int),
        ensures
            texts(r@) == self@.rendered(removed as int, inserted as int),
    {
        let mut start = match self.start {
            Some(s) => s,
            None => {
                let r: Vec<String> = Vec::new();
                assert(texts(r@) =~= Seq::<Seq<char>>::empty());
                return r;
            },
        };
        if start == 0 {
            start = 1;
        }
        let mut data: Vec<String> = Vec::new();
        if self.changed {
            let new_start = if start >= removed {
                start - removed + inserted
            } else {
                inserted - (removed - start)
            };
            data.push(
                header_string(
                    start,
                    self.equaled + self.removed,
                    new_start,
                    self.equaled + self.inserted,
                ),
            );
            let mut i: usize = 0;
            while i < self.data.len()
                invariant
                    i <= self.data@.len(),
                    data@.len() == i + 1,
                    data@[0]@ == self@.header(removed as int, inserted as int).line(),
                    forall|k: int| 0 <= k < i ==> #[trigger] data@[k + 1]@ == self.data@[k]@,
                decreases self.data@.len() - i,
            {
                data.push(self.data[i].clone());
                i += 1;
            }
            let ghost want = self@.rendered(removed as int, inserted as int);
            assert(texts(data@).len() == want.len());
            assert forall|k: int| 0 <= k < want.len() implies texts(data@)[k] == want[k] by {
                if k > 0 {
                    assert(data@[(k - 1) + 1]@ == self.data@[k - 1]@);
                }
            }
            assert(texts(data@) =~= want);
        } else {
            assert(texts(data@) =~= Seq::<Seq<char>>::empty());
        }
        data
    }
}

} // verus!
