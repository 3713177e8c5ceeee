//! Per-file translation between character offsets and (line, column) pairs.
//!
//! The index is a strictly increasing sequence of line-start offsets, first
//! entry 0, derived from exactly one text value; it is rebuilt in full
//! whenever that text changes.

use vstd::prelude::*;
use vstd::string::*;

verus! {

/// Start offsets of the lines that begin strictly after position `i`: one
/// past each line break at or after `i`.
pub open spec fn starts_from(text: Seq<char>, i: int) -> Seq<int>
    decreases text.len() - i,
{
    if i < 0 || i >= text.len() {
        Seq::empty()
    } else if text[i] == '\n' {
        seq![i + 1] + starts_from(text, i + 1)
    } else {
        starts_from(text, i + 1)
    }
}

/// Start offset of each line of `text`: offset 0, then one past each line
/// break, in order.
pub open spec fn line_starts_spec(text: Seq<char>) -> Seq<int> {
    seq![0] + starts_from(text, 0)
}

proof fn lemma_starts_from_wf(text: Seq<char>, i: int)
    requires
        0 <= i <= text.len(),
    ensures
        ({
            let st = starts_from(text, i);
            &&& forall|k: int| 0 <= k < st.len() ==> i < #[trigger] st[k] <= text.len()
            &&& forall|k: int| 0 <= k < st.len() - 1 ==> #[trigger] st[k] < st[k + 1]
        }),
    decreases text.len() - i,
{
    if i < text.len() {
        lemma_starts_from_wf(text, i + 1);
        let st = starts_from(text, i);
        let rest = starts_from(text, i + 1);
        if text[i] == '\n' {
            assert forall|k: int| 0 <= k < st.len() implies i < #[trigger] st[k]
                <= text.len() by {
                if k > 0 {
                    assert(st[k] == rest[k - 1]);
                }
            }
            assert forall|k: int| 0 <= k < st.len() - 1 implies #[trigger] st[k] < st[k + 1] by {
                if k > 0 {
                    assert(st[k] == rest[k - 1]);
                }
                assert(st[k + 1] == rest[k]);
            }
        }
    }
}

/// The index is well-formed: the first entry is 0 and entries strictly
/// increase.
pub proof fn lemma_line_starts_wf(text: Seq<char>)
    ensures
        ({
            let st = line_starts_spec(text);
            &&& st.len() > 0
            &&& st[0] == 0
            &&& forall|k: int| 0 <= k < st.len() ==> 0 <= #[trigger] st[k] <= text.len()
            &&& forall|k: int| 0 <= k < st.len() - 1 ==> #[trigger] st[k] < st[k + 1]
        }),
{
    lemma_starts_from_wf(text, 0);
    let st = line_starts_spec(text);
    let rest = starts_from(text, 0);
    assert forall|k: int| 0 <= k < st.len() implies 0 <= #[trigger] st[k] <= text.len() by {
        if k > 0 {
            assert(st[k] == rest[k - 1]);
        }
    }
    assert forall|k: int| 0 <= k < st.len() - 1 implies #[trigger] st[k] < st[k + 1] by {
        if k > 0 {
            assert(st[k] == rest[k - 1]);
        }
        assert(st[k + 1] == rest[k]);
    }
}

/// Offset ↔ (line, column) translation for one text value.
pub struct LineIndex {
    line_starts: Vec<usize>,
}

impl View for LineIndex {
    type V = Seq<int>;

    /// The line-start offsets, in order.
    closed spec fn view(&self) -> Seq<int> {
        Seq::new(self.line_starts@.len(), |k: int| self.line_starts@[k] as int)
    }
}

impl Clone for LineIndex {
    fn clone(&self) -> (r: Self)
        ensures
            r@ == self@,
    {
        let mut line_starts: Vec<usize> = Vec::new();
        let mut i: usize = 0;
        while i < self.line_starts.len()
            invariant
                i <= self.line_starts@.len(),
                line_starts@ == self.line_starts@.take(i as int),
            decreases self.line_starts@.len() - i,
        {
            line_starts.push(self.line_starts[i]);
            proof {
                assert(line_starts@ =~= self.line_starts@.take(i as int + 1));
            }
            i += 1;
        }
        proof {
            assert(self.line_starts@.take(i as int) =~= self.line_starts@);
        }
        LineIndex { line_starts }
    }
}

impl LineIndex {
    /// Structural well-formedness: non-empty, first entry 0, strictly
    /// increasing. Every index built from a text value satisfies it.
    pub open spec fn wf(&self) -> bool {
        &&& self@.len() > 0
        &&& self@[0] == 0
        &&& forall|k: int| 0 <= k < self@.len() - 1 ==> #[trigger] self@[k] < self@[k + 1]
    }

    /// Build the index of `text`: the start offset of each line.
    pub fn new(text: &str) -> (r: LineIndex)
        ensures
            r@ == line_starts_spec(text@),
            r.wf(),
    {
        let n = text.unicode_len();
        let mut line_starts: Vec<usize> = Vec::new();
        line_starts.push(0);
        let mut i: usize = 0;
        proof {
            assert(Seq::new(line_starts@.len(), |k: int| line_starts@[k] as int) =~= seq![0int]);
        }
        while i < n
            invariant
                n == text@.len(),
                i <= n,
                line_starts_spec(text@) == Seq::new(
                    line_starts@.len(),
                    |k: int| line_starts@[k] as int,
                ) + starts_from(text@, i as int),
            decreases n - i,
        {
            let ghost pre = line_starts@;
            if text.get_char(i) == '\n' {
                line_starts.push(i + 1);
                proof {
                    assert(Seq::new(line_starts@.len(), |k: int| line_starts@[k] as int) =~= Seq::new(
                        pre.len(),
                        |k: int| pre[k] as int,
                    ) + seq![i + 1int]);
                    assert(Seq::new(pre.len(), |k: int| pre[k] as int) + starts_from(
                        text@,
                        i as int,
                    ) =~= Seq::new(line_starts@.len(), |k: int| line_starts@[k] as int)
                        + starts_from(text@, i as int + 1));
                }
            }
            i += 1;
        }
        let r = LineIndex { line_starts };
        proof {
            assert(r@ + starts_from(text@, n as int) =~= r@);
            lemma_line_starts_wf(text@);
        }
        r
    }

    /// The line-start offsets themselves.
    pub fn line_starts(&self) -> (r: &Vec<usize>)
        ensures
            r@.len() == self@.len(),
            forall|k: int| 0 <= k < r@.len() ==> #[trigger] r@[k] as int == self@[k],
    {
        &self.line_starts
    }

    /// Translate an offset to its (line, column) pair by binary search: the
    /// line is the last one starting at or before the offset, the column the
    /// distance from that line's start.
    pub fn line_col(&self, offset: usize) -> (r: (usize, usize))
        requires
            self.wf(),
        ensures
            r.0 < self@.len(),
            self@[r.0 as int] <= offset,
            r.0 + 1 < self@.len() ==> offset < self@[r.0 as int + 1],
            r.1 == offset - self@[r.0 as int],
    {
        let mut lo: usize = 0;
        let mut hi: usize = self.line_starts.len();
        while hi - lo > 1
            invariant
                self.wf(),
                lo < hi <= self@.len(),
                self@[lo as int] <= offset,
                hi < self@.len() ==> offset < self@[hi as int],
            decreases hi - lo,
        {
            let mid = lo + (hi - lo) / 2;
            if self.line_starts[mid] <= offset {
                lo = mid;
            } else {
                hi = mid;
            }
        }
        let col = offset - self.line_starts[lo];
        (lo, col)
    }
}

} // verus!
