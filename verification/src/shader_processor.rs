//! The preprocessor: one left-to-right scan over source text.
//!
//! Two directive families are recognized, each on a line of its own:
//!
//! - `#ifdef NAME` ... `#endif` — a conditional block. When `NAME` is an
//!   active define the block's body is kept (the directive lines are
//!   dropped); otherwise the whole block is elided and recorded as one
//!   [`UnconfiguredCode`] entry, in original source coordinates. Blocks do
//!   not nest: inside an elided block only `#endif` is recognized, and a
//!   block left open runs to the end of the text.
//! - `#import NAME` — the line is kept as a placeholder in the processed
//!   text and recorded as one [`ImportOccurrence`], in processed-text
//!   coordinates.
//!
//! Anything else, including malformed directive-like text, is ordinary
//! source and is copied through unchanged: the scan is total and never
//! fails.

use crate::inputs::DefineSet;
use crate::util_types::TextRange;
use vstd::prelude::*;
use vstd::string::*;

verus! {

/// Offset of the first line break at or after `i`, or the text length when
/// the rest of the text has none.
pub open spec fn line_end(s: Seq<char>, i: int) -> int
    decreases s.len() - i,
{
    if i < 0 || i >= s.len() {
        s.len() as int
    } else if s[i] == '\n' {
        i
    } else {
        line_end(s, i + 1)
    }
}

/// Start of the line after the one starting at `i`.
pub open spec fn next_line(s: Seq<char>, i: int) -> int {
    if line_end(s, i) < s.len() {
        line_end(s, i) + 1
    } else {
        s.len() as int
    }
}

/// Content of the line starting at `i`, without its line break.
pub open spec fn line_at(s: Seq<char>, i: int) -> Seq<char> {
    s.subrange(i, line_end(s, i))
}

pub proof fn lemma_line_end_bounds(s: Seq<char>, i: int)
    requires
        0 <= i <= s.len(),
    ensures
        i <= line_end(s, i) <= s.len(),
        line_end(s, i) < s.len() ==> s[line_end(s, i)] == '\n',
        forall|m: int| i <= m < line_end(s, i) ==> s[m] != '\n',
    decreases s.len() - i,
{
    if i < s.len() && s[i] != '\n' {
        lemma_line_end_bounds(s, i + 1);
    }
}

proof fn lemma_line_end_char(s: Seq<char>, i: int, j: int)
    requires
        0 <= i <= j <= s.len(),
        forall|m: int| i <= m < j ==> s[m] != '\n',
        j == s.len() || s[j] == '\n',
    ensures
        line_end(s, i) == j,
    decreases j - i,
{
    if i < j {
        lemma_line_end_char(s, i + 1, j);
    }
}

/// A conditional-block opener: `#ifdef ` followed by a non-empty guard.
pub open spec fn is_ifdef_line(l: Seq<char>) -> bool {
    l.len() > 7 && l.subrange(0, 7) == "#ifdef "@
}

/// The guard name of a conditional-block opener.
pub open spec fn ifdef_guard(l: Seq<char>) -> Seq<char> {
    l.subrange(7, l.len() as int)
}

/// A conditional-block terminator: exactly `#endif`.
pub open spec fn is_endif_line(l: Seq<char>) -> bool {
    l == "#endif"@
}

/// An import directive: `#import ` followed by a non-empty key.
pub open spec fn is_import_line(l: Seq<char>) -> bool {
    l.len() > 8 && l.subrange(0, 8) == "#import "@
}

/// The import key of an import directive.
pub open spec fn import_ident(l: Seq<char>) -> Seq<char> {
    l.subrange(8, l.len() as int)
}

/// Scanning lines from `i`: the position just after the first `#endif` line,
/// or the text length when none follows.
pub open spec fn skip_end(s: Seq<char>, i: int) -> int
    decreases s.len() - i,
    via skip_end_decreases
{
    if i < 0 || i >= s.len() {
        s.len() as int
    } else if is_endif_line(line_at(s, i)) {
        next_line(s, i)
    } else {
        skip_end(s, next_line(s, i))
    }
}

#[via_fn]
proof fn skip_end_decreases(s: Seq<char>, i: int) {
    if 0 <= i < s.len() {
        lemma_line_end_bounds(s, i);
    }
}

pub proof fn lemma_skip_end_bounds(s: Seq<char>, i: int)
    requires
        0 <= i <= s.len(),
    ensures
        i <= skip_end(s, i) <= s.len(),
        i < s.len() ==> i < skip_end(s, i),
    decreases s.len() - i,
{
    if i < s.len() {
        lemma_line_end_bounds(s, i);
        if !is_endif_line(line_at(s, i)) {
            lemma_skip_end_bounds(s, next_line(s, i));
        }
    }
}

/// One elided conditional block, abstracted: a span of the original source
/// and the guard that elided it.
pub struct UnconfView {
    pub start: int,
    pub end: int,
    pub def: Seq<char>,
}

/// One import directive, abstracted: a span of the pristine processed text
/// and the import key it names.
pub struct OccView {
    pub start: int,
    pub end: int,
    pub ident: Seq<char>,
}

/// Everything one preprocessor run produces, abstracted.
pub struct ProcessView {
    pub processed: Seq<char>,
    pub unconfigured: Seq<UnconfView>,
    pub occurrences: Seq<OccView>,
}

/// The preprocessor on the suffix of `s` that starts at `i`, with processed
/// text already `out_len` characters long: processed suffix, elided blocks
/// (original coordinates), import occurrences (processed coordinates).
pub open spec fn process_from(s: Seq<char>, defines: Set<Seq<char>>, i: int, out_len: int) -> ProcessView
    decreases s.len() - i,
    via process_from_decreases
{
    if i < 0 || i >= s.len() {
        ProcessView {
            processed: Seq::empty(),
            unconfigured: Seq::empty(),
            occurrences: Seq::empty(),
        }
    } else {
        let l = line_at(s, i);
        let nl = next_line(s, i);
        if is_ifdef_line(l) {
            if defines.contains(ifdef_guard(l)) {
                process_from(s, defines, nl, out_len)
            } else {
                let e = skip_end(s, nl);
                let rest = process_from(s, defines, e, out_len);
                ProcessView {
                    processed: rest.processed,
                    unconfigured: seq![
                        UnconfView { start: i, end: e, def: ifdef_guard(l) },
                    ] + rest.unconfigured,
                    occurrences: rest.occurrences,
                }
            }
        } else if is_endif_line(l) {
            process_from(s, defines, nl, out_len)
        } else if is_import_line(l) {
            let rest = process_from(s, defines, nl, out_len + (nl - i));
            ProcessView {
                processed: s.subrange(i, nl) + rest.processed,
                unconfigured: rest.unconfigured,
                occurrences: seq![
                    OccView {
                        start: out_len,
                        end: out_len + (line_end(s, i) - i),
                        ident: import_ident(l),
                    },
                ] + rest.occurrences,
            }
        } else {
            let rest = process_from(s, defines, nl, out_len + (nl - i));
            ProcessView {
                processed: s.subrange(i, nl) + rest.processed,
                unconfigured: rest.unconfigured,
                occurrences: rest.occurrences,
            }
        }
    }
}

#[via_fn]
proof fn process_from_decreases(s: Seq<char>, defines: Set<Seq<char>>, i: int, out_len: int) {
    if 0 <= i < s.len() {
        lemma_line_end_bounds(s, i);
        lemma_skip_end_bounds(s, next_line(s, i));
    }
}

/// The whole preprocessor: source text and define set to processed text,
/// elided blocks, and import occurrences.
pub open spec fn process_spec(s: Seq<char>, defines: Set<Seq<char>>) -> ProcessView {
    process_from(s, defines, 0, 0)
}

/// A span elided because its guarding define was inactive. Coordinates are
/// in the original, pre-substitution source text.
#[derive(Debug, PartialEq, Eq)]
pub struct UnconfiguredCode {
    pub range: TextRange,
    pub def: String,
}

impl View for UnconfiguredCode {
    type V = UnconfView;

    open spec fn view(&self) -> UnconfView {
        UnconfView { start: self.range.start as int, end: self.range.end as int, def: self.def@ }
    }
}

impl Clone for UnconfiguredCode {
    fn clone(&self) -> (r: Self)
        ensures
            r == *self,
    {
        UnconfiguredCode { range: self.range, def: self.def.clone() }
    }
}

/// One recorded import directive: a span of the pristine processed text and
/// the import key named there. The span is fixed against that pristine text,
/// never against an intermediate spliced result.
#[derive(Debug, PartialEq, Eq)]
pub struct ImportOccurrence {
    pub range: TextRange,
    pub identifier: String,
}

impl View for ImportOccurrence {
    type V = OccView;

    open spec fn view(&self) -> OccView {
        OccView {
            start: self.range.start as int,
            end: self.range.end as int,
            ident: self.identifier@,
        }
    }
}

impl Clone for ImportOccurrence {
    fn clone(&self) -> (r: Self)
        ensures
            r == *self,
    {
        ImportOccurrence { range: self.range, identifier: self.identifier.clone() }
    }
}

/// Abstraction of a list of elided blocks.
pub open spec fn unconf_views(s: Seq<UnconfiguredCode>) -> Seq<UnconfView> {
    Seq::new(s.len(), |k: int| s[k]@)
}

/// Abstraction of a list of import occurrences.
pub open spec fn occ_views(s: Seq<ImportOccurrence>) -> Seq<OccView> {
    Seq::new(s.len(), |k: int| s[k]@)
}

/// Output of one preprocessor run.
pub struct Processed {
    pub text: String,
    pub unconfigured: Vec<UnconfiguredCode>,
    pub occurrences: Vec<ImportOccurrence>,
}

fn line_end_at(s: &str, n: usize, i: usize) -> (r: usize)
    requires
        n == s@.len(),
        i <= n,
    ensures
        r == line_end(s@, i as int),
        i <= r <= n,
{
    let mut j = i;
    while j < n
        invariant
            i <= j <= n,
            n == s@.len(),
            forall|m: int| i <= m < j ==> s@[m] != '\n',
        decreases n - j,
    {
        if s.get_char(j) == '\n' {
            proof {
                lemma_line_end_char(s@, i as int, j as int);
            }
            return j;
        }
        j += 1;
    }
    proof {
        lemma_line_end_char(s@, i as int, n as int);
    }
    n
}

fn has_prefix_at(s: &str, n: usize, start: usize, lend: usize, pat: &str, pn: usize) -> (r: bool)
    requires
        n == s@.len(),
        pn == pat@.len(),
        start <= lend <= n,
    ensures
        r == (lend - start >= pn && s@.subrange(start as int, start as int + pn as int) == pat@),
{
    if lend - start < pn {
        return false;
    }
    let mut k: usize = 0;
    while k < pn
        invariant
            start + pn <= lend <= n,
            n == s@.len(),
            pn == pat@.len(),
            k <= pn,
            forall|m: int| 0 <= m < k ==> s@[start + m] == pat@[m],
        decreases pn - k,
    {
        if s.get_char(start + k) != pat.get_char(k) {
            proof {
                let ki = k as int;
                assert(s@.subrange(start as int, start as int + pn as int)[ki] != pat@[ki]);
            }
            return false;
        }
        k += 1;
    }
    proof {
        assert(s@.subrange(start as int, start as int + pn as int) =~= pat@);
    }
    true
}

fn find_block_end(s: &str, n: usize, j0: usize) -> (r: usize)
    requires
        n == s@.len(),
        j0 <= n,
    ensures
        r == skip_end(s@, j0 as int),
        j0 <= r <= n,
{
    proof {
        lemma_skip_end_bounds(s@, j0 as int);
    }
    let mut j = j0;
    while j < n
        invariant
            j0 <= j <= n,
            n == s@.len(),
            skip_end(s@, j0 as int) == skip_end(s@, j as int),
            j0 as int <= skip_end(s@, j0 as int) <= n,
        decreases n - j,
    {
        let le = line_end_at(s, n, j);
        proof {
            lemma_line_end_bounds(s@, j as int);
            reveal_strlit("#endif");
        }
        let nl2 = if le < n {
            le + 1
        } else {
            n
        };
        let mut is_end = false;
        if le - j == 6 {
            if has_prefix_at(s, n, j, le, "#endif", 6) {
                is_end = true;
            }
        }
        proof {
            assert(line_at(s@, j as int).len() == le - j);
            if le - j == 6 {
                assert(line_at(s@, j as int) =~= s@.subrange(j as int, j as int + 6));
            }
        }
        if is_end {
            proof {
                assert(is_endif_line(line_at(s@, j as int)));
                assert(skip_end(s@, j as int) == nl2 as int);
            }
            return nl2;
        }
        proof {
            assert(!is_endif_line(line_at(s@, j as int)));
            assert(skip_end(s@, j as int) == skip_end(s@, nl2 as int));
        }
        j = nl2;
    }
    n
}

/// One preprocessor run over `source` with the given define set. The result
/// is exactly what [`process_spec`] states of the two inputs.
pub fn process(source: &str, defines: &DefineSet) -> (r: Processed)
    ensures
        r.text@ == process_spec(source@, defines@).processed,
        unconf_views(r.unconfigured@) == process_spec(source@, defines@).unconfigured,
        occ_views(r.occurrences@) == process_spec(source@, defines@).occurrences,
        forall|k: int|
            0 <= k < r.unconfigured@.len() ==> (#[trigger] r.unconfigured@[k]).range.start
                < r.unconfigured@[k].range.end <= source@.len(),
        forall|k: int|
            0 <= k < r.occurrences@.len() ==> (#[trigger] r.occurrences@[k]).range.start
                < r.occurrences@[k].range.end <= r.text@.len(),
{
    let ghost total = process_spec(source@, defines@);
    let n = source.unicode_len();
    let mut text = String::new();
    let mut out_len: usize = 0;
    let mut unconfigured: Vec<UnconfiguredCode> = Vec::new();
    let mut occurrences: Vec<ImportOccurrence> = Vec::new();
    let mut i: usize = 0;
    while i < n
        invariant
            n == source@.len(),
            i <= n,
            out_len == text@.len(),
            out_len <= i,
            total == process_spec(source@, defines@),
            total.processed == text@ + process_from(
                source@,
                defines@,
                i as int,
                out_len as int,
            ).processed,
            total.unconfigured == unconf_views(unconfigured@) + process_from(
                source@,
                defines@,
                i as int,
                out_len as int,
            ).unconfigured,
            total.occurrences == occ_views(occurrences@) + process_from(
                source@,
                defines@,
                i as int,
                out_len as int,
            ).occurrences,
        decreases n - i,
    {
        proof {
            reveal_strlit("#ifdef ");
            reveal_strlit("#import ");
            reveal_strlit("#endif");
            lemma_line_end_bounds(source@, i as int);
        }
        let ghost l = line_at(source@, i as int);
        let ghost rest0 = process_from(source@, defines@, i as int, out_len as int);
        let le = line_end_at(source, n, i);
        let nl = if le < n {
            le + 1
        } else {
            n
        };
        proof {
            assert(nl == next_line(source@, i as int));
            assert(l.len() == le - i);
        }
        let b_ifdef = le - i > 7 && has_prefix_at(source, n, i, le, "#ifdef ", 7);
        let b_endif = le - i == 6 && has_prefix_at(source, n, i, le, "#endif", 6);
        let b_import = le - i > 8 && has_prefix_at(source, n, i, le, "#import ", 8);
        proof {
            if le - i >= 7 {
                assert(l.subrange(0, 7) =~= source@.subrange(i as int, i as int + 7));
            }
            if le - i == 6 {
                assert(l =~= source@.subrange(i as int, i as int + 6));
            }
            if le - i >= 8 {
                assert(l.subrange(0, 8) =~= source@.subrange(i as int, i as int + 8));
            }
            assert(b_ifdef == is_ifdef_line(l));
            assert(b_endif == is_endif_line(l));
            assert(b_import == is_import_line(l));
        }
        if b_ifdef {
            let guard_s = source.substring_char(i + 7, le);
            proof {
                assert(guard_s@ =~= ifdef_guard(l));
            }
            if defines.contains(guard_s) {
                proof {
                    assert(rest0 == process_from(source@, defines@, nl as int, out_len as int));
                }
                i = nl;
            } else {
                let e = find_block_end(source, n, nl);
                let def_string = guard_s.to_owned();
                let ghost pre_unconf = unconfigured@;
                unconfigured.push(UnconfiguredCode { range: TextRange::new(i, e), def: def_string });
                proof {
                    let restn = process_from(source@, defines@, e as int, out_len as int);
                    assert(rest0.processed == restn.processed);
                    assert(rest0.occurrences == restn.occurrences);
                    assert(rest0.unconfigured == seq![
                        UnconfView { start: i as int, end: e as int, def: ifdef_guard(l) },
                    ] + restn.unconfigured);
                    assert(unconf_views(unconfigured@) =~= unconf_views(pre_unconf) + seq![
                        UnconfView { start: i as int, end: e as int, def: ifdef_guard(l) },
                    ]);
                    assert(unconf_views(pre_unconf) + rest0.unconfigured =~= unconf_views(
                        unconfigured@,
                    ) + restn.unconfigured);
                }
                i = e;
            }
        } else if b_endif {
            proof {
                assert(rest0 == process_from(source@, defines@, nl as int, out_len as int));
            }
            i = nl;
        } else {
            let ghost o2 = out_len as int + (nl - i);
            let ghost restn = process_from(source@, defines@, nl as int, o2);
            if b_import {
                let ident_s = source.substring_char(i + 8, le);
                proof {
                    assert(ident_s@ =~= import_ident(l));
                }
                let ghost pre_occ = occurrences@;
                occurrences.push(
                    ImportOccurrence {
                        range: TextRange::new(out_len, out_len + (le - i)),
                        identifier: ident_s.to_owned(),
                    },
                );
                proof {
                    assert(rest0.occurrences == seq![
                        OccView {
                            start: out_len as int,
                            end: out_len as int + (le - i),
                            ident: import_ident(l),
                        },
                    ] + restn.occurrences);
                    assert(occ_views(occurrences@) =~= occ_views(pre_occ) + seq![
                        OccView {
                            start: out_len as int,
                            end: out_len as int + (le - i),
                            ident: import_ident(l),
                        },
                    ]);
                    assert(occ_views(pre_occ) + rest0.occurrences =~= occ_views(occurrences@)
                        + restn.occurrences);
                }
            } else {
                proof {
                    assert(rest0.occurrences == restn.occurrences);
                }
            }
            let chunk = source.substring_char(i, nl);
            let ghost pre_text = text@;
            text.append(chunk);
            proof {
                assert(rest0.processed == source@.subrange(i as int, nl as int) + restn.processed);
                assert(rest0.unconfigured == restn.unconfigured);
                assert(pre_text + rest0.processed =~= text@ + restn.processed);
            }
            out_len = out_len + (nl - i);
            i = nl;
        }
    }
    proof {
        let restn = process_from(source@, defines@, i as int, out_len as int);
        assert(restn.processed == Seq::<char>::empty());
        assert(text@ + restn.processed =~= text@);
        assert(unconf_views(unconfigured@) + restn.unconfigured =~= unconf_views(unconfigured@));
        assert(occ_views(occurrences@) + restn.occurrences =~= occ_views(occurrences@));
        lemma_process_ranges_wf(source@, defines@);
        assert forall|k: int| 0 <= k < unconfigured@.len() implies (
        #[trigger] unconfigured@[k]).range.start < unconfigured@[k].range.end
            <= source@.len() by {
            assert(unconf_views(unconfigured@)[k] == unconfigured@[k]@);
        }
        assert forall|k: int| 0 <= k < occurrences@.len() implies (
        #[trigger] occurrences@[k]).range.start < occurrences@[k].range.end <= text@.len() by {
            assert(occ_views(occurrences@)[k] == occurrences@[k]@);
        }
    }
    Processed { text, unconfigured, occurrences }
}

/// Determinism: the preprocessor is a pure function, so running it twice on
/// unchanged inputs yields identical output triples.
pub proof fn lemma_process_deterministic(
    s1: Seq<char>,
    d1: Set<Seq<char>>,
    s2: Seq<char>,
    d2: Set<Seq<char>>,
)
    requires
        s1 == s2,
        d1 == d2,
    ensures
        process_spec(s1, d1) == process_spec(s2, d2),
{
}

/// Set-order independence: the define set is consulted only through
/// membership, so extensionally equal sets — however they were built — give
/// equal outputs.
pub proof fn lemma_process_set_independent(s: Seq<char>, d1: Set<Seq<char>>, d2: Set<Seq<char>>)
    requires
        d1 =~= d2,
    ensures
        process_spec(s, d1) == process_spec(s, d2),
{
    assert(d1 == d2);
}

proof fn lemma_process_from_wf(s: Seq<char>, defines: Set<Seq<char>>, i: int, out_len: int)
    requires
        0 <= i <= s.len(),
        0 <= out_len,
    ensures
        ({
            let r = process_from(s, defines, i, out_len);
            &&& r.processed.len() <= s.len() - i
            &&& forall|k: int|
                0 <= k < r.unconfigured.len() ==> i <= (#[trigger] r.unconfigured[k]).start
                    < r.unconfigured[k].end <= s.len()
            &&& forall|k: int|
                0 <= k < r.unconfigured.len() - 1 ==> (#[trigger] r.unconfigured[k]).end
                    <= r.unconfigured[k + 1].start
            &&& forall|k: int|
                0 <= k < r.occurrences.len() ==> out_len <= (#[trigger] r.occurrences[k]).start
                    < r.occurrences[k].end <= out_len + r.processed.len()
            &&& forall|k: int|
                0 <= k < r.occurrences.len() - 1 ==> (#[trigger] r.occurrences[k]).end
                    <= r.occurrences[k + 1].start
        }),
    decreases s.len() - i,
{
    if 0 <= i < s.len() {
        let r = process_from(s, defines, i, out_len);
        let l = line_at(s, i);
        let nl = next_line(s, i);
        lemma_line_end_bounds(s, i);
        if is_ifdef_line(l) {
            if defines.contains(ifdef_guard(l)) {
                lemma_process_from_wf(s, defines, nl, out_len);
            } else {
                let e = skip_end(s, nl);
                lemma_skip_end_bounds(s, nl);
                lemma_process_from_wf(s, defines, e, out_len);
                let rest = process_from(s, defines, e, out_len);
                assert forall|k: int| 0 <= k < r.unconfigured.len() implies i <= (
                #[trigger] r.unconfigured[k]).start < r.unconfigured[k].end <= s.len() by {
                    if k > 0 {
                        assert(r.unconfigured[k] == rest.unconfigured[k - 1]);
                    }
                }
                assert forall|k: int| 0 <= k < r.unconfigured.len() - 1 implies (
                #[trigger] r.unconfigured[k]).end <= r.unconfigured[k + 1].start by {
                    if k > 0 {
                        assert(r.unconfigured[k] == rest.unconfigured[k - 1]);
                    }
                    assert(r.unconfigured[k + 1] == rest.unconfigured[k]);
                }
            }
        } else if is_endif_line(l) {
            lemma_process_from_wf(s, defines, nl, out_len);
        } else {
            let o2 = out_len + (nl - i);
            lemma_process_from_wf(s, defines, nl, o2);
            let rest = process_from(s, defines, nl, o2);
            if is_import_line(l) {
                assert forall|k: int| 0 <= k < r.occurrences.len() implies out_len <= (
                #[trigger] r.occurrences[k]).start < r.occurrences[k].end <= out_len
                    + r.processed.len() by {
                    if k > 0 {
                        assert(r.occurrences[k] == rest.occurrences[k - 1]);
                    }
                }
                assert forall|k: int| 0 <= k < r.occurrences.len() - 1 implies (
                #[trigger] r.occurrences[k]).end <= r.occurrences[k + 1].start by {
                    if k > 0 {
                        assert(r.occurrences[k] == rest.occurrences[k - 1]);
                    }
                    assert(r.occurrences[k + 1] == rest.occurrences[k]);
                }
            } else {
                assert forall|k: int| 0 <= k < r.occurrences.len() implies out_len <= (
                #[trigger] r.occurrences[k]).start < r.occurrences[k].end <= out_len
                    + r.processed.len() by {
                    assert(r.occurrences[k] == rest.occurrences[k]);
                }
            }
        }
    }
}

/// Range validity: every elided-block range lies within the original text
/// and every occurrence range lies within the processed text; ranges are
/// non-empty, ordered by appearance, and siblings of one kind never overlap.
pub proof fn lemma_process_ranges_wf(s: Seq<char>, defines: Set<Seq<char>>)
    ensures
        ({
            let r = process_spec(s, defines);
            &&& forall|k: int|
                0 <= k < r.unconfigured.len() ==> 0 <= (#[trigger] r.unconfigured[k]).start
                    < r.unconfigured[k].end <= s.len()
            &&& forall|k: int|
                0 <= k < r.unconfigured.len() - 1 ==> (#[trigger] r.unconfigured[k]).end
                    <= r.unconfigured[k + 1].start
            &&& forall|k: int|
                0 <= k < r.occurrences.len() ==> 0 <= (#[trigger] r.occurrences[k]).start
                    < r.occurrences[k].end <= r.processed.len()
            &&& forall|k: int|
                0 <= k < r.occurrences.len() - 1 ==> (#[trigger] r.occurrences[k]).end
                    <= r.occurrences[k + 1].start
        }),
{
    lemma_process_from_wf(s, defines, 0, 0);
}

} // verus!
