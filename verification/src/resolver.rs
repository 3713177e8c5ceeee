//! The import resolver: splices import-table text into processed source.
//!
//! Occurrence ranges are fixed against the pristine processed text, so the
//! splice is one forward pass that copies untouched spans and substitutes
//! matched spans; offsets are never recomputed against an already-mutated
//! string. An occurrence whose key is absent from the table — or whose range
//! does not fit the text ahead of the cursor — is left untouched.

use crate::inputs::ImportTable;
use crate::shader_processor::occ_views;
use crate::shader_processor::ImportOccurrence;
use crate::shader_processor::OccView;
use vstd::prelude::*;
use vstd::string::*;

verus! {

/// The forward splice pass from cursor position `pos`: for each occurrence
/// in order, the text at its range is replaced by the table's value when the
/// key is present; spans between occurrences are copied unchanged.
pub open spec fn splice_from(
    text: Seq<char>,
    occs: Seq<OccView>,
    table: Map<Seq<char>, Seq<char>>,
    pos: int,
) -> Seq<char>
    decreases occs.len(),
{
    if occs.len() == 0 {
        if 0 <= pos <= text.len() {
            text.subrange(pos, text.len() as int)
        } else {
            Seq::empty()
        }
    } else {
        let o = occs[0];
        if pos <= o.start && o.start <= o.end && o.end <= text.len() {
            text.subrange(pos, o.start) + (if table.contains_key(o.ident) {
                table[o.ident]
            } else {
                text.subrange(o.start, o.end)
            }) + splice_from(text, occs.drop_first(), table, o.end)
        } else {
            splice_from(text, occs.drop_first(), table, pos)
        }
    }
}

/// The whole splice: processed text, occurrences, and table to final text.
pub open spec fn splice_spec(
    text: Seq<char>,
    occs: Seq<OccView>,
    table: Map<Seq<char>, Seq<char>>,
) -> Seq<char> {
    splice_from(text, occs, table, 0)
}

/// One forward splice pass over `text`. The result is exactly what
/// [`splice_spec`] states of the three inputs.
pub fn splice(text: &str, occurrences: &Vec<ImportOccurrence>, table: &ImportTable) -> (r: String)
    ensures
        r@ == splice_spec(text@, occ_views(occurrences@), table@),
{
    let n = text.unicode_len();
    let mut out = String::new();
    let mut pos: usize = 0;
    let mut k: usize = 0;
    proof {
        assert(occ_views(occurrences@).skip(0) =~= occ_views(occurrences@));
        assert(out@ + splice_spec(text@, occ_views(occurrences@), table@) =~= splice_spec(
            text@,
            occ_views(occurrences@),
            table@,
        ));
    }
    while k < occurrences.len()
        invariant
            n == text@.len(),
            pos <= n,
            k <= occurrences@.len(),
            splice_spec(text@, occ_views(occurrences@), table@) == out@ + splice_from(
                text@,
                occ_views(occurrences@).skip(k as int),
                table@,
                pos as int,
            ),
        decreases occurrences@.len() - k,
    {
        let ghost suffix = occ_views(occurrences@).skip(k as int);
        proof {
            assert(suffix[0] == occurrences@[k as int]@);
            assert(suffix.drop_first() =~= occ_views(occurrences@).skip(k as int + 1));
        }
        let occ = &occurrences[k];
        let start = occ.range.start;
        let end = occ.range.end;
        if pos <= start && start <= end && end <= n {
            let ghost pre = out@;
            let gap = text.substring_char(pos, start);
            out.append(gap);
            match table.get(occ.identifier.as_str()) {
                Some(value) => {
                    out.append(value.as_str());
                    proof {
                        assert(out@ == pre + (text@.subrange(pos as int, start as int)
                            + table@[occ.identifier@]));
                    }
                },
                None => {
                    let kept = text.substring_char(start, end);
                    out.append(kept);
                    proof {
                        assert(out@ == pre + (text@.subrange(pos as int, start as int)
                            + text@.subrange(start as int, end as int)));
                    }
                },
            }
            proof {
                let mid = if table@.contains_key(suffix[0].ident) {
                    table@[suffix[0].ident]
                } else {
                    text@.subrange(suffix[0].start, suffix[0].end)
                };
                assert(splice_from(text@, suffix, table@, pos as int) == text@.subrange(
                    pos as int,
                    start as int,
                ) + mid + splice_from(text@, suffix.drop_first(), table@, end as int));
                assert(pre + splice_from(text@, suffix, table@, pos as int) =~= out@ + splice_from(
                    text@,
                    suffix.drop_first(),
                    table@,
                    end as int,
                ));
            }
            pos = end;
        } else {
            proof {
                assert(splice_from(text@, suffix, table@, pos as int) == splice_from(
                    text@,
                    suffix.drop_first(),
                    table@,
                    pos as int,
                ));
            }
        }
        k += 1;
    }
    let tail = text.substring_char(pos, n);
    out.append(tail);
    proof {
        assert(occ_views(occurrences@).skip(k as int) =~= Seq::<OccView>::empty());
        assert(splice_from(text@, occ_views(occurrences@).skip(k as int), table@, pos as int)
            == text@.subrange(pos as int, n as int));
    }
    out
}

/// No-op splice: when no occurrence's key is in the table, the splice
/// returns its input unchanged, character for character.
pub proof fn lemma_splice_noop(
    text: Seq<char>,
    occs: Seq<OccView>,
    table: Map<Seq<char>, Seq<char>>,
)
    requires
        forall|k: int| 0 <= k < occs.len() ==> !table.contains_key((#[trigger] occs[k]).ident),
    ensures
        splice_spec(text, occs, table) == text,
{
    lemma_splice_noop_from(text, occs, table, 0);
    assert(text.subrange(0, text.len() as int) =~= text);
}

proof fn lemma_splice_noop_from(
    text: Seq<char>,
    occs: Seq<OccView>,
    table: Map<Seq<char>, Seq<char>>,
    pos: int,
)
    requires
        0 <= pos <= text.len(),
        forall|k: int| 0 <= k < occs.len() ==> !table.contains_key((#[trigger] occs[k]).ident),
    ensures
        splice_from(text, occs, table, pos) == text.subrange(pos, text.len() as int),
    decreases occs.len(),
{
    if occs.len() > 0 {
        let o = occs[0];
        assert forall|k: int| 0 <= k < occs.drop_first().len() implies !table.contains_key(
            (#[trigger] occs.drop_first()[k]).ident,
        ) by {
            assert(occs.drop_first()[k] == occs[k + 1]);
        }
        if pos <= o.start && o.start <= o.end && o.end <= text.len() {
            lemma_splice_noop_from(text, occs.drop_first(), table, o.end);
            assert(text.subrange(pos, o.start) + text.subrange(o.start, o.end) + text.subrange(
                o.end,
                text.len() as int,
            ) =~= text.subrange(pos, text.len() as int));
        } else {
            lemma_splice_noop_from(text, occs.drop_first(), table, pos);
        }
    }
}

} // verus!
