//! Annotated spans and the finalizing merge of a span sequence.
use vstd::prelude::*;

verus! {

/// The constructs that are delimited by an opening and a closing span.
#[derive(Clone, Copy, PartialEq, Eq, Structural, Debug)]
pub enum Container {
    Verbatim,
    Strong,
    Emph,
    Subscript,
    Superscript,
    Url,
    Email,
    Linktext,
    Imagetext,
    Reference,
    Destination,
}

/// What a span of the input stands for.
#[derive(Clone, Copy, PartialEq, Eq, Structural, Debug)]
pub enum Annot {
    Str,
    Escape,
    Hardbreak,
    Softbreak,
    Nbsp,
    Ellipses,
    FootnoteReference,
    ImageMarker,
    /// `+X`: the opening delimiter of a container
    Open(Container),
    /// `-X`: the closing delimiter of a container
    Close(Container),
}

/// A span `(start, end, annotation)` over byte offsets, `end` exclusive.
pub type Match = (usize, usize, Annot);

/// Two neighbours that the merge joins: literal text, the first ending where
/// the second starts.
pub open spec fn joinable(a: Match, b: Match) -> bool {
    a.2 == Annot::Str && b.2 == Annot::Str && a.1 == b.0
}

/// Joins runs of adjacent literal spans, left to right.
pub open spec fn merge_spans(s: Seq<Match>) -> Seq<Match>
    decreases s.len(),
{
    if s.len() == 0 {
        s
    } else {
        let m = merge_spans(s.drop_last());
        let x = s.last();
        if m.len() > 0 && joinable(m.last(), x) {
            m.update(m.len() - 1, (m.last().0, x.1, Annot::Str))
        } else {
            m.push(x)
        }
    }
}

/// The merged sequence, without a single trailing soft break.
pub open spec fn finalize_spans(s: Seq<Match>) -> Seq<Match> {
    let m = merge_spans(s);
    if m.len() > 0 && m.last().2 == Annot::Softbreak {
        m.drop_last()
    } else {
        m
    }
}

/// No two neighbours can be joined.
pub open spec fn is_merged(s: Seq<Match>) -> bool {
    forall|i: int| 0 <= i < s.len() - 1 ==> !joinable(#[trigger] s[i], s[i + 1])
}

/// After the merge no literal span has a literal neighbour that it touches.
pub proof fn lemma_merge_is_merged(s: Seq<Match>)
    ensures
        is_merged(merge_spans(s)),
        s.len() > 0 ==> merge_spans(s).len() > 0,
        s.len() > 0 ==> merge_spans(s)[0].0 == s[0].0,
    decreases s.len(),
{
    if s.len() > 0 {
        lemma_merge_is_merged(s.drop_last());
        let m = merge_spans(s.drop_last());
        if s.len() > 1 {
            assert(s.drop_last()[0] == s[0]);
        }
        let r = merge_spans(s);
        assert forall|i: int| 0 <= i < r.len() - 1 implies !joinable(#[trigger] r[i], r[i + 1]) by {
            if i < m.len() - 1 {
                assert(r[i] == m[i]);
            }
        }
    }
}

/// A merged sequence is left as it is by the merge.
pub proof fn lemma_merged_fixed(s: Seq<Match>)
    requires
        is_merged(s),
    ensures
        merge_spans(s) == s,
    decreases s.len(),
{
    if s.len() > 0 {
        let p = s.drop_last();
        assert(is_merged(p)) by {
            assert forall|i: int| 0 <= i < p.len() - 1 implies !joinable(#[trigger] p[i], p[i + 1]) by {
                assert(p[i] == s[i] && p[i + 1] == s[i + 1]);
            }
        }
        lemma_merged_fixed(p);
        if p.len() > 0 {
            assert(!joinable(s[p.len() - 1], s[p.len() as int]));
        }
        assert(p.push(s.last()) == s);
    }
}

/// Merging twice is merging once: merged literal runs have no literal
/// neighbour left to join.
pub proof fn lemma_merge_idempotent(s: Seq<Match>)
    ensures
        merge_spans(merge_spans(s)) == merge_spans(s),
{
    lemma_merge_is_merged(s);
    lemma_merged_fixed(merge_spans(s));
}

/// Finalizing the finalized sequence again changes nothing, unless that
/// sequence itself ends in a soft break (which a second run drops).
pub proof fn lemma_finalize_idempotent(s: Seq<Match>)
    requires
        finalize_spans(s).len() == 0 || finalize_spans(s).last().2 != Annot::Softbreak,
    ensures
        finalize_spans(finalize_spans(s)) == finalize_spans(s),
{
    let m = merge_spans(s);
    lemma_merge_is_merged(s);
    let f = finalize_spans(s);
    assert(is_merged(f)) by {
        assert forall|i: int| 0 <= i < f.len() - 1 implies !joinable(#[trigger] f[i], f[i + 1]) by {
            assert(f[i] == m[i] && f[i + 1] == m[i + 1]);
        }
    }
    lemma_merged_fixed(f);
}

/// The spans lie end to end, each non-empty, from `lo` to `hi`.
pub open spec fn tiles(s: Seq<Match>, lo: int, hi: int) -> bool
    decreases s.len(),
{
    if s.len() == 0 {
        lo == hi
    } else {
        &&& tiles(s.drop_last(), lo, s.last().0 as int)
        &&& s.last().0 < s.last().1
        &&& s.last().1 == hi
    }
}

/// Merging keeps a tiling: spans that lie end to end over `[lo, hi)` still
/// do so, with no gap and no overlap, once adjacent literal runs are joined.
pub proof fn lemma_merge_keeps_tiling(s: Seq<Match>, lo: int, hi: int)
    requires
        tiles(s, lo, hi),
    ensures
        tiles(merge_spans(s), lo, hi),
    decreases s.len(),
{
    if s.len() > 0 {
        let x = s.last();
        lemma_merge_keeps_tiling(s.drop_last(), lo, x.0 as int);
        let m = merge_spans(s.drop_last());
        if m.len() > 0 && joinable(m.last(), x) {
            let n = m.update(m.len() - 1, (m.last().0, x.1, Annot::Str));
            assert(n.drop_last() =~= m.drop_last());
        } else {
            assert(m.push(x).drop_last() =~= m);
        }
    }
}

/// The spans that are not literal text, in order.
pub open spec fn marked_spans(s: Seq<Match>) -> Seq<Match>
    decreases s.len(),
{
    if s.len() == 0 {
        s
    } else if s.last().2 == Annot::Str {
        marked_spans(s.drop_last())
    } else {
        marked_spans(s.drop_last()).push(s.last())
    }
}

/// Merging touches literal text only: the spans that are not literal text,
/// openers and closers among them, come out as they went in and in the same
/// order, so whatever nesting they had is kept.
pub proof fn lemma_merge_keeps_marked(s: Seq<Match>)
    ensures
        marked_spans(merge_spans(s)) == marked_spans(s),
    decreases s.len(),
{
    if s.len() > 0 {
        let x = s.last();
        lemma_merge_keeps_marked(s.drop_last());
        let m = merge_spans(s.drop_last());
        if m.len() > 0 && joinable(m.last(), x) {
            let n = m.update(m.len() - 1, (m.last().0, x.1, Annot::Str));
            assert(n.drop_last() =~= m.drop_last());
        } else {
            assert(m.push(x).drop_last() =~= m);
        }
    }
}

/// Every span covers at least one byte.
pub open spec fn all_nonempty(s: Seq<Match>) -> bool {
    forall|i: int| 0 <= i < s.len() ==> (#[trigger] s[i]).0 < s[i].1
}

/// Merging and finalizing keep every span non-empty.
pub proof fn lemma_finalize_keeps_nonempty(s: Seq<Match>)
    requires
        all_nonempty(s),
    ensures
        all_nonempty(merge_spans(s)),
        all_nonempty(finalize_spans(s)),
    decreases s.len(),
{
    if s.len() > 0 {
        let p = s.drop_last();
        assert(all_nonempty(p)) by {
            assert forall|i: int| 0 <= i < p.len() implies (#[trigger] p[i]).0 < p[i].1 by {
                assert(p[i] == s[i]);
            }
        }
        lemma_finalize_keeps_nonempty(p);
        assert(s.last().0 < s.last().1) by {
            assert(s[s.len() - 1].0 < s[s.len() - 1].1);
        }
        let m = merge_spans(p);
        let r = merge_spans(s);
        assert forall|i: int| 0 <= i < r.len() implies (#[trigger] r[i]).0 < r[i].1 by {
            if i < m.len() {
                assert(m[i].0 < m[i].1);
            }
        }
    }
    let m = merge_spans(s);
    let f = finalize_spans(s);
    assert forall|i: int| 0 <= i < f.len() implies (#[trigger] f[i]).0 < f[i].1 by {
        assert(f[i] == m[i]);
    }
}

} // verus!
