//! The inline scanner: one left-to-right pass that records annotated spans in
//! a store keyed by start offset, resolving delimiters with per-byte stacks of
//! openers.
use vstd::prelude::*;
use vstd::string::StrSliceExecFns;
use vstd::utf8::{encode_utf8, is_ascii_chars, is_ascii_chars_encode_utf8};
use crate::patterns::{
    CARET, CR, LF, LT, RBRACKET, SPACE, TAB, ByteClass, autolink_end, byte_at, class_has, email_at, find_autolink, find_footnote,
    find_line_break, footnote_end, has_byte, has_email, has_scheme, is_punct, is_punct_byte,
    lemma_run_end, line_break_end, non_space, non_space_at,
    run_end, scan, scheme_at,
};
use crate::span::{
    Annot, Container, Match, all_nonempty, finalize_spans, lemma_finalize_keeps_nonempty,
    merge_spans,
};

verus! {

pub const UNDERSCORE: u8 = 95;
pub const STAR: u8 = 42;
pub const TILDE: u8 = 126;
pub const LBRACKET: u8 = 91;
pub const LPAREN: u8 = 40;
pub const RPAREN: u8 = 41;
pub const BACKTICK: u8 = 96;
pub const BACKSLASH: u8 = 92;
pub const PERIOD: u8 = 46;
pub const BANG: u8 = 33;
pub const RBRACE: u8 = 125;

/// The delimiter bytes that have a stack of openers.
pub open spec fn has_stack(c: u8) -> bool {
    c == UNDERSCORE || c == STAR || c == TILDE || c == CARET || c == LBRACKET || c == LPAREN
}

/// The store of spans: at most one span per start offset.
pub struct SpanStore {
    slots: Vec<Option<Match>>,
}

/// A span that starts at `k` and ends after it, within `len`.
pub open spec fn slot_ok(o: Option<Match>, k: int, len: int) -> bool {
    match o {
        Some(m) => m.0 == k && k < m.1 <= len,
        None => true,
    }
}

/// A span that ends by `hi` turned into literal text, unless it is literal or
/// an escape already.
pub open spec fn demote(o: Option<Match>, hi: int) -> Option<Match> {
    match o {
        Some(m) => if m.2 != Annot::Str && m.2 != Annot::Escape && m.1 <= hi {
            Some((m.0, m.1, Annot::Str))
        } else {
            o
        },
        None => o,
    }
}

/// The store with each span that lies within `[lo, hi)` demoted to literal
/// text.
pub open spec fn demote_range(slots: Seq<Option<Match>>, lo: int, hi: int) -> Seq<Option<Match>> {
    Seq::new(slots.len(), |k: int| if lo <= k < hi { demote(slots[k], hi) } else { slots[k] })
}

impl SpanStore {
    pub closed spec fn view(&self) -> Seq<Option<Match>> {
        self.slots@
    }

    pub open spec fn wf(&self, len: nat) -> bool {
        &&& self@.len() == len
        &&& forall|k: int| 0 <= k < len ==> slot_ok(#[trigger] self@[k], k, len as int)
    }

    pub fn new(len: usize) -> (r: SpanStore)
        ensures
            r.wf(len as nat),
            forall|k: int| 0 <= k < len ==> (#[trigger] r@[k]).is_none(),
    {
        let mut slots: Vec<Option<Match>> = Vec::new();
        let mut i: usize = 0;
        while i < len
            invariant
                i <= len,
                slots@.len() == i,
                forall|k: int| 0 <= k < i ==> (#[trigger] slots@[k]).is_none(),
            decreases len - i,
        {
            slots.push(None);
            i = i + 1;
        }
        SpanStore { slots }
    }

    pub fn len(&self) -> (r: usize)
        ensures
            r == self@.len(),
    {
        self.slots.len()
    }

    pub fn get(&self, k: usize) -> (r: Option<Match>)
        ensures
            r == if k < self@.len() {
                self@[k as int]
            } else {
                None
            },
    {
        if k < self.slots.len() {
            self.slots[k]
        } else {
            None
        }
    }

    /// Records `(startpos, endpos, annotation)`, replacing any span that
    /// starts at `startpos`.
    pub fn add_match(&mut self, startpos: usize, endpos: usize, annotation: Annot)
        requires
            old(self).wf(old(self)@.len()),
            startpos < endpos <= old(self)@.len(),
        ensures
            final(self)@ == old(self)@.update(
                startpos as int,
                Some((startpos, endpos, annotation)),
            ),
            final(self).wf(old(self)@.len()),
    {
        self.slots.set(startpos, Some((startpos, endpos, annotation)));
        proof {
            let len = old(self)@.len();
            assert forall|k: int| 0 <= k < len implies slot_ok(#[trigger] self@[k], k, len as int) by {
                if k != startpos {
                    assert(self@[k] == old(self)@[k]);
                }
            }
        }
    }

    /// Removes the span that starts at `k`.
    pub fn remove(&mut self, k: usize)
        requires
            old(self).wf(old(self)@.len()),
            k < old(self)@.len(),
        ensures
            final(self)@ == old(self)@.update(k as int, None),
            final(self).wf(old(self)@.len()),
    {
        self.slots.set(k, None);
        proof {
            let len = old(self)@.len();
            assert forall|j: int| 0 <= j < len implies slot_ok(#[trigger] self@[j], j, len as int) by {
                if j != k {
                    assert(self@[j] == old(self)@[j]);
                }
            }
        }
    }

    /// Turns each span that lies within `[startpos, endpos)` into literal
    /// text, escapes aside.
    pub fn str_matches(&mut self, startpos: usize, endpos: usize)
        requires
            old(self).wf(old(self)@.len()),
        ensures
            final(self).wf(old(self)@.len()),
            final(self)@ == demote_range(old(self)@, startpos as int, endpos as int),
    {
        let len = self.slots.len();
        let mut i: usize = startpos;
        while i < endpos && i < len
            invariant
                self.wf(len as nat),
                len == old(self)@.len(),
                startpos <= i,
                i == startpos || i <= endpos,
                forall|k: int|
                    0 <= k < len ==> #[trigger] self@[k] == if startpos <= k < i {
                        demote(old(self)@[k], endpos as int)
                    } else {
                        old(self)@[k]
                    },
            decreases len - i,
        {
            if let Some(m) = self.slots[i] {
                if m.2 != Annot::Str && m.2 != Annot::Escape && m.1 <= endpos {
                    self.add_match(m.0, m.1, Annot::Str);
                }
            }
            i = i + 1;
        }
        proof {
            assert(self@ =~= demote_range(old(self)@, startpos as int, endpos as int));
        }
    }

    /// The start of the last span that starts before `pos`.
    pub fn last_before(&self, pos: usize) -> (r: Option<usize>)
        requires
            pos <= self@.len(),
        ensures
            r matches Some(k) ==> last_slot_before(self@, pos as int) == Some(k as int),
            r is None ==> last_slot_before(self@, pos as int) is None,
            match r {
                Some(k) => k < pos && self@[k as int].is_some() && forall|j: int|
                    k < j < pos ==> (#[trigger] self@[j]).is_none(),
                None => forall|j: int| 0 <= j < pos ==> (#[trigger] self@[j]).is_none(),
            },
    {
        let mut k: usize = pos;
        while k > 0
            invariant
                k <= pos <= self@.len(),
                last_slot_before(self@, k as int) == last_slot_before(self@, pos as int),
                forall|j: int| k <= j < pos ==> (#[trigger] self@[j]).is_none(),
            decreases k,
        {
            if self.slots[k - 1].is_some() {
                return Some(k - 1);
            }
            k = k - 1;
        }
        None
    }
}


/// How far a bracket opener has been recognised as a link.
#[derive(Clone, Copy, PartialEq, Eq, Structural, Debug)]
pub enum OpenerKind {
    Plain,
    /// `[text][` seen: a reference-style link or image
    ReferenceLink,
    /// `[text](` seen: a link or image with an inline destination
    ExplicitLink,
}

/// A candidate opening delimiter: its literal range `spos..epos`, and for a
/// bracket refined into a link, the range `subspos..subepos` of the `][` or
/// `](` that follows the text.
#[derive(Clone, Copy, PartialEq, Eq, Structural, Debug)]
pub struct Opener {
    pub spos: usize,
    pub epos: usize,
    pub annot: OpenerKind,
    pub subspos: usize,
    pub subepos: usize,
}

impl Opener {
    pub fn new(spos: usize, epos: usize) -> (r: Opener)
        ensures
            r == (Opener { spos, epos, annot: OpenerKind::Plain, subspos: 0, subepos: 0 }),
    {
        Opener { spos, epos, annot: OpenerKind::Plain, subspos: 0, subepos: 0 }
    }
}

/// An opener whose offsets lie within a text of length `len`.
pub open spec fn opener_ok(o: Opener, len: int) -> bool {
    &&& o.spos < o.epos <= len
    &&& o.annot != OpenerKind::Plain ==> o.subspos + 2 == o.subepos <= len
}

pub open spec fn all_ok(s: Seq<Opener>, len: int) -> bool {
    forall|i: int| 0 <= i < s.len() ==> opener_ok(#[trigger] s[i], len)
}

/// An opener whose literal range lies within `[lo, hi]`.
pub open spec fn inside(o: Opener, lo: int, hi: int) -> bool {
    lo <= o.spos && o.epos <= hi
}

/// The stack without the openers inside `[lo, hi]`, order kept.
pub open spec fn keep_outside(s: Seq<Opener>, lo: int, hi: int) -> Seq<Opener>
    decreases s.len(),
{
    if s.len() == 0 {
        s
    } else {
        let r = keep_outside(s.drop_last(), lo, hi);
        if inside(s.last(), lo, hi) {
            r
        } else {
            r.push(s.last())
        }
    }
}

proof fn lemma_keep_outside_ok(s: Seq<Opener>, lo: int, hi: int, len: int)
    requires
        all_ok(s, len),
    ensures
        all_ok(keep_outside(s, lo, hi), len),
        keep_outside(s, lo, hi).len() <= s.len(),
    decreases s.len(),
{
    if s.len() > 0 {
        let p = s.drop_last();
        assert(all_ok(p, len)) by {
            assert forall|i: int| 0 <= i < p.len() implies opener_ok(#[trigger] p[i], len) by {
                assert(p[i] == s[i]);
            }
        }
        lemma_keep_outside_ok(p, lo, hi, len);
        assert(opener_ok(s[s.len() - 1], len));
    }
}

/// Drops from `v` the openers inside `[lo, hi]`.
fn retain_outside(v: &mut Vec<Opener>, lo: usize, hi: usize)
    ensures
        final(v)@ == keep_outside(old(v)@, lo as int, hi as int),
{
    let mut out: Vec<Opener> = Vec::new();
    let mut i: usize = 0;
    while i < v.len()
        invariant
            i <= v@.len(),
            v@ == old(v)@,
            out@ == keep_outside(v@.subrange(0, i as int), lo as int, hi as int),
        decreases v@.len() - i,
    {
        let o = v[i];
        proof {
            assert(v@.subrange(0, i + 1).drop_last() == v@.subrange(0, i as int));
        }
        if !(lo <= o.spos && o.epos <= hi) {
            out.push(o);
        }
        i = i + 1;
    }
    proof {
        assert(v@.subrange(0, v@.len() as int) == v@);
    }
    *v = out;
}

/// One stack of openers for each delimiter byte that has one.
pub struct Openers {
    emph: Vec<Opener>,
    strong: Vec<Opener>,
    sub: Vec<Opener>,
    sup: Vec<Opener>,
    bracket: Vec<Opener>,
    paren: Vec<Opener>,
}

impl Openers {
    pub closed spec fn stack(&self, c: u8) -> Seq<Opener> {
        if c == UNDERSCORE {
            self.emph@
        } else if c == STAR {
            self.strong@
        } else if c == TILDE {
            self.sub@
        } else if c == CARET {
            self.sup@
        } else if c == LBRACKET {
            self.bracket@
        } else if c == LPAREN {
            self.paren@
        } else {
            Seq::empty()
        }
    }

    pub open spec fn wf(&self, len: int) -> bool {
        forall|c: u8| #[trigger] has_stack(c) ==> all_ok(self.stack(c), len)
    }

    /// Every stack empty.
    pub open spec fn is_empty(&self) -> bool {
        forall|c: u8| #[trigger] self.stack(c).len() == 0
    }

    pub fn new() -> (r: Openers)
        ensures
            r.is_empty(),
    {
        Openers {
            emph: Vec::new(),
            strong: Vec::new(),
            sub: Vec::new(),
            sup: Vec::new(),
            bracket: Vec::new(),
            paren: Vec::new(),
        }
    }

    /// The most recently pushed opener for `c`.
    pub fn top(&self, c: u8) -> (r: Option<Opener>)
        ensures
            r == if self.stack(c).len() > 0 {
                Some(self.stack(c).last())
            } else {
                None
            },
    {
        let v = if c == UNDERSCORE {
            &self.emph
        } else if c == STAR {
            &self.strong
        } else if c == TILDE {
            &self.sub
        } else if c == CARET {
            &self.sup
        } else if c == LBRACKET {
            &self.bracket
        } else if c == LPAREN {
            &self.paren
        } else {
            return None;
        };
        if v.len() > 0 {
            Some(v[v.len() - 1])
        } else {
            None
        }
    }

    pub fn add_opener(&mut self, c: u8, opener: Opener)
        requires
            has_stack(c),
        ensures
            forall|len: int| #[trigger]
                old(self).wf(len) && opener_ok(opener, len) ==> final(self).wf(len),
            forall|d: u8|
                #[trigger] final(self).stack(d) == if d == c {
                    old(self).stack(d).push(opener)
                } else {
                    old(self).stack(d)
                },
    {
        if c == UNDERSCORE {
            self.emph.push(opener)
        } else if c == STAR {
            self.strong.push(opener)
        } else if c == TILDE {
            self.sub.push(opener)
        } else if c == CARET {
            self.sup.push(opener)
        } else if c == LBRACKET {
            self.bracket.push(opener)
        } else {
            self.paren.push(opener)
        }
        proof {
            assert forall|len: int| #[trigger]
                old(self).wf(len) && opener_ok(opener, len) implies self.wf(len) by {
                assert forall|d: u8| #[trigger] has_stack(d) implies all_ok(self.stack(d), len) by {
                    assert(all_ok(old(self).stack(d), len));
                    assert forall|i: int| 0 <= i < self.stack(d).len() implies opener_ok(#[trigger] self.stack(d)[i], len) by {
                        if d == c && i < self.stack(d).len() - 1 {
                            assert(self.stack(d)[i] == old(self).stack(d)[i]);
                        }
                    }
                }
            }
        }
    }

    /// Replaces the top bracket opener.
    pub fn set_top_bracket(&mut self, opener: Opener)
        requires
            old(self).stack(LBRACKET).len() > 0,
        ensures
            forall|len: int| #[trigger]
                old(self).wf(len) && opener_ok(opener, len) ==> final(self).wf(len),
            forall|d: u8|
                #[trigger] final(self).stack(d) == if d == LBRACKET {
                    old(self).stack(d).update(old(self).stack(d).len() - 1, opener)
                } else {
                    old(self).stack(d)
                },
    {
        let n = self.bracket.len() - 1;
        self.bracket.set(n, opener);
        proof {
            assert forall|len: int| #[trigger]
                old(self).wf(len) && opener_ok(opener, len) implies self.wf(len) by {
                assert forall|d: u8| #[trigger] has_stack(d) implies all_ok(self.stack(d), len) by {
                    assert(all_ok(old(self).stack(d), len));
                    assert forall|i: int| 0 <= i < self.stack(d).len() implies opener_ok(#[trigger] self.stack(d)[i], len) by {
                        if d == LBRACKET && i < n {
                            assert(self.stack(d)[i] == old(self).stack(d)[i]);
                        }
                    }
                }
            }
        }
    }

    /// Pops the top parenthesis opener.
    pub fn pop_paren(&mut self)
        requires
            old(self).stack(LPAREN).len() > 0,
        ensures
            forall|len: int| #[trigger] old(self).wf(len) ==> final(self).wf(len),
            forall|d: u8|
                #[trigger] final(self).stack(d) == if d == LPAREN {
                    old(self).stack(d).drop_last()
                } else {
                    old(self).stack(d)
                },
    {
        self.paren.pop();
        proof {
            assert forall|len: int| #[trigger] old(self).wf(len) implies self.wf(len) by {
                assert forall|d: u8| #[trigger] has_stack(d) implies all_ok(self.stack(d), len) by {
                    assert(all_ok(old(self).stack(d), len));
                    assert forall|i: int| 0 <= i < self.stack(d).len() implies opener_ok(#[trigger] self.stack(d)[i], len) by {
                        assert(self.stack(d)[i] == old(self).stack(d)[i]);
                    }
                }
            }
        }
    }

    /// Empties the parenthesis stack.
    pub fn clear_parens(&mut self)
        ensures
            forall|len: int| #[trigger] old(self).wf(len) ==> final(self).wf(len),
            forall|d: u8|
                #[trigger] final(self).stack(d) == if d == LPAREN {
                    Seq::<Opener>::empty()
                } else {
                    old(self).stack(d)
                },
    {
        self.paren = Vec::new();
        proof {
            assert forall|len: int| #[trigger] old(self).wf(len) implies self.wf(len) by {
                assert forall|d: u8| #[trigger] has_stack(d) implies all_ok(self.stack(d), len) by {
                    assert(all_ok(old(self).stack(d), len));
                }
            }
        }
    }

    /// Discards, from every stack, the openers inside `[startpos, endpos]`.
    pub fn clear_openers(&mut self, startpos: usize, endpos: usize)
        ensures
            forall|d: u8|
                #[trigger] final(self).stack(d) == keep_outside(
                    old(self).stack(d),
                    startpos as int,
                    endpos as int,
                ),
    {
        retain_outside(&mut self.emph, startpos, endpos);
        retain_outside(&mut self.strong, startpos, endpos);
        retain_outside(&mut self.sub, startpos, endpos);
        retain_outside(&mut self.sup, startpos, endpos);
        retain_outside(&mut self.bracket, startpos, endpos);
        retain_outside(&mut self.paren, startpos, endpos);
    }
}


/// The spans stored in `slots[lo..hi)`, in ascending offset order.
pub open spec fn collected(slots: Seq<Option<Match>>, lo: int, hi: int) -> Seq<Match>
    decreases hi - lo,
{
    if hi <= lo {
        Seq::empty()
    } else {
        let r = collected(slots, lo, hi - 1);
        match slots[hi - 1] {
            Some(m) => r.push(m),
            None => r,
        }
    }
}

/// Spans collected from slots that each hold a non-empty span are non-empty.
proof fn lemma_collected_nonempty(slots: Seq<Option<Match>>, lo: int, hi: int)
    requires
        forall|k: int| lo <= k < hi ==> match #[trigger] slots[k] {
            Some(m) => m.0 < m.1,
            None => true,
        },
    ensures
        all_nonempty(collected(slots, lo, hi)),
    decreases hi - lo,
{
    if hi > lo {
        lemma_collected_nonempty(slots, lo, hi - 1);
        let r = collected(slots, lo, hi - 1);
        let c = collected(slots, lo, hi);
        assert(match slots[hi - 1] {
            Some(m) => m.0 < m.1,
            None => true,
        });
        assert forall|i: int| 0 <= i < c.len() implies (#[trigger] c[i]).0 < c[i].1 by {
            if i < r.len() {
                assert(c[i] == r[i]);
            }
        }
    }
}

/// The session finalizer: merges adjacent literal spans and drops a single
/// trailing soft break.
pub fn finalize(spans: &Vec<Match>) -> (r: Vec<Match>)
    ensures
        r@ == finalize_spans(spans@),
{
    let mut sorted: Vec<Match> = Vec::new();
    let mut i: usize = 0;
    while i < spans.len()
        invariant
            i <= spans@.len(),
            sorted@ == merge_spans(spans@.subrange(0, i as int)),
        decreases spans@.len() - i,
    {
        let (sp, ep, annot) = spans[i];
        proof {
            assert(spans@.subrange(0, i + 1).drop_last() == spans@.subrange(0, i as int));
        }
        let n = sorted.len();
        if n > 0 && annot == Annot::Str && sorted[n - 1].2 == Annot::Str && sorted[n - 1].1 == sp {
            let (lsp, _, _) = sorted[n - 1];
            sorted.set(n - 1, (lsp, ep, Annot::Str));
        } else {
            sorted.push((sp, ep, annot));
        }
        i = i + 1;
    }
    proof {
        assert(spans@.subrange(0, spans@.len() as int) == spans@);
    }
    let n = sorted.len();
    if n > 0 && sorted[n - 1].2 == Annot::Softbreak {
        sorted.pop();
    }
    sorted
}

/// The start of the last span stored before offset `pos`.
pub open spec fn last_slot_before(slots: Seq<Option<Match>>, pos: int) -> Option<int>
    decreases pos,
{
    if pos <= 0 {
        None
    } else if slots[pos - 1].is_some() {
        Some(pos - 1)
    } else {
        last_slot_before(slots, pos - 1)
    }
}

/// `ep` moved back over the spaces and tabs that end `s[sp..ep)`.
pub open spec fn trim_end(s: Seq<u8>, sp: int, ep: int) -> int
    decreases ep - sp,
{
    if ep > sp && (s[ep - 1] == SPACE || s[ep - 1] == TAB) {
        trim_end(s, sp, ep - 1)
    } else {
        ep
    }
}

/// The store after a hard break at `pos`: where the last span before `pos`
/// is literal text that ends at `pos`, its trailing blanks are cut off, and
/// it is dropped if nothing else is left.
pub open spec fn trimmed_before(slots: Seq<Option<Match>>, s: Seq<u8>, pos: int) -> Seq<
    Option<Match>,
> {
    match last_slot_before(slots, pos) {
        Some(k) => match slots[k] {
            Some(m) => if m.2 == Annot::Str && m.1 == pos {
                let e = trim_end(s, m.0 as int, m.1 as int);
                if e == m.0 {
                    slots.update(k, None)
                } else {
                    slots.update(k, Some((m.0, e as usize, Annot::Str)))
                }
            } else {
                slots
            },
            None => slots,
        },
        None => slots,
    }
}

/// A closing marker `}` right after the delimiter at `pos`, within the range
/// being scanned.
pub open spec fn close_marker(s: Seq<u8>, pos: int, endpos: int) -> bool {
    pos + 1 < endpos && byte_at(s, pos + 1, RBRACE)
}

/// The delimiter at `pos` may close: it follows non-whitespace, or a closing
/// marker follows it.
pub open spec fn can_close(s: Seq<u8>, pos: int, endpos: int) -> bool {
    close_marker(s, pos, endpos) || non_space_at(s, pos - 1)
}

/// The delimiter at `pos` may open: no closing marker follows it, and
/// non-whitespace does.
pub open spec fn can_open(s: Seq<u8>, pos: int, endpos: int) -> bool {
    !close_marker(s, pos, endpos) && non_space_at(s, pos + 1)
}

/// The store after the text part of a link or image with opener `o` is
/// marked: the `!` before an image, the opening bracket, and the closing
/// bracket at `o.subspos`.
pub open spec fn link_marked(slots: Seq<Option<Match>>, s: Seq<u8>, o: Opener) -> Seq<
    Option<Match>,
> {
    if o.spos > 0 && s[o.spos - 1] == BANG {
        slots.update(o.spos - 1, Some(((o.spos - 1) as usize, o.spos, Annot::ImageMarker))).update(
            o.spos as int,
            Some((o.spos, o.epos, Annot::Open(Container::Imagetext))),
        ).update(
            o.subspos as int,
            Some((o.subspos, (o.subspos + 1) as usize, Annot::Close(Container::Imagetext))),
        )
    } else {
        slots.update(o.spos as int, Some((o.spos, o.epos, Annot::Open(Container::Linktext)))).update(
            o.subspos as int,
            Some((o.subspos, (o.subspos + 1) as usize, Annot::Close(Container::Linktext))),
        )
    }
}

/// The opener stacks, one per delimiter byte.
pub struct OpenerStacks {
    pub emph: Seq<Opener>,
    pub strong: Seq<Opener>,
    pub sub: Seq<Opener>,
    pub sup: Seq<Opener>,
    pub bracket: Seq<Opener>,
    pub paren: Seq<Opener>,
}

impl OpenerStacks {
    pub open spec fn get(self, c: u8) -> Seq<Opener> {
        if c == UNDERSCORE {
            self.emph
        } else if c == STAR {
            self.strong
        } else if c == TILDE {
            self.sub
        } else if c == CARET {
            self.sup
        } else if c == LBRACKET {
            self.bracket
        } else if c == LPAREN {
            self.paren
        } else {
            Seq::empty()
        }
    }

    /// The stack of `c` replaced by `st`.
    pub open spec fn set(self, c: u8, st: Seq<Opener>) -> OpenerStacks {
        OpenerStacks {
            emph: if c == UNDERSCORE { st } else { self.emph },
            strong: if c == STAR { st } else { self.strong },
            sub: if c == TILDE { st } else { self.sub },
            sup: if c == CARET { st } else { self.sup },
            bracket: if c == LBRACKET { st } else { self.bracket },
            paren: if c == LPAREN { st } else { self.paren },
        }
    }

    /// Every stack without its openers inside `[lo, hi]`.
    pub open spec fn keep(self, lo: int, hi: int) -> OpenerStacks {
        OpenerStacks {
            emph: keep_outside(self.emph, lo, hi),
            strong: keep_outside(self.strong, lo, hi),
            sub: keep_outside(self.sub, lo, hi),
            sup: keep_outside(self.sup, lo, hi),
            bracket: keep_outside(self.bracket, lo, hi),
            paren: keep_outside(self.paren, lo, hi),
        }
    }
}

/// What a scan step reads and writes: the span store, the opener stacks, the
/// length of the backtick run that closes the open code span (0 when none is
/// open), and whether a link destination is open.
pub struct Model {
    pub slots: Seq<Option<Match>>,
    pub stacks: OpenerStacks,
    pub verbatim: usize,
    pub verbatim_start: usize,
    pub destination: bool,
}

/// `m` with the span `sp` recorded at its start.
pub open spec fn put(m: Model, sp: Match) -> Model {
    Model { slots: m.slots.update(sp.0 as int, Some(sp)), ..m }
}

/// `m` with `o` pushed on the stack of `c`.
pub open spec fn push_opener(m: Model, c: u8, o: Opener) -> Model {
    Model { stacks: m.stacks.set(c, m.stacks.get(c).push(o)), ..m }
}

/// A fresh opener for the delimiter byte at `pos`.
pub open spec fn plain_opener(pos: usize) -> Opener {
    Opener { spos: pos, epos: (pos + 1) as usize, annot: OpenerKind::Plain, subspos: 0, subepos: 0 }
}

/// Delimiter-pair resolution for the byte `c` at `pos` with target
/// `annotation`, and the offset where the scan goes on: close the most recent
/// opener for `c` when the delimiter may close and the pair would not be
/// empty (the opener does not end where the closer starts); else push an
/// opener when it may open; the delimiter is literal text until a closer
/// promotes its opener.
pub open spec fn pair(
    m: Model,
    s: Seq<u8>,
    pos: usize,
    endpos: usize,
    c: u8,
    annotation: Container,
) -> (Model, usize) {
    let endcloser: usize = if close_marker(s, pos as int, endpos as int) {
        (pos + 1) as usize
    } else {
        pos
    };
    let st = m.stacks.get(c);
    if can_close(s, pos as int, endpos as int) && st.len() > 0 && st.last().epos != pos {
        let o = st.last();
        (
            put(
                put(
                    Model { stacks: m.stacks.keep(o.spos as int, pos as int), ..m },
                    (o.spos, o.epos, Annot::Open(annotation)),
                ),
                (pos, (endcloser + 1) as usize, Annot::Close(annotation)),
            ),
            (endcloser + 1) as usize,
        )
    } else if can_open(s, pos as int, endpos as int) {
        (
            put(push_opener(m, c, plain_opener(pos)), (pos, (pos + 1) as usize, Annot::Str)),
            (pos + 1) as usize,
        )
    } else {
        (put(m, (pos, (endcloser + 1) as usize, Annot::Str)), (endcloser + 1) as usize)
    }
}

/// A link or image whose opener is `o` completes at the closer at `pos`:
/// its text is marked, `open`/`close` bracket the part after the text, the
/// spans inside that part become literal, and the openers inside are dropped.
pub open spec fn finish_link(
    m: Model,
    s: Seq<u8>,
    o: Opener,
    pos: usize,
    part: Container,
) -> Model {
    Model {
        slots: demote_range(
            link_marked(m.slots, s, o).update(
                o.subepos - 1,
                Some(((o.subepos - 1) as usize, o.subepos, Annot::Open(part))),
            ).update(pos as int, Some((pos, (pos + 1) as usize, Annot::Close(part)))),
            o.subepos as int,
            pos as int,
        ),
        stacks: m.stacks.keep(o.spos as int, pos as int),
        ..m
    }
}

/// The scan is past the text of a link: the top bracket opener has been
/// refined, and its reference key or destination is being read.
pub open spec fn in_link_tail(m: Model) -> bool {
    m.stacks.get(LBRACKET).len() > 0 && m.stacks.get(LBRACKET).last().annot != OpenerKind::Plain
}

/// What the special byte `c` at `pos` does, outside a code span: the new
/// state and where the scan goes on, or `None` where nothing matches (the
/// byte is then literal, and the state is as it was).
pub open spec fn dispatch(m: Model, s: Seq<u8>, c: u8, pos: usize, endpos: usize) -> (
    Model,
    Option<usize>,
) {
    if c == BACKTICK {
        let e = run_end(s, pos as int, ByteClass::Is(BACKTICK));
        if e <= endpos {
            (
                Model {
                    verbatim: (e - pos) as usize,
                    verbatim_start: pos,
                    ..put(m, (pos, e as usize, Annot::Open(Container::Verbatim)))
                },
                Some(e as usize),
            )
        } else {
            (m, None)
        }
    } else if c == BACKSLASH {
        match line_break_end(s, pos + 1) {
            Some(e) if e <= endpos => (
                put(
                    Model {
                        slots: trimmed_before(
                            m.slots.update(pos as int, Some((pos, (pos + 1) as usize, Annot::Escape))),
                            s,
                            pos as int,
                        ),
                        ..m
                    },
                    ((pos + 1) as usize, e as usize, Annot::Hardbreak),
                ),
                Some(e as usize),
            ),
            _ => if pos + 2 <= endpos && (s[pos + 1] == SPACE || is_punct(s[pos + 1])) {
                (
                    put(
                        put(m, (pos, (pos + 1) as usize, Annot::Escape)),
                        (
                            (pos + 1) as usize,
                            (pos + 2) as usize,
                            if s[pos + 1] == SPACE {
                                Annot::Nbsp
                            } else {
                                Annot::Str
                            },
                        ),
                    ),
                    Some((pos + 2) as usize),
                )
            } else {
                (put(m, (pos, (pos + 1) as usize, Annot::Str)), Some((pos + 1) as usize))
            },
        }
    } else if c == LT {
        match autolink_end(s, pos as int) {
            Some(e) => if e <= endpos && (email_at(s, pos + 1, e - 1) || scheme_at(s, pos + 1, e)) {
                let k = if email_at(s, pos + 1, e - 1) {
                    Container::Email
                } else {
                    Container::Url
                };
                (
                    put(
                        put(
                            put(m, (pos, (pos + 1) as usize, Annot::Open(k))),
                            ((pos + 1) as usize, (e - 1) as usize, Annot::Str),
                        ),
                        ((e - 1) as usize, e as usize, Annot::Close(k)),
                    ),
                    Some(e as usize),
                )
            } else {
                (m, None)
            },
            None => (m, None),
        }
    } else if c == TILDE || c == CARET || c == UNDERSCORE || c == STAR {
        if in_link_tail(m) {
            // inside a reference key or a destination, delimiters are literal
            (m, None)
        } else {
        let a = if c == TILDE {
            Container::Subscript
        } else if c == CARET {
            Container::Superscript
        } else if c == UNDERSCORE {
            Container::Emph
        } else {
            Container::Strong
        };
        let (m2, r) = pair(m, s, pos, endpos, c, a);
        (m2, Some(r))
        }
    } else if c == LBRACKET {
        match footnote_end(s, pos + 1) {
            Some(e) if e <= endpos => (
                put(m, (pos, e as usize, Annot::FootnoteReference)),
                Some(e as usize),
            ),
            _ => (
                put(
                    push_opener(m, LBRACKET, plain_opener(pos)),
                    (pos, (pos + 1) as usize, Annot::Str),
                ),
                Some((pos + 1) as usize),
            ),
        }
    } else if c == RBRACKET {
        let st = m.stacks.get(LBRACKET);
        if st.len() == 0 {
            (m, None)
        } else if st.last().annot == OpenerKind::ReferenceLink {
            (finish_link(m, s, st.last(), pos, Container::Reference), Some((pos + 1) as usize))
        } else if pos + 1 < endpos && (s[pos + 1] == LBRACKET || s[pos + 1] == LPAREN) {
            let o = Opener {
                annot: if s[pos + 1] == LBRACKET {
                    OpenerKind::ReferenceLink
                } else {
                    OpenerKind::ExplicitLink
                },
                subspos: pos,
                subepos: (pos + 2) as usize,
                ..st.last()
            };
            let m1 = Model { stacks: m.stacks.set(LBRACKET, st.update(st.len() - 1, o)), ..m };
            let m2 = if s[pos + 1] == LPAREN {
                Model { stacks: m1.stacks.set(LPAREN, Seq::empty()), destination: true, ..m1 }
            } else {
                m1
            };
            (put(m2, (pos, (pos + 2) as usize, Annot::Str)), Some((pos + 2) as usize))
        } else {
            (m, None)
        }
    } else if c == LPAREN {
        if !m.destination {
            (m, None)
        } else {
            (
                put(push_opener(m, LPAREN, plain_opener(pos)), (pos, (pos + 1) as usize, Annot::Str)),
                Some((pos + 1) as usize),
            )
        }
    } else if c == RPAREN {
        let st = m.stacks.get(LBRACKET);
        if !m.destination {
            (m, None)
        } else if m.stacks.get(LPAREN).len() > 0 {
            (
                put(
                    Model { stacks: m.stacks.set(LPAREN, m.stacks.get(LPAREN).drop_last()), ..m },
                    (pos, (pos + 1) as usize, Annot::Str),
                ),
                Some((pos + 1) as usize),
            )
        } else if st.len() > 0 && st.last().annot == OpenerKind::ExplicitLink {
            (
                Model {
                    destination: false,
                    ..finish_link(m, s, st.last(), pos, Container::Destination)
                },
                Some((pos + 1) as usize),
            )
        } else {
            (m, None)
        }
    } else if c == PERIOD {
        if pos + 3 <= endpos && s[pos + 1] == PERIOD && s[pos + 2] == PERIOD {
            (put(m, (pos, (pos + 3) as usize, Annot::Ellipses)), Some((pos + 3) as usize))
        } else {
            (m, None)
        }
    } else {
        (m, None)
    }
}

/// One step of the scan at `pos < endpos`: the literal run up to the next
/// special byte, then that byte (a soft break, a code-span step, a dispatch,
/// or a one-byte literal); the new state and where the scan goes on.
pub open spec fn step(m: Model, s: Seq<u8>, pos: usize, endpos: usize) -> (Model, usize) {
    let run = run_end(s, pos as int, ByteClass::Plain);
    let p: usize = if run < endpos {
        run as usize
    } else {
        endpos
    };
    let m1 = if p > pos {
        put(m, (pos, p, Annot::Str))
    } else {
        m
    };
    if p >= endpos {
        (m1, endpos)
    } else {
        let c = s[p as int];
        if c == CR || c == LF {
            if c == CR && p + 1 < endpos && s[p + 1] == LF {
                (put(m1, (p, (p + 2) as usize, Annot::Softbreak)), (p + 2) as usize)
            } else {
                (put(m1, (p, (p + 1) as usize, Annot::Softbreak)), (p + 1) as usize)
            }
        } else if m1.verbatim > 0 {
            if c == BACKTICK {
                let e = run_end(s, p as int, ByteClass::Is(BACKTICK));
                if e <= endpos && e - p == m1.verbatim {
                    (
                        Model {
                            verbatim: 0,
                            ..put(m1, (p, e as usize, Annot::Close(Container::Verbatim)))
                        },
                        e as usize,
                    )
                } else {
                    let endchar: usize = if e <= endpos {
                        e as usize
                    } else {
                        endpos
                    };
                    (put(m1, (p, endchar, Annot::Str)), endchar)
                }
            } else {
                (put(m1, (p, (p + 1) as usize, Annot::Str)), (p + 1) as usize)
            }
        } else {
            match dispatch(m1, s, c, p, endpos) {
                (m2, Some(e)) => (m2, e),
                (_, None) => (put(m1, (p, (p + 1) as usize, Annot::Str)), (p + 1) as usize),
            }
        }
    }
}

/// Each step consumes at least one byte and stays within the range, so the
/// scan consumes the whole range.
pub proof fn lemma_step_advances(m: Model, s: Seq<u8>, pos: usize, endpos: usize)
    requires
        pos < endpos <= s.len(),
    ensures
        pos < step(m, s, pos, endpos).1 <= endpos,
{
    lemma_run_end(s, pos as int, ByteClass::Plain);
    let run = run_end(s, pos as int, ByteClass::Plain);
    let p: usize = if run < endpos {
        run as usize
    } else {
        endpos
    };
    if p < endpos {
        lemma_run_end(s, p as int, ByteClass::Is(BACKTICK));
        lemma_run_end(s, p + 1, ByteClass::Blank);
        lemma_run_end(s, p + 1, ByteClass::UrlChar);
        if p + 2 <= s.len() {
            lemma_run_end(s, p + 2, ByteClass::Not(RBRACKET));
        }
    }
}

/// The state after scanning `[pos, endpos)` from `m`, step by step.
pub open spec fn scanned(m: Model, s: Seq<u8>, pos: usize, endpos: usize) -> Model
    decreases endpos - pos,
{
    if pos >= endpos {
        m
    } else {
        let (m2, q) = step(m, s, pos, endpos);
        if q <= pos || q > endpos {
            m2
        } else {
            scanned(m2, s, q, endpos)
        }
    }
}

/// One parse session over a subject text.
pub struct Parser {
    subject: Vec<u8>,
    matches: SpanStore,
    openers: Openers,
    verbatim: usize,
    verbatim_start: usize,
    verbatim_type: Annot,
    destination: bool,
    firstpos: usize,
    lastpos: usize,
    fed: bool,
}

impl Parser {
    /// The subject's bytes.
    pub closed spec fn text(&self) -> Seq<u8> {
        self.subject@
    }

    /// The span store: entry `k` is the span that starts at `k`, if any.
    pub closed spec fn slots(&self) -> Seq<Option<Match>> {
        self.matches@
    }

    pub closed spec fn stack(&self, c: u8) -> Seq<Opener> {
        self.openers.stack(c)
    }

    pub closed spec fn first_pos(&self) -> usize {
        self.firstpos
    }

    pub closed spec fn last_pos(&self) -> usize {
        self.lastpos
    }

    /// Some range has been fed.
    pub closed spec fn was_fed(&self) -> bool {
        self.fed
    }

    /// The length of the backtick run that closes the open code span; 0 when
    /// none is open.
    pub closed spec fn verbatim_len(&self) -> usize {
        self.verbatim
    }

    /// Where the open code span starts.
    pub closed spec fn verbatim_start(&self) -> usize {
        self.verbatim_start
    }

    /// The store as the finalizer reads it: a code span still open at the
    /// end of the session is no code span, and its opening run is literal.
    pub open spec fn closed_slots(&self) -> Seq<Option<Match>> {
        let k = self.verbatim_start() as int;
        if self.verbatim_len() > 0 && k < self.slots().len() {
            match self.slots()[k] {
                Some(m) => if m.2 == Annot::Open(Container::Verbatim) {
                    self.slots().update(k, Some((m.0, m.1, Annot::Str)))
                } else {
                    self.slots()
                },
                None => self.slots(),
            }
        } else {
            self.slots()
        }
    }

    /// Inside the parenthesised destination of a link.
    pub closed spec fn in_destination(&self) -> bool {
        self.destination
    }

    pub closed spec fn wf(&self) -> bool {
        &&& self.subject@.len() <= usize::MAX
        &&& self.matches.wf(self.subject@.len())
        &&& self.openers.wf(self.subject@.len() as int)
        &&& self.firstpos <= self.subject@.len()
        &&& self.lastpos <= self.subject@.len()
        &&& self.verbatim_type == Annot::Close(Container::Verbatim)
    }

    /// The state that a scan step reads and writes.
    pub open spec fn model(&self) -> Model {
        Model {
            slots: self.slots(),
            stacks: OpenerStacks {
                emph: self.stack(UNDERSCORE),
                strong: self.stack(STAR),
                sub: self.stack(TILDE),
                sup: self.stack(CARET),
                bracket: self.stack(LBRACKET),
                paren: self.stack(LPAREN),
            },
            verbatim: self.verbatim_len(),
            verbatim_start: self.verbatim_start(),
            destination: self.in_destination(),
        }
    }

    /// Everything but the span store and the stacks is as in `other`.
    pub open spec fn same_state(&self, other: &Parser) -> bool {
        &&& self.text() == other.text()
        &&& self.first_pos() == other.first_pos()
        &&& self.last_pos() == other.last_pos()
        &&& self.was_fed() == other.was_fed()
        &&& self.verbatim_len() == other.verbatim_len()
        &&& self.verbatim_start() == other.verbatim_start()
        &&& self.in_destination() == other.in_destination()
    }

    /// The stacks are as in `other`.
    pub open spec fn same_stacks(&self, other: &Parser) -> bool {
        forall|d: u8| #[trigger] self.stack(d) == other.stack(d)
    }

    /// A fresh session over `subject`: no spans, no openers.
    pub fn new(subject: String) -> (r: Parser)
        ensures
            r.wf(),
            r.text() == encode_utf8(subject@),
            is_ascii_chars(subject@) ==> r.text().len() == subject@.len() && forall|i: int|
                0 <= i < subject@.len() ==> #[trigger] r.text()[i] == subject@[i] as u8,
            r.slots().len() == r.text().len(),
            forall|k: int| 0 <= k < r.slots().len() ==> (#[trigger] r.slots()[k]).is_none(),
            forall|d: u8| (#[trigger] r.stack(d)).len() == 0,
            r.first_pos() == 0,
            r.last_pos() == 0,
            !r.was_fed(),
            r.verbatim_len() == 0,
            !r.in_destination(),
    {
        let bytes = subject.as_str().as_bytes_vec();
        proof {
            if is_ascii_chars(subject@) {
                is_ascii_chars_encode_utf8(subject@);
            }
        }
        let matches = SpanStore::new(bytes.len());
        let openers = Openers::new();
        let r = Parser {
            subject: bytes,
            matches,
            openers,
            verbatim: 0,
            verbatim_start: 0,
            verbatim_type: Annot::Close(Container::Verbatim),
            destination: false,
            firstpos: 0,
            lastpos: 0,
            fed: false,
        };
        proof {
            assert forall|d: u8| #[trigger] has_stack(d) implies all_ok(r.openers.stack(d), r.subject@.len() as int) by {
                assert(r.openers.stack(d).len() == 0);
            }
        }
        r
    }

    proof fn lemma_cleared_ok(&self, o: Openers, lo: int, hi: int)
        requires
            self.wf(),
            forall|d: u8| #[trigger] o.stack(d) == keep_outside(self.openers.stack(d), lo, hi),
        ensures
            o.wf(self.subject@.len() as int),
    {
        assert forall|d: u8| #[trigger] has_stack(d) implies all_ok(o.stack(d), self.subject@.len() as int) by {
            lemma_keep_outside_ok(self.openers.stack(d), lo, hi, self.subject@.len() as int);
        }
    }

    /// Delimiter-pair resolution for `_`, `*`, `~` and `^` at `pos`: closes the
    /// most recent opener for `c` when the delimiter may close and the pair
    /// would not be empty, else pushes an opener when it may open; the
    /// delimiter is recorded as literal text until a closer promotes it.
    fn between_matched(&mut self, pos: usize, endpos: usize, c: u8, annotation: Container) -> (r: usize)
        requires
            old(self).wf(),
            pos < endpos <= old(self).text().len(),
            has_stack(c),
        ensures
            final(self).wf(),
            final(self).same_state(old(self)),
            pos < r <= endpos,
            (final(self).model(), r) == pair(old(self).model(), old(self).text(), pos, endpos, c, annotation),
    {
        let len = self.subject.len();
        let hash_close_marker = pos + 1 < endpos && has_byte(&self.subject, pos + 1, RBRACE);
        let can_open = !hash_close_marker && non_space(&self.subject, pos + 1);
        let can_close = hash_close_marker || (pos > 0 && non_space(&self.subject, pos - 1));
        let endcloser = if hash_close_marker {
            pos + 1
        } else {
            pos
        };
        if can_close {
            if let Some(opener) = self.openers.top(c) {
                if opener.epos != pos {
                    // a closer right after its opener would leave the pair empty
                    proof {
                        assert(opener_ok(self.openers.stack(c)[self.openers.stack(c).len() - 1], len as int));
                    }
                    self.openers.clear_openers(opener.spos, pos);
                    proof {
                        old(self).lemma_cleared_ok(self.openers, opener.spos as int, pos as int);
                    }
                    self.matches.add_match(opener.spos, opener.epos, Annot::Open(annotation));
                    self.matches.add_match(pos, endcloser + 1, Annot::Close(annotation));
                    return endcloser + 1;
                }
            }
        }
        if can_open {
            let o = Opener::new(pos, pos + 1);
            self.openers.add_opener(c, o);
            proof {
                assert forall|d: u8| #[trigger] has_stack(d) implies all_ok(self.openers.stack(d), len as int) by {
                    if d == c {
                        assert(all_ok(old(self).openers.stack(d), len as int));
                        let st = self.openers.stack(d);
                        assert forall|i: int| 0 <= i < st.len() implies opener_ok(#[trigger] st[i], len as int) by {
                            if i < st.len() - 1 {
                                assert(st[i] == old(self).openers.stack(d)[i]);
                            }
                        }
                    }
                }
            }
            self.matches.add_match(pos, pos + 1, Annot::Str);
            pos + 1
        } else {
            self.matches.add_match(pos, endcloser + 1, Annot::Str);
            endcloser + 1
        }
    }

    /// The bracket opening at `spos` is preceded by `!`: an image, not a link.
    fn is_image(&self, spos: usize) -> (r: bool)
        requires
            spos <= self.text().len(),
        ensures
            r == (spos > 0 && self.text()[spos - 1] == BANG),
    {
        spos > 0 && self.subject[spos - 1] == BANG
    }

    /// Records the text part of a link or image whose opener is `o`: the image
    /// marker if any, the opening bracket and the closing bracket at `o.subspos`.
    fn mark_link_text(&mut self, o: Opener)
        requires
            old(self).wf(),
            opener_ok(o, old(self).text().len() as int),
            o.annot != OpenerKind::Plain,
        ensures
            final(self).wf(),
            final(self).same_state(old(self)),
            final(self).same_stacks(old(self)),
            final(self).slots() == link_marked(old(self).slots(), old(self).text(), o),
    {
        if self.is_image(o.spos) {
            self.matches.add_match(o.spos - 1, o.spos, Annot::ImageMarker);
            self.matches.add_match(o.spos, o.epos, Annot::Open(Container::Imagetext));
            self.matches.add_match(o.subspos, o.subspos + 1, Annot::Close(Container::Imagetext));
        } else {
            self.matches.add_match(o.spos, o.epos, Annot::Open(Container::Linktext));
            self.matches.add_match(o.subspos, o.subspos + 1, Annot::Close(Container::Linktext));
        }
    }

    /// A hard line break after a backslash: drops the blanks that end the
    /// literal span right before `pos`, if one ends there.
    fn trim_before(&mut self, pos: usize)
        requires
            old(self).wf(),
            pos <= old(self).text().len(),
        ensures
            final(self).wf(),
            final(self).same_state(old(self)),
            final(self).same_stacks(old(self)),
            final(self).slots() == trimmed_before(old(self).slots(), old(self).text(), pos as int),
    {
        if let Some(k) = self.matches.last_before(pos) {
            if let Some(m) = self.matches.get(k) {
                let (sp, ep, annot) = m;
                if annot == Annot::Str && ep == pos {
                    let mut e: usize = ep;
                    while e > sp && (self.subject[e - 1] == SPACE || self.subject[e - 1] == TAB)
                        invariant
                            sp <= e <= ep <= self.subject@.len(),
                            trim_end(self.subject@, sp as int, e as int) == trim_end(
                                self.subject@,
                                sp as int,
                                ep as int,
                            ),
                        decreases e,
                    {
                        e = e - 1;
                    }
                    if e == sp {
                        self.matches.remove(sp);
                    } else {
                        self.matches.add_match(sp, e, Annot::Str);
                    }
                }
            }
        }
    }

    /// Dispatches on the special byte `c` at `pos`; `None` where nothing
    /// matches and the byte falls back to literal text.
    #[verifier::spinoff_prover]
    #[verifier::rlimit(100)]
    fn matchers(&mut self, c: u8, pos: usize, endpos: usize) -> (r: Option<usize>)
        requires
            old(self).wf(),
            pos < endpos <= old(self).text().len(),
            old(self).text()[pos as int] == c,
        ensures
            final(self).wf(),
            final(self).text() == old(self).text(),
            final(self).first_pos() == old(self).first_pos(),
            final(self).last_pos() == old(self).last_pos(),
            final(self).was_fed() == old(self).was_fed(),
            match r {
                Some(e) => pos < e <= endpos,
                None => *final(self) == *old(self),
            },
            (final(self).model(), r) == dispatch(old(self).model(), old(self).text(), c, pos, endpos),
    {
        let len = self.subject.len();
        if c == BACKTICK {
            let e = scan(&self.subject, pos, len, ByteClass::Is(BACKTICK));
            proof {
                lemma_run_end(self.subject@, pos as int, ByteClass::Is(BACKTICK));
            }
            if e > endpos {
                return None;
            }
            self.matches.add_match(pos, e, Annot::Open(Container::Verbatim));
            self.verbatim_type = Annot::Close(Container::Verbatim);
            self.verbatim = e - pos;
            self.verbatim_start = pos;
            Some(e)
        } else if c == BACKSLASH {
            if let Some(e) = find_line_break(&self.subject, pos + 1) {
                if e <= endpos {
                    proof {
                        lemma_run_end(self.subject@, pos + 1, ByteClass::Blank);
                    }
                    let ghost m0 = self.model();
                    self.matches.add_match(pos, pos + 1, Annot::Escape);
                    let ghost m1 = self.model();
                    self.trim_before(pos);
                    proof {
                        assert(m1.slots == m0.slots.update(pos as int, Some((pos, (pos + 1) as usize, Annot::Escape))));
                        assert(self.model().stacks == m0.stacks);
                        assert(self.model() == Model { slots: trimmed_before(m1.slots, self.subject@, pos as int), ..m0 });
                    }
                    self.matches.add_match(pos + 1, e, Annot::Hardbreak);
                    return Some(e);
                }
            }
            if pos + 1 < endpos && (class_has(self.subject[pos + 1], ByteClass::Is(SPACE))
                || is_punct_byte(self.subject[pos + 1])) {
                self.matches.add_match(pos, pos + 1, Annot::Escape);
                if self.subject[pos + 1] == SPACE {
                    self.matches.add_match(pos + 1, pos + 2, Annot::Nbsp);
                } else {
                    self.matches.add_match(pos + 1, pos + 2, Annot::Str);
                }
                Some(pos + 2)
            } else {
                self.matches.add_match(pos, pos + 1, Annot::Str);
                Some(pos + 1)
            }
        } else if c == LT {
            if let Some(e) = find_autolink(&self.subject, pos) {
                if e <= endpos {
                    proof {
                        lemma_run_end(self.subject@, pos + 1, ByteClass::UrlChar);
                    }
                    if has_email(&self.subject, pos + 1, e - 1) {
                        self.matches.add_match(pos, pos + 1, Annot::Open(Container::Email));
                        self.matches.add_match(pos + 1, e - 1, Annot::Str);
                        self.matches.add_match(e - 1, e, Annot::Close(Container::Email));
                        return Some(e);
                    } else if has_scheme(&self.subject, pos + 1, e) {
                        self.matches.add_match(pos, pos + 1, Annot::Open(Container::Url));
                        self.matches.add_match(pos + 1, e - 1, Annot::Str);
                        self.matches.add_match(e - 1, e, Annot::Close(Container::Url));
                        return Some(e);
                    }
                }
            }
            None
        } else if (c == TILDE || c == CARET || c == UNDERSCORE || c == STAR) && match self.openers.top(LBRACKET) {
            Some(o) => o.annot != OpenerKind::Plain,
            None => false,
        } {
            // inside a reference key or a destination, delimiters are literal
            None
        } else if c == TILDE {
            Some(self.between_matched(pos, endpos, TILDE, Container::Subscript))
        } else if c == CARET {
            Some(self.between_matched(pos, endpos, CARET, Container::Superscript))
        } else if c == UNDERSCORE {
            Some(self.between_matched(pos, endpos, UNDERSCORE, Container::Emph))
        } else if c == STAR {
            Some(self.between_matched(pos, endpos, STAR, Container::Strong))
        } else if c == LBRACKET {
            if pos + 1 < len {
                if let Some(e) = find_footnote(&self.subject, pos + 1) {
                    if e <= endpos {
                        self.matches.add_match(pos, e, Annot::FootnoteReference);
                        return Some(e);
                    }
                }
            }
            self.openers.add_opener(LBRACKET, Opener::new(pos, pos + 1));
            self.matches.add_match(pos, pos + 1, Annot::Str);
            Some(pos + 1)
        } else if c == RBRACKET {
            if let Some(opener) = self.openers.top(LBRACKET) {
                proof {
                    let st = self.openers.stack(LBRACKET);
                    assert(has_stack(LBRACKET));
                    assert(all_ok(st, len as int));
                    assert(opener_ok(st[st.len() - 1], len as int));
                }
                if opener.annot == OpenerKind::ReferenceLink {
                    // `[text][key]`: a reference link or image
                    self.mark_link_text(opener);
                    let ghost marked = *self;
                    self.matches.add_match(opener.subspos + 1, opener.subepos, Annot::Open(Container::Reference));
                    self.matches.add_match(pos, pos + 1, Annot::Close(Container::Reference));
                    self.matches.str_matches(opener.subepos, pos);
                    let ghost pre = *self;
                    self.openers.clear_openers(opener.spos, pos);
                    proof {
                        pre.lemma_cleared_ok(self.openers, opener.spos as int, pos as int);
                        assert forall|d: u8| #[trigger] self.stack(d) == keep_outside(old(self).stack(d), opener.spos as int, pos as int) by {
                            assert(marked.stack(d) == old(self).stack(d));
                            assert(pre.openers == marked.openers);
                        }
                    }
                    return Some(pos + 1);
                } else if pos + 1 < endpos && self.subject[pos + 1] == LBRACKET {
                    self.openers.set_top_bracket(
                        Opener { annot: OpenerKind::ReferenceLink, subspos: pos, subepos: pos + 2, ..opener },
                    );
                    self.matches.add_match(pos, pos + 2, Annot::Str);
                    return Some(pos + 2);
                } else if pos + 1 < endpos && self.subject[pos + 1] == LPAREN {
                    self.openers.set_top_bracket(
                        Opener { annot: OpenerKind::ExplicitLink, subspos: pos, subepos: pos + 2, ..opener },
                    );
                    self.openers.clear_parens();
                    self.destination = true;
                    self.matches.add_match(pos, pos + 2, Annot::Str);
                    return Some(pos + 2);
                }
            }
            None
        } else if c == LPAREN {
            if !self.destination {
                return None;
            }
            self.openers.add_opener(LPAREN, Opener::new(pos, pos + 1));
            self.matches.add_match(pos, pos + 1, Annot::Str);
            Some(pos + 1)
        } else if c == RPAREN {
            if !self.destination {
                return None;
            }
            if self.openers.top(LPAREN).is_some() {
                // a parenthesis inside the destination
                self.openers.pop_paren();
                self.matches.add_match(pos, pos + 1, Annot::Str);
                return Some(pos + 1);
            }
            if let Some(opener) = self.openers.top(LBRACKET) {
                proof {
                    let st = self.openers.stack(LBRACKET);
                    assert(has_stack(LBRACKET));
                    assert(all_ok(st, len as int));
                    assert(opener_ok(st[st.len() - 1], len as int));
                }
                if opener.annot == OpenerKind::ExplicitLink {
                    // `[text](destination)`: an inline link or image
                    let startdest = opener.subepos - 1;
                    self.mark_link_text(opener);
                    let ghost marked = *self;
                    self.matches.add_match(startdest, startdest + 1, Annot::Open(Container::Destination));
                    self.matches.add_match(pos, pos + 1, Annot::Close(Container::Destination));
                    self.destination = false;
                    self.matches.str_matches(opener.subepos, pos);
                    let ghost pre = *self;
                    self.openers.clear_openers(opener.spos, pos);
                    proof {
                        pre.lemma_cleared_ok(self.openers, opener.spos as int, pos as int);
                        assert forall|d: u8| #[trigger] self.stack(d) == keep_outside(old(self).stack(d), opener.spos as int, pos as int) by {
                            assert(marked.stack(d) == old(self).stack(d));
                            assert(pre.openers == marked.openers);
                        }
                    }
                    return Some(pos + 1);
                }
            }
            None
        } else if c == PERIOD {
            if endpos - pos >= 3 && self.subject[pos + 1] == PERIOD && self.subject[pos + 2]
                == PERIOD {
                self.matches.add_match(pos, pos + 3, Annot::Ellipses);
                return Some(pos + 3);
            }
            None
        } else {
            // attributes, math, smart punctuation and the like are not
            // recognised: the byte stays literal
            None
        }
    }

    fn single_char(&mut self, pos: usize) -> (r: usize)
        requires
            old(self).wf(),
            pos < old(self).text().len(),
        ensures
            final(self).wf(),
            final(self).same_state(old(self)),
            final(self).same_stacks(old(self)),
            r == pos + 1,
            final(self).model() == put(old(self).model(), (pos, (pos + 1) as usize, Annot::Str)),
    {
        self.matches.add_match(pos, pos + 1, Annot::Str);
        pos + 1
    }

    /// Scans `[spos, endpos)` of the subject, recording spans and updating
    /// the openers; the session's first and last offsets take the range in.
    pub fn feed(&mut self, spos: usize, endpos: usize)
        requires
            old(self).wf(),
            spos <= endpos <= old(self).text().len(),
        ensures
            final(self).wf(),
            final(self).text() == old(self).text(),
            final(self).model() == scanned(old(self).model(), old(self).text(), spos, endpos),
            final(self).slots().len() == old(self).slots().len(),
            final(self).was_fed(),
            final(self).first_pos() == if !old(self).was_fed() || spos < old(
                self,
            ).first_pos() {
                spos
            } else {
                old(self).first_pos()
            },
            final(self).last_pos() == if !old(self).was_fed() || endpos > old(
                self,
            ).last_pos() {
                endpos
            } else {
                old(self).last_pos()
            },
    {
        let len = self.subject.len();
        if !self.fed || spos < self.firstpos {
            self.firstpos = spos;
        }
        if !self.fed || endpos > self.lastpos {
            self.lastpos = endpos;
        }
        self.fed = true;
        let ghost first = self.firstpos;
        let ghost last = self.lastpos;
        let ghost s = self.subject@;
        let mut pos: usize = spos;
        while pos < endpos
            invariant
                self.wf(),
                self.subject@ == s,
                s == old(self).subject@,
                self.firstpos == first,
                self.lastpos == last,
                self.fed,
                len == s.len(),
                spos <= pos <= endpos <= len,
                scanned(self.model(), s, pos, endpos) == scanned(old(self).model(), s, spos, endpos),
            ensures
                pos >= endpos,
            decreases endpos - pos,
        {
            let ghost m0 = self.model();
            let ghost pos0 = pos;
            // literal text up to the next special byte
            let newpos = scan(&self.subject, pos, endpos, ByteClass::Plain);
            proof {
                lemma_run_end(s, pos as int, ByteClass::Plain);
            }
            if newpos > pos {
                self.matches.add_match(pos, newpos, Annot::Str);
                pos = newpos;
            }
            let ghost m1 = self.model();
            if pos >= endpos {
                proof {
                    assert(step(m0, s, pos0, endpos) == (self.model(), pos));
                }
                break;
            }
            let c = self.subject[pos];
            if c == CR || c == LF {
                if c == CR && pos + 1 < endpos && self.subject[pos + 1] == LF {
                    self.matches.add_match(pos, pos + 2, Annot::Softbreak);
                    pos = pos + 2;
                } else {
                    self.matches.add_match(pos, pos + 1, Annot::Softbreak);
                    pos = pos + 1;
                }
            } else if self.verbatim > 0 {
                if c == BACKTICK {
                    let e = scan(&self.subject, pos, len, ByteClass::Is(BACKTICK));
                    proof {
                        lemma_run_end(s, pos as int, ByteClass::Is(BACKTICK));
                    }
                    if e <= endpos && e - pos == self.verbatim {
                        // a run of the opening length closes the code span
                        self.matches.add_match(pos, e, self.verbatim_type);
                        self.verbatim = 0;
                        pos = e;
                    } else {
                        let endchar = if e <= endpos {
                            e
                        } else {
                            endpos
                        };
                        self.matches.add_match(pos, endchar, Annot::Str);
                        pos = endchar;
                    }
                } else {
                    self.matches.add_match(pos, pos + 1, Annot::Str);
                    pos = pos + 1;
                }
            } else {
                pos = match self.matchers(c, pos, endpos) {
                    Some(e) => e,
                    None => self.single_char(pos),
                };
            }
            proof {
                assert(step(m0, s, pos0, endpos) == (self.model(), pos));
            }
        }
    }

    /// The spans of the store in ascending offset order, from the first
    /// offset fed through the last.
    fn collect(&self) -> (r: Vec<Match>)
        requires
            self.wf(),
        ensures
            r@ == collected(self.closed_slots(), self.first_pos() as int, self.scan_end()),
    {
        let len = self.matches.len();
        let hi: usize = if self.lastpos < len {
            self.lastpos + 1
        } else {
            len
        };
        let mut out: Vec<Match> = Vec::new();
        let mut i: usize = self.firstpos;
        while i < hi
            invariant
                self.firstpos <= i,
                i == self.firstpos || i <= hi,
                hi as int == self.scan_end(),
                hi <= len,
                len == self.slots().len(),
                out@ == collected(self.closed_slots(), self.first_pos() as int, i as int),
            decreases hi - i,
        {
            if let Some(m) = self.matches.get(i) {
                if self.verbatim > 0 && i == self.verbatim_start && m.2 == Annot::Open(
                    Container::Verbatim,
                ) {
                    out.push((m.0, m.1, Annot::Str));
                } else {
                    out.push(m);
                }
            }
            i = i + 1;
        }
        out
    }

    /// One past the last store offset that the finalizer reads.
    pub open spec fn scan_end(&self) -> int {
        if self.last_pos() < self.slots().len() {
            self.last_pos() + 1
        } else {
            self.slots().len() as int
        }
    }

    /// No span of the session's output is empty: every literal run,
    /// delimiter, escape or break covers at least one byte.
    pub proof fn lemma_output_nonempty(&self)
        requires
            self.wf(),
        ensures
            all_nonempty(
                finalize_spans(collected(self.closed_slots(), self.first_pos() as int, self.scan_end())),
            ),
    {
        let sl = self.closed_slots();
        assert forall|k: int| self.first_pos() <= k < self.scan_end() implies match #[trigger] sl[k] {
            Some(m) => m.0 < m.1,
            None => true,
        } by {
            assert(slot_ok(self.matches@[k], k, self.subject@.len() as int));
        }
        lemma_collected_nonempty(sl, self.first_pos() as int, self.scan_end());
        lemma_finalize_keeps_nonempty(collected(sl, self.first_pos() as int, self.scan_end()));
    }

    /// The session's span sequence: the stored spans in ascending offset
    /// order, adjacent literal spans merged, a trailing soft break dropped.
    pub fn get_matches(&mut self) -> (r: Vec<Match>)
        requires
            old(self).wf(),
        ensures
            *final(self) == *old(self),
            r@ == finalize_spans(
                collected(old(self).closed_slots(), old(self).first_pos() as int, old(self).scan_end()),
            ),
    {
        let spans = self.collect();
        finalize(&spans)
    }
}

} // verus!
