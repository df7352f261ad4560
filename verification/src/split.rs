//! Splitting a text where a pattern matches.

use vstd::prelude::*;

use crate::pattern::{pattern_spans, spans_in, Pattern, Span};
use crate::text::{
    at_boundary, byte_len, byte_slice, byte_suffix, is_boundary, slice, str_len,
};

verus! {

/// How far a split has come: the matches ahead, what remains of the text, and the match that has
/// not been handed out.
pub struct SplitState {
    pub text: Seq<char>,
    pub spans: Seq<Span>,
    pub remaining: Seq<char>,
    pub pending: Option<Seq<char>>,
}

impl SplitState {
    /// Whether the next match can be cut out of what remains.
    ///
    /// The offsets of a match count from the start of the text, and are applied to what remains.
    pub open spec fn ready(self) -> bool {
        self.spans.len() > 0 ==> {
            &&& at_boundary(self.remaining, self.spans[0].0 as int)
            &&& at_boundary(self.remaining, self.spans[0].1 as int)
        }
    }

    /// The piece that comes next.
    pub open spec fn item(self) -> Option<Seq<char>> {
        if self.spans.len() > 0 {
            Some(byte_slice(self.remaining, 0, self.spans[0].0 as int))
        } else if self.pending is Some {
            self.pending
        } else if self.remaining.len() > 0 {
            Some(self.remaining)
        } else {
            None
        }
    }

    /// The state once that piece has been handed out.
    pub open spec fn after(self) -> SplitState {
        if self.spans.len() > 0 {
            SplitState {
                text: self.text,
                spans: self.spans.drop_first(),
                remaining: byte_suffix(self.remaining, self.spans[0].1 as int),
                pending: Some(
                    byte_slice(self.text, self.spans[0].0 as int, self.spans[0].1 as int),
                ),
            }
        } else if self.pending is Some {
            SplitState { pending: None, ..self }
        } else {
            SplitState { remaining: Seq::empty(), ..self }
        }
    }

    /// Whether every match ahead can be cut out in its turn.
    pub open spec fn defined(self) -> bool
        decreases self.spans.len(),
    {
        self.spans.len() > 0 ==> self.ready() && self.after().defined()
    }

    /// The pieces ahead.
    pub open spec fn pieces(self) -> Seq<Seq<char>>
        decreases self.spans.len(),
    {
        if self.spans.len() > 0 {
            seq![self.item()->0] + self.after().pieces()
        } else {
            self.last_pieces()
        }
    }

    /// The pieces that are left when no match is ahead.
    pub open spec fn last_pieces(self) -> Seq<Seq<char>> {
        let separator = if self.pending is Some {
            seq![self.pending->0]
        } else {
            Seq::empty()
        };
        if self.remaining.len() > 0 {
            separator.push(self.remaining)
        } else {
            separator
        }
    }

    /// An upper bound for the number of pieces ahead.
    pub open spec fn measure(self) -> nat {
        3 * self.spans.len() + (if self.pending is Some {
            1nat
        } else {
            0
        }) + (if self.remaining.len() > 0 {
            1nat
        } else {
            0
        })
    }

    proof fn lemma_step(self)
        ensures
            self.item() is Some ==> self.pieces() == seq![self.item()->0] + self.after().pieces(),
            self.item() is Some ==> self.after().measure() < self.measure(),
            self.item() is None ==> self.pieces() == Seq::<Seq<char>>::empty(),
            self.defined() ==> self.ready() && self.after().defined(),
    {
        if self.spans.len() == 0 && self.item() is Some {
            assert(self.pieces() =~= seq![self.item()->0] + self.after().pieces());
        }
    }
}

/// How many bytes have been cut off the text once the first `k` matches have been handled.
pub open spec fn consumed(spans: Seq<Span>, k: int) -> int
    decreases k,
{
    if k <= 0 {
        0
    } else {
        consumed(spans, k - 1) + spans[k - 1].1
    }
}

/// Whether splitting `text` at `spans` cuts it between characters only.
pub open spec fn split_defined(text: Seq<char>, spans: Seq<Span>) -> bool {
    split_defined_from(text, spans, 0)
}

/// The pieces of `text` split at `spans`: one in front of each match, measured from where the cut
/// for the match before it ended, then the text of the last match, then what remains.
pub open spec fn split_pieces(text: Seq<char>, spans: Seq<Span>) -> Seq<Seq<char>> {
    let n = spans.len() as int;
    let fronts = Seq::new(
        spans.len(),
        |k: int| byte_slice(text, consumed(spans, k), consumed(spans, k) + spans[k].0),
    );
    let separator = if n > 0 {
        seq![byte_slice(text, spans[n - 1].0 as int, spans[n - 1].1 as int)]
    } else {
        Seq::empty()
    };
    let rest = if consumed(spans, n) < byte_len(text) {
        seq![byte_suffix(text, consumed(spans, n))]
    } else {
        Seq::empty()
    };
    fronts + separator + rest
}

/// The state of a split of `text` at `spans` before its first piece.
pub open spec fn split_start(text: Seq<char>, spans: Seq<Span>) -> SplitState {
    SplitState { text, spans, remaining: text, pending: None }
}

/// The state of a split at `spans` that has handled the first `k` matches.
pub open spec fn split_at_match(text: Seq<char>, spans: Seq<Span>, k: int) -> SplitState {
    SplitState {
        text,
        spans: spans.skip(k),
        remaining: byte_suffix(text, consumed(spans, k)),
        pending: if k > 0 {
            Some(byte_slice(text, spans[k - 1].0 as int, spans[k - 1].1 as int))
        } else {
            None
        },
    }
}

proof fn lemma_consumed(text: Seq<char>, spans: Seq<Span>, k: int)
    requires
        0 <= k <= spans.len(),
        k > 0 ==> at_boundary(text, consumed(spans, k)),
    ensures
        at_boundary(text, consumed(spans, k)),
        byte_len(byte_suffix(text, consumed(spans, k))) == byte_len(text) - consumed(spans, k),
{
    crate::text::lemma_ends(text);
    crate::text::lemma_slice_bytes(text, consumed(spans, k), byte_len(text) as int);
}

/// Cutting a match out of what remains is cutting it out of the text, shifted.
proof fn lemma_cut(text: Seq<char>, spans: Seq<Span>, k: int)
    requires
        spans_in(text, spans),
        0 <= k < spans.len(),
        k > 0 ==> at_boundary(text, consumed(spans, k)),
    ensures
        split_at_match(text, spans, k).ready() <==> {
            &&& at_boundary(text, consumed(spans, k) + spans[k].0)
            &&& at_boundary(text, consumed(spans, k + 1))
        },
        split_at_match(text, spans, k).ready() ==> {
            &&& split_at_match(text, spans, k).after() == split_at_match(text, spans, k + 1)
            &&& split_at_match(text, spans, k).item() == Some(
                byte_slice(text, consumed(spans, k), consumed(spans, k) + spans[k].0),
            )
        },
{
    let state = split_at_match(text, spans, k);
    let c = consumed(spans, k);
    let (start, end) = spans[k];
    let len = byte_len(text) as int;
    lemma_consumed(text, spans, k);
    crate::text::lemma_ends(text);
    assert(state.spans[0] == spans[k]);
    assert(consumed(spans, k + 1) == c + end);
    assert(state.spans.drop_first() =~= spans.skip(k + 1));
    if start <= len - c {
        crate::text::lemma_slice_boundary(text, c, len, start as int);
    }
    if end <= len - c {
        crate::text::lemma_slice_boundary(text, c, len, end as int);
        crate::text::lemma_slice_of_slice(text, c, len, end as int, len - c);
        crate::text::lemma_slice_of_slice(text, c, len, 0, start as int);
    }
}

/// Whether the two cuts for match `j` fall between characters.
pub open spec fn cuts_fit(text: Seq<char>, spans: Seq<Span>, j: int) -> bool {
    &&& at_boundary(text, consumed(spans, j) + spans[j].0)
    &&& at_boundary(text, consumed(spans, j + 1))
}

/// Whether the cuts from match `k` on fall between characters.
pub open spec fn split_defined_from(text: Seq<char>, spans: Seq<Span>, k: int) -> bool {
    forall|j: int| k <= j < spans.len() ==> #[trigger] cuts_fit(text, spans, j)
}

proof fn lemma_split_defined(text: Seq<char>, spans: Seq<Span>, k: int)
    requires
        spans_in(text, spans),
        0 <= k <= spans.len(),
        k > 0 ==> at_boundary(text, consumed(spans, k)),
    ensures
        split_at_match(text, spans, k).defined() <==> split_defined_from(text, spans, k),
    decreases spans.len() - k,
{
    if k < spans.len() {
        lemma_cut(text, spans, k);
        if split_at_match(text, spans, k).ready() {
            lemma_split_defined(text, spans, k + 1);
        }
        assert(split_defined_from(text, spans, k) <==> cuts_fit(text, spans, k)
            && split_defined_from(text, spans, k + 1));
    }
}

proof fn lemma_split_pieces(text: Seq<char>, spans: Seq<Span>, k: int)
    requires
        spans_in(text, spans),
        0 <= k <= spans.len(),
        k > 0 ==> at_boundary(text, consumed(spans, k)),
        split_at_match(text, spans, k).defined(),
    ensures
        split_at_match(text, spans, k).pieces() == split_pieces(text, spans).skip(k),
    decreases spans.len() - k,
{
    let state = split_at_match(text, spans, k);
    let all = split_pieces(text, spans);
    if k < spans.len() {
        lemma_cut(text, spans, k);
        lemma_split_pieces(text, spans, k + 1);
        assert(all.skip(k) =~= seq![all[k]] + all.skip(k + 1));
    } else {
        lemma_consumed(text, spans, k);
        crate::text::lemma_byte_len_zero(state.remaining);
        assert(state.pieces() =~= all.skip(k));
    }
}

/// Hands out the pieces of a text between the matches of a pattern, and the last match.
pub struct RegexSplitInclusive<'s> {
    text: &'s str,
    matches: Vec<Span>,
    position: usize,
    remaining: &'s str,
    pending_separator: Option<&'s str>,
}

impl<'s> View for RegexSplitInclusive<'s> {
    type V = SplitState;

    closed spec fn view(&self) -> SplitState {
        SplitState {
            text: self.text@,
            spans: self.matches@.skip(self.position as int),
            remaining: self.remaining@,
            pending: match self.pending_separator {
                Some(separator) => Some(separator@),
                None => None,
            },
        }
    }
}

impl<'s> RegexSplitInclusive<'s> {
    #[verifier::type_invariant]
    spec fn in_text(self) -> bool {
        &&& self.position <= self.matches@.len()
        &&& spans_in(self.text@, self.matches@)
    }

    /// A split of `text` at the matches of `reg` that has not started.
    pub fn new(reg: &Pattern, text: &'s str) -> (split: RegexSplitInclusive<'s>)
        ensures
            split@ == split_start(text@, pattern_spans(reg@, text@)),
            spans_in(text@, split@.spans),
    {
        RegexSplitInclusive::at_matches(text, reg.find_iter(text))
    }

    /// A split of `text` at `matches` that has not started.
    pub fn at_matches(text: &'s str, matches: Vec<Span>) -> (split: RegexSplitInclusive<'s>)
        requires
            spans_in(text@, matches@),
        ensures
            split@ == split_start(text@, matches@),
    {
        assert(matches@.skip(0) =~= matches@);
        RegexSplitInclusive { text, matches, position: 0, remaining: text, pending_separator: None }
    }

    /// The next piece.
    pub fn next(&mut self) -> (piece: Option<&'s str>)
        requires
            old(self)@.ready(),
        ensures
            final(self)@ == old(self)@.after(),
            piece is Some <==> old(self)@.item() is Some,
            piece is Some ==> piece->0@ == old(self)@.item()->0,
    {
        proof {
            use_type_invariant(&*self);
        }
        if self.position < self.matches.len() {
            let (start, end) = self.matches[self.position];
            assert(self@.spans[0] == (start, end));
            proof {
                crate::text::lemma_ends(self.remaining@);
            }
            let front = slice(self.remaining, 0, start);
            let len = str_len(self.remaining);
            let separator = slice(self.text, start, end);
            assert(self@.spans.drop_first() =~= self.matches@.skip(self.position + 1));
            self.remaining = slice(self.remaining, end, len);
            self.pending_separator = Some(separator);
            self.position = self.position + 1;
            return Some(front);
        }
        if self.pending_separator.is_some() {
            let separator = self.pending_separator;
            self.pending_separator = None;
            return separator;
        }
        if !self.remaining.is_empty() {
            let rest = self.remaining;
            self.remaining = "";
            proof {
                reveal_strlit("");
                assert(self.remaining@ =~= Seq::<char>::empty());
            }
            return Some(rest);
        }
        assert(self.remaining@ =~= Seq::<char>::empty());
        None
    }
}

/// The strings of `pieces`.
pub open spec fn str_views(pieces: Seq<&str>) -> Seq<Seq<char>> {
    pieces.map_values(|piece: &str| piece@)
}

/// Whether a match can be cut out of what remains of `text` behind the offset `cut`.
fn can_cut(text: &str, cut: usize, mtch: Span) -> (fits: bool)
    requires
        cut <= byte_len(text@),
        mtch.0 <= mtch.1,
    ensures
        fits == (at_boundary(text@, cut + mtch.0) && at_boundary(text@, cut + mtch.1)),
{
    let (start, end) = mtch;
    if end > str_len(text) - cut {
        return false;
    }
    is_boundary(text, cut + start) && is_boundary(text, cut + end)
}

/// Whether splitting `text` at `matches` cuts it between characters only.
pub fn can_split(text: &str, matches: &Vec<Span>) -> (fits: bool)
    requires
        spans_in(text@, matches@),
    ensures
        fits == split_defined(text@, matches@),
{
    let mut cut: usize = 0;
    let len = str_len(text);
    for k in 0..matches.len()
        invariant
            len == byte_len(text@),
            cut == consumed(matches@, k as int),
            cut <= len,
            spans_in(text@, matches@),
            forall|j: int| 0 <= j < k ==> #[trigger] cuts_fit(text@, matches@, j),
    {
        let mtch = matches[k];
        assert(matches@[k as int] == mtch);
        assert(consumed(matches@, k + 1) == cut + mtch.1);
        if !can_cut(text, cut, mtch) {
            assert(!cuts_fit(text@, matches@, k as int));
            return false;
        }
        assert(cuts_fit(text@, matches@, k as int));
        cut = cut + mtch.1;
    }
    true
}

/// The pieces of `text` split at `matches`.
pub fn split_at_matches<'s>(text: &'s str, matches: Vec<Span>) -> (pieces: Vec<&'s str>)
    requires
        spans_in(text@, matches@),
        split_defined(text@, matches@),
    ensures
        str_views(pieces@) == split_pieces(text@, matches@),
{
    let ghost spans = matches@;
    let ghost all = split_pieces(text@, spans);
    let mut split = RegexSplitInclusive::at_matches(text, matches);
    let mut pieces: Vec<&'s str> = Vec::new();
    proof {
        crate::text::lemma_slice_all(text@);
        assert(spans.skip(0) =~= spans);
        assert(split@ == split_at_match(text@, spans, 0));
        lemma_split_defined(text@, spans, 0);
        lemma_split_pieces(text@, spans, 0);
        assert(all.skip(0) =~= all);
        assert(str_views(pieces@) + split@.pieces() =~= all);
    }
    loop
        invariant
            split@.defined(),
            str_views(pieces@) + split@.pieces() =~= all,
        ensures
            str_views(pieces@) =~= all,
        decreases split@.measure(),
    {
        let ghost before = split@;
        let ghost earlier = pieces@;
        proof {
            before.lemma_step();
        }
        match split.next() {
            Some(piece) => {
                pieces.push(piece);
                assert(str_views(pieces@) =~= str_views(earlier).push(piece@));
                assert(str_views(earlier) + (seq![piece@] + split@.pieces()) =~= str_views(pieces@)
                    + split@.pieces());
            },
            None => {
                break ;
            },
        }
    }
    pieces
}

impl Pattern {
    /// The pieces of `text` between the matches, and the last match.
    pub fn split_inclusive<'s>(&self, text: &'s str) -> (pieces: Vec<&'s str>)
        requires
            split_defined(text@, pattern_spans(self@, text@)),
        ensures
            str_views(pieces@) == split_pieces(text@, pattern_spans(self@, text@)),
    {
        split_at_matches(text, self.find_iter(text))
    }

    /// The pieces of `text` between the matches, and the last match; `None` if a cut would fall
    /// inside a character or outside the text.
    pub fn try_split_inclusive<'s>(&self, text: &'s str) -> (pieces: Option<Vec<&'s str>>)
        ensures
            pieces is Some <==> split_defined(text@, pattern_spans(self@, text@)),
            pieces is Some ==> str_views(pieces->0@) == split_pieces(
                text@,
                pattern_spans(self@, text@),
            ),
    {
        let matches = self.find_iter(text);
        if can_split(text, &matches) {
            Some(self.split_inclusive(text))
        } else {
            None
        }
    }
}

/// A split hands out its pieces one by one: the next piece is the first of those ahead, the others
/// are ahead once it has been handed out, and there is none where none is ahead. A split that has
/// not started has all pieces of the text ahead.
pub proof fn law_split_hands_out_its_pieces(state: SplitState, text: Seq<char>, spans: Seq<Span>)
    ensures
        state.item() is None <==> state.pieces().len() == 0,
        state.item() is Some ==> state.pieces() == seq![state.item()->0] + state.after().pieces(),
        spans_in(text, spans) ==> (split_start(text, spans).defined() <==> split_defined(
            text,
            spans,
        )),
        spans_in(text, spans) && split_defined(text, spans) ==> split_start(text, spans).pieces()
            == split_pieces(text, spans),
{
    state.lemma_step();
    if spans_in(text, spans) {
        crate::text::lemma_slice_all(text);
        assert(spans.skip(0) =~= spans);
        assert(split_start(text, spans) == split_at_match(text, spans, 0));
        lemma_split_defined(text, spans, 0);
        if split_defined(text, spans) {
            lemma_split_pieces(text, spans, 0);
            assert(split_pieces(text, spans).skip(0) =~= split_pieces(text, spans));
        }
    }
}

} // verus!
