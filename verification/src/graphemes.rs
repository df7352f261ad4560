//! The user-perceived characters of a text.

use std::collections::HashMap;

use unicode_segmentation::UnicodeSegmentation;
use vstd::prelude::*;

use crate::text::{at_boundary, byte_len, byte_slice, slice, str_len};

verus! {

/// Where the legacy grapheme clusters of `text` start, as
/// `unicode_segmentation::UnicodeSegmentation::grapheme_indices` finds them.
pub uninterp spec fn grapheme_starts(text: Seq<char>) -> Seq<usize>;

/// Whether each of `offsets` is greater than the one before it.
pub open spec fn increasing(offsets: Seq<usize>) -> bool {
    forall|i: int, j: int| 0 <= i < j < offsets.len() ==> offsets[i] < offsets[j]
}

/// Whether clusters that start at `offsets` cut `text` into non-empty parts.
pub open spec fn cuts(text: Seq<char>, offsets: Seq<usize>) -> bool {
    &&& increasing(offsets)
    &&& forall|i: int|
        #![trigger offsets[i]]
        0 <= i < offsets.len() ==> offsets[i] < byte_len(text) && at_boundary(
            text,
            offsets[i] as int,
        )
    &&& text.len() > 0 ==> offsets.len() > 0 && offsets[0] == 0
}

/// Calls `UnicodeSegmentation::grapheme_indices` for legacy clusters and keeps the offset of each.
/// The clusters are not empty, follow one another, and the first starts where the text does.
#[verifier::external_body]
pub(crate) fn grapheme_offsets(text: &str) -> (offsets: Vec<usize>)
    ensures
        offsets@ == grapheme_starts(text@),
        cuts(text@, offsets@),
{
    text.grapheme_indices(false).map(|(offset, _)| offset).collect()
}

/// The first of `offsets` that is greater than `pos`.
pub open spec fn next_after(offsets: Seq<usize>, pos: int) -> Option<usize>
    decreases offsets.len(),
{
    if offsets.len() == 0 {
        None
    } else if offsets[0] > pos {
        Some(offsets[0])
    } else {
        next_after(offsets.drop_first(), pos)
    }
}

/// The last of `offsets` that is less than `pos`.
pub open spec fn prev_before(offsets: Seq<usize>, pos: int) -> Option<usize>
    decreases offsets.len(),
{
    if offsets.len() == 0 {
        None
    } else if offsets.last() < pos {
        Some(offsets.last())
    } else {
        prev_before(offsets.drop_last(), pos)
    }
}

/// Where no offset up to index `i` is greater than `pos`, the search goes on from there.
proof fn lemma_next_after_skip(offsets: Seq<usize>, pos: int, i: int)
    requires
        0 <= i <= offsets.len(),
        forall|j: int| 0 <= j < i ==> offsets[j] <= pos,
    ensures
        next_after(offsets, pos) == next_after(offsets.skip(i), pos),
    decreases i,
{
    if i == 0 {
        assert(offsets.skip(0) =~= offsets);
    } else {
        lemma_next_after_skip(offsets, pos, i - 1);
        assert(offsets.skip(i - 1).drop_first() =~= offsets.skip(i));
    }
}

/// Where no offset from index `i` on is less than `pos`, the search goes on before there.
proof fn lemma_prev_before_take(offsets: Seq<usize>, pos: int, i: int)
    requires
        0 <= i <= offsets.len(),
        forall|j: int| i <= j < offsets.len() ==> offsets[j] >= pos,
    ensures
        prev_before(offsets, pos) == prev_before(offsets.take(i), pos),
    decreases offsets.len() - i,
{
    if i == offsets.len() {
        assert(offsets.take(i) =~= offsets);
    } else {
        lemma_prev_before_take(offsets, pos, i + 1);
        assert(offsets.take(i + 1).drop_last() =~= offsets.take(i));
    }
}

/// The offset found is one of those searched, and lies after `pos`.
pub proof fn lemma_next_after(offsets: Seq<usize>, pos: int)
    ensures
        next_after(offsets, pos) matches Some(p) ==> p > pos && offsets.contains(p),
        next_after(offsets, pos) is None <==> forall|i: int|
            0 <= i < offsets.len() ==> offsets[i] <= pos,
    decreases offsets.len(),
{
    if offsets.len() > 0 {
        if offsets[0] > pos {
            assert(offsets.contains(offsets[0]));
        } else {
            let rest = offsets.drop_first();
            lemma_next_after(rest, pos);
            assert forall|i: int| 0 <= i < rest.len() implies offsets.contains(rest[i]) by {
                assert(rest[i] == offsets[i + 1]);
            }
            if next_after(rest, pos) is None {
                assert forall|i: int| 0 <= i < offsets.len() implies offsets[i] <= pos by {
                    if i > 0 {
                        assert(offsets[i] == rest[i - 1]);
                    }
                }
            } else {
                let i = rest.index_of(next_after(rest, pos)->0);
                assert(rest[i] == offsets[i + 1]);
            }
        }
    }
}

/// Of increasing offsets the search finds the nearest: it is one of them, lies after `pos`, and no
/// other lies between `pos` and it.
pub proof fn lemma_next_is_nearest(offsets: Seq<usize>, pos: int)
    requires
        increasing(offsets),
    ensures
        next_after(offsets, pos) matches Some(p) ==> p > pos && offsets.contains(p),
        forall|q: usize| #[trigger]
            offsets.contains(q) && q > pos ==> next_after(offsets, pos) is Some && next_after(
                offsets,
                pos,
            )->0 <= q,
    decreases offsets.len(),
{
    lemma_next_after(offsets, pos);
    if offsets.len() > 0 && offsets[0] <= pos {
        let rest = offsets.drop_first();
        lemma_next_is_nearest(rest, pos);
        assert forall|q: usize| #[trigger] offsets.contains(q) && q > pos implies rest.contains(
            q,
        ) by {
            let i = offsets.index_of(q);
            assert(rest[i - 1] == q);
        }
    }
}

/// Of increasing offsets the backward search finds the nearest: it is one of them, lies before
/// `pos`, and no other lies between it and `pos`.
pub proof fn lemma_prev_is_nearest(offsets: Seq<usize>, pos: int)
    requires
        increasing(offsets),
    ensures
        prev_before(offsets, pos) matches Some(p) ==> p < pos && offsets.contains(p),
        forall|q: usize| #[trigger]
            offsets.contains(q) && q < pos ==> prev_before(offsets, pos) is Some && q
                <= prev_before(offsets, pos)->0,
    decreases offsets.len(),
{
    if offsets.len() > 0 {
        let rest = offsets.drop_last();
        if offsets.last() < pos {
            assert(offsets.contains(offsets.last()));
        } else {
            lemma_prev_is_nearest(rest, pos);
            assert forall|q: usize| #[trigger] offsets.contains(q) && q < pos implies rest.contains(
                q,
            ) by {
                let i = offsets.index_of(q);
                assert(rest[i] == q);
            }
            if prev_before(rest, pos) is Some {
                let i = rest.index_of(prev_before(rest, pos)->0);
                assert(offsets[i] == rest[i]);
            }
        }
    }
}

/// The offsets at which the grapheme clusters of a text start.
pub struct GraphemeCursor {
    grapheme_offsets: Vec<usize>,
}

impl View for GraphemeCursor {
    type V = Seq<usize>;

    closed spec fn view(&self) -> Seq<usize> {
        self.grapheme_offsets@
    }
}

impl GraphemeCursor {
    #[verifier::type_invariant]
    spec fn sorted(self) -> bool {
        increasing(self.grapheme_offsets@)
    }

    /// A cursor over clusters that start at `grapheme_offsets`.
    pub fn new(grapheme_offsets: Vec<usize>) -> (cursor: GraphemeCursor)
        requires
            increasing(grapheme_offsets@),
        ensures
            cursor@ == grapheme_offsets@,
    {
        GraphemeCursor { grapheme_offsets }
    }

    /// Where the first cluster after `pos` starts.
    pub fn next_grapheme(&self, pos: usize) -> (next: Option<usize>)
        ensures
            next == next_after(self@, pos as int),
            next matches Some(p) ==> p > pos && self@.contains(p),
            forall|q: usize| #[trigger]
                self@.contains(q) && q > pos ==> next is Some && next->0 <= q,
    {
        for i in 0..self.grapheme_offsets.len()
            invariant
                forall|j: int| 0 <= j < i ==> self.grapheme_offsets@[j] <= pos,
        {
            let p = self.grapheme_offsets[i];
            if p > pos {
                proof {
                    use_type_invariant(self);
                    lemma_next_after_skip(self@, pos as int, i as int);
                    lemma_next_is_nearest(self@, pos as int);
                }
                return Some(p);
            }
        }
        proof {
            lemma_next_after(self@, pos as int);
        }
        None
    }

    /// Where the last cluster before `pos` starts.
    pub fn prev_grapheme(&self, pos: usize) -> (prev: Option<usize>)
        ensures
            prev == prev_before(self@, pos as int),
            prev matches Some(p) ==> p < pos && self@.contains(p),
            forall|q: usize| #[trigger]
                self@.contains(q) && q < pos ==> prev is Some && prev->0 >= q,
    {
        let mut i: usize = self.grapheme_offsets.len();
        while i > 0
            invariant
                i <= self.grapheme_offsets@.len(),
                forall|j: int|
                    i <= j < self.grapheme_offsets@.len() ==> self.grapheme_offsets@[j] >= pos,
            decreases i,
        {
            i = i - 1;
            let p = self.grapheme_offsets[i];
            if p < pos {
                proof {
                    use_type_invariant(self);
                    lemma_prev_is_nearest(self@, pos as int);
                    lemma_prev_before_take(self@, pos as int, i + 1);
                    assert(self@.take(i + 1).last() == p);
                }
                return Some(p);
            }
        }
        proof {
            lemma_prev_before_take(self@, pos as int, 0);
            assert(self@.take(0) =~= Seq::<usize>::empty());
        }
        None
    }
}

/// The clusters of `text` that start at `offsets`, each by its offset: a cluster ends where the
/// next one starts, the last one at the end of the text.
pub open spec fn clusters(text: Seq<char>, offsets: Seq<usize>) -> Map<usize, Seq<char>> {
    Map::new(
        |p: usize| offsets.contains(p),
        |p: usize|
            byte_slice(
                text,
                p as int,
                match next_after(offsets, p as int) {
                    Some(q) => q as int,
                    None => byte_len(text) as int,
                },
            ),
    )
}

/// The strings of a table of clusters.
pub open spec fn cluster_views(table: Map<usize, &str>) -> Map<usize, Seq<char>> {
    table.map_values(|cluster: &str| cluster@)
}

/// The clusters of `text` that start at `offsets`, each by its offset.
pub fn cluster_table<'a>(text: &'a str, offsets: &Vec<usize>) -> (table: HashMap<usize, &'a str>)
    requires
        cuts(text@, offsets@),
    ensures
        cluster_views(table@) == clusters(text@, offsets@),
{
    broadcast use vstd::std_specs::hash::group_hash_axioms;

    let len = str_len(text);
    let mut table: HashMap<usize, &'a str> = HashMap::new();
    proof {
        crate::text::lemma_ends(text@);
    }
    for i in 0..offsets.len()
        invariant
            len == byte_len(text@),
            at_boundary(text@, len as int),
            cuts(text@, offsets@),
            forall|p: usize|
                #![trigger table@.contains_key(p)]
                table@.contains_key(p) <==> offsets@.take(i as int).contains(p),
            forall|p: usize|
                #![trigger table@[p]]
                table@.contains_key(p) ==> table@[p]@ == clusters(text@, offsets@)[p],
    {
        broadcast use vstd::std_specs::hash::group_hash_axioms;

        let start = offsets[i];
        let end = if i + 1 < offsets.len() {
            offsets[i + 1]
        } else {
            len
        };
        proof {
            lemma_next_after_skip(offsets@, start as int, i + 1);
            assert(offsets@.contains(start));
        }
        table.insert(start, slice(text, start, end));
        proof {
            let shorter = offsets@.take(i as int);
            let longer = offsets@.take(i + 1);
            assert(longer =~= shorter.push(start));
            assert forall|p: usize|
                #![trigger table@.contains_key(p)]
                table@.contains_key(p) <==> longer.contains(p) by {
                if shorter.contains(p) {
                    assert(longer[shorter.index_of(p)] == p);
                }
                assert(longer[i as int] == start);
                if longer.contains(p) && p != start {
                    assert(shorter[longer.index_of(p)] == p);
                }
            }
        }
    }
    assert(offsets@.take(offsets@.len() as int) =~= offsets@);
    assert(cluster_views(table@) =~= clusters(text@, offsets@));
    table
}

} // verus!
