//! The candidate characters of similarity rendering, each with the
//! fingerprint of its glyph, and the blank that every cell starts from.
//!
//! Candidates stand in the order in which they were first named: where two
//! of them are equally close to a cell the earlier one is chosen, so the
//! order is part of the result.

use crate::glyph::RenderError;
use vstd::prelude::*;

verus! {

/// The character of the blank.
pub const SPACE: char = ' ';

/// The characters of a sequence without repetitions, each at the place of
/// its first occurrence.
pub open spec fn first_occurrences(chars: Seq<char>) -> Seq<char>
    decreases chars.len(),
{
    if chars.len() == 0 {
        Seq::empty()
    } else {
        let front = first_occurrences(chars.drop_last());
        if front.contains(chars.last()) {
            front
        } else {
            front.push(chars.last())
        }
    }
}

/// The first occurrences hold the characters of the sequence, and no others.
pub proof fn lemma_first_occurrences_same(chars: Seq<char>, c: char)
    ensures
        first_occurrences(chars).contains(c) <==> chars.contains(c),
    decreases chars.len(),
{
    if chars.len() > 0 {
        let front_chars = chars.drop_last();
        let front = first_occurrences(front_chars);
        let last = chars.last();
        let all = first_occurrences(chars);
        lemma_first_occurrences_same(front_chars, c);
        if chars.contains(c) {
            let p = chars.index_of(c);
            if p < chars.len() - 1 {
                assert(front_chars[p] == c);
                assert(front_chars.contains(c));
                let q = front.index_of(c);
                assert(all[q] == c);
            } else if front.contains(last) {
                let q = front.index_of(c);
                assert(all[q] == c);
            } else {
                assert(all[front.len() as int] == c);
            }
            assert(all.contains(c));
        }
        if all.contains(c) {
            let q = all.index_of(c);
            if q < front.len() {
                assert(front[q] == c);
                assert(front.contains(c));
                let p = front_chars.index_of(c);
                assert(chars[p] == c);
            } else {
                assert(chars[chars.len() - 1] == c);
            }
            assert(chars.contains(c));
        }
    }
}

/// Nothing occurs twice among the first occurrences.
pub proof fn lemma_first_occurrences_distinct(chars: Seq<char>)
    ensures
        first_occurrences(chars).no_duplicates(),
        first_occurrences(chars).len() <= chars.len(),
    decreases chars.len(),
{
    if chars.len() > 0 {
        lemma_first_occurrences_distinct(chars.drop_last());
    }
}

/// What came first stays first: of two first occurrences, the earlier one
/// occurs in the sequence before the later one does at all. The function
/// names such an occurrence of the earlier one.
pub proof fn lemma_first_occurrences_order(chars: Seq<char>, i: int, j: int) -> (p: int)
    requires
        0 <= i < j < first_occurrences(chars).len(),
    ensures
        0 <= p < chars.len(),
        chars[p] == first_occurrences(chars)[i],
        forall|q: int| 0 <= q <= p ==> chars[q] != first_occurrences(chars)[j],
    decreases chars.len(),
{
    let front_chars = chars.drop_last();
    let front = first_occurrences(front_chars);
    let last = chars.last();
    if j < front.len() {
        let p = lemma_first_occurrences_order(front_chars, i, j);
        assert(chars[p] == front_chars[p]);
        assert forall|q: int| 0 <= q <= p implies chars[q] != first_occurrences(chars)[j] by {
            assert(chars[q] == front_chars[q]);
        }
        p
    } else {
        assert(front[i] == first_occurrences(chars)[i]);
        assert(front.contains(front[i]));
        lemma_first_occurrences_same(front_chars, front[i]);
        lemma_first_occurrences_same(front_chars, last);
        let p = front_chars.index_of(front[i]);
        assert(chars[p] == front_chars[p]);
        assert forall|q: int| 0 <= q <= p implies chars[q] != last by {
            assert(front_chars[q] == chars[q]);
            if chars[q] == last {
                assert(front_chars.contains(last));
            }
        }
        p
    }
}

/// Whether a character occurs in a list.
pub fn has_char(chars: &Vec<char>, character: char) -> (found: bool)
    ensures
        found == chars@.contains(character),
{
    let mut k: usize = 0;
    while k < chars.len()
        invariant
            k <= chars@.len(),
            forall|p: int| 0 <= p < k ==> chars@[p] != character,
        decreases chars@.len() - k,
    {
        if chars[k] == character {
            return true;
        }
        k = k + 1;
    }
    false
}

/// The characters of a list without repetitions, in the order in which they
/// first occur.
pub fn unique_chars(chars: &Vec<char>) -> (unique: Vec<char>)
    ensures
        unique@ == first_occurrences(chars@),
        unique@.no_duplicates(),
        forall|c: char| unique@.contains(c) <==> chars@.contains(c),
{
    let mut unique: Vec<char> = Vec::new();
    let mut k: usize = 0;
    while k < chars.len()
        invariant
            k <= chars@.len(),
            unique@ == first_occurrences(chars@.take(k as int)),
        decreases chars@.len() - k,
    {
        let character = chars[k];
        proof {
            let next = chars@.take(k + 1);
            assert(next.drop_last() == chars@.take(k as int));
            assert(next.last() == character);
        }
        if !has_char(&unique, character) {
            unique.push(character);
        }
        k = k + 1;
    }
    proof {
        assert(chars@.take(k as int) == chars@);
        lemma_first_occurrences_distinct(chars@);
        assert forall|c: char| unique@.contains(c) <==> chars@.contains(c) by {
            lemma_first_occurrences_same(chars@, c);
        }
    }
    unique
}

/// The characters of a list of entries, in their order.
pub open spec fn entry_chars<F>(entries: Seq<(char, F)>) -> Seq<char> {
    Seq::new(entries.len(), |i: int| entries[i].0)
}

/// The entries after a character was offered with the outcome of its
/// rendering: it is added at the end where it has a fingerprint and is not
/// yet among them, and dropped otherwise.
pub open spec fn offered<F>(
    entries: Seq<(char, F)>,
    character: char,
    outcome: Result<F, RenderError>,
) -> Seq<(char, F)> {
    match outcome {
        Ok(fingerprint) => if entry_chars(entries).contains(character) {
            entries
        } else {
            entries.push((character, fingerprint))
        },
        Err(_) => entries,
    }
}

/// The entries after every character of a list was offered in turn.
pub open spec fn collected<F>(rendered: Seq<(char, Result<F, RenderError>)>) -> Seq<(char, F)>
    decreases rendered.len(),
{
    if rendered.len() == 0 {
        Seq::empty()
    } else {
        offered(collected(rendered.drop_last()), rendered.last().0, rendered.last().1)
    }
}

/// Offering a character keeps every entry in its place and keeps the
/// characters distinct.
pub proof fn lemma_offered<F>(
    entries: Seq<(char, F)>,
    character: char,
    outcome: Result<F, RenderError>,
)
    requires
        entry_chars(entries).no_duplicates(),
    ensures
        entry_chars(offered(entries, character, outcome)).no_duplicates(),
        entries.len() <= offered(entries, character, outcome).len() <= entries.len() + 1,
        forall|i: int|
            0 <= i < entries.len() ==> offered(entries, character, outcome)[i] == entries[i],
        outcome is Ok ==> entry_chars(offered(entries, character, outcome)).contains(character),
{
    let after = offered(entries, character, outcome);
    let chars = entry_chars(entries);
    let chars_after = entry_chars(after);
    if outcome is Ok {
        if chars.contains(character) {
        } else {
            assert(chars_after[entries.len() as int] == character);
            assert forall|i: int, j: int|
                0 <= i < chars_after.len() && 0 <= j < chars_after.len() && i
                    != j implies chars_after[i] != chars_after[j] by {
                if i < entries.len() {
                    assert(chars[i] == chars_after[i]);
                }
                if j < entries.len() {
                    assert(chars[j] == chars_after[j]);
                }
            }
        }
    }
}

/// The characters of a list that have a fingerprint, in the order of the
/// list.
pub open spec fn fingerprinted<F>(rendered: Seq<(char, Result<F, RenderError>)>) -> Seq<char>
    decreases rendered.len(),
{
    if rendered.len() == 0 {
        Seq::empty()
    } else if rendered.last().1 is Ok {
        fingerprinted(rendered.drop_last()).push(rendered.last().0)
    } else {
        fingerprinted(rendered.drop_last())
    }
}

/// The candidates collected from a list are the characters that have a
/// fingerprint, without repetitions, each at the place of its first
/// occurrence.
pub proof fn lemma_collected_chars<F>(rendered: Seq<(char, Result<F, RenderError>)>)
    ensures
        entry_chars(collected(rendered)) == first_occurrences(fingerprinted(rendered)),
    decreases rendered.len(),
{
    if rendered.len() > 0 {
        let front = rendered.drop_last();
        let (character, outcome) = rendered.last();
        lemma_collected_chars(front);
        let before = collected(front);
        if outcome is Ok {
            let chars = fingerprinted(front).push(character);
            assert(chars.drop_last() == fingerprinted(front));
            assert(chars.last() == character);
            if !entry_chars(before).contains(character) {
                assert(entry_chars(collected(rendered)) =~= entry_chars(before).push(character));
            }
        }
    } else {
        assert(entry_chars(collected(rendered)) =~= Seq::<char>::empty());
    }
}

/// The characters collected from a list are distinct.
pub proof fn lemma_collected<F>(rendered: Seq<(char, Result<F, RenderError>)>)
    ensures
        entry_chars(collected(rendered)).no_duplicates(),
        collected(rendered).len() <= rendered.len(),
    decreases rendered.len(),
{
    if rendered.len() > 0 {
        lemma_collected(rendered.drop_last());
        lemma_offered(collected(rendered.drop_last()), rendered.last().0, rendered.last().1);
    }
}

/// The blank and the candidates, in order, with their fingerprints. No
/// character is a candidate twice.
pub struct Charset<F> {
    space: F,
    entries: Vec<(char, F)>,
}

impl<F> View for Charset<F> {
    type V = Seq<(char, F)>;

    closed spec fn view(&self) -> Seq<(char, F)> {
        self.entries@
    }
}

impl<F> Charset<F> {
    #[verifier::type_invariant]
    spec fn distinct(&self) -> bool {
        entry_chars(self.entries@).no_duplicates()
    }

    /// The fingerprint of the blank.
    pub closed spec fn space(&self) -> F {
        self.space
    }

    /// A charset of the blank alone.
    pub fn new(space: F) -> (charset: Self)
        ensures
            charset@ == Seq::<(char, F)>::empty(),
            charset.space() == space,
    {
        Charset { space, entries: Vec::new() }
    }

    /// The charset after a character was offered with the outcome of its
    /// rendering. A character that could not be rendered or fingerprinted is
    /// dropped, and so is one that is a candidate already.
    pub fn offer(self, character: char, outcome: Result<F, RenderError>) -> (charset: Self)
        ensures
            charset@ == offered(self@, character, outcome),
            charset.space() == self.space(),
    {
        proof {
            use_type_invariant(&self);
            lemma_offered(self.entries@, character, outcome);
        }
        match outcome {
            Ok(fingerprint) => {
                if self.contains(character) {
                    self
                } else {
                    let Charset { space, entries } = self;
                    let mut entries = entries;
                    entries.push((character, fingerprint));
                    Charset { space, entries }
                }
            },
            Err(_) => self,
        }
    }

    /// The charset of the blank and of the characters of a list that have a
    /// fingerprint, each once, in the order of the list.
    pub fn build(space: F, rendered: Vec<(char, Result<F, RenderError>)>) -> (charset: Self)
        ensures
            charset@ == collected(rendered@),
            charset.space() == space,
    {
        let mut charset = Charset::new(space);
        let ghost all = rendered@;
        for item in iter: rendered
            invariant
                iter.seq() == all,
                charset@ == collected(all.take(iter.index() as int)),
                charset.space() == space,
        {
            proof {
                let next = all.take(iter.index() + 1);
                assert(next.drop_last() == all.take(iter.index() as int));
                assert(next.last() == item);
            }
            let (character, outcome) = item;
            charset = charset.offer(character, outcome);
        }
        proof {
            assert(all.take(all.len() as int) == all);
        }
        charset
    }

    /// The number of candidates.
    pub fn len(&self) -> (len: usize)
        ensures
            len == self@.len(),
            entry_chars(self@).no_duplicates(),
    {
        proof {
            use_type_invariant(self);
        }
        self.entries.len()
    }

    /// Whether a character is a candidate.
    pub fn contains(&self, character: char) -> (found: bool)
        ensures
            found == entry_chars(self@).contains(character),
    {
        let mut k: usize = 0;
        while k < self.entries.len()
            invariant
                k <= self.entries@.len(),
                forall|p: int| 0 <= p < k ==> entry_chars(self.entries@)[p] != character,
            decreases self.entries@.len() - k,
        {
            if self.entries[k].0 == character {
                assert(entry_chars(self.entries@)[k as int] == character);
                return true;
            }
            k = k + 1;
        }
        false
    }

    /// The character of candidate `i`.
    pub fn character(&self, i: usize) -> (character: char)
        requires
            i < self@.len(),
        ensures
            character == self@[i as int].0,
    {
        self.entries[i].0
    }

    /// The fingerprint of candidate `i`.
    pub fn fingerprint(&self, i: usize) -> (fingerprint: &F)
        requires
            i < self@.len(),
        ensures
            *fingerprint == self@[i as int].1,
    {
        &self.entries[i].1
    }

    /// The fingerprint of the blank.
    pub fn space_fingerprint(&self) -> (fingerprint: &F)
        ensures
            *fingerprint == self.space(),
    {
        &self.space
    }
}

} // verus!
