//! A tally of word occurrences over lines of text.
//!
//! A line is trimmed of surrounding whitespace and then split on every single
//! space character. Runs of spaces inside a line are kept as they are: two
//! spaces side by side leave an empty word between them, and an empty line
//! is one empty word. This is the tokenising rule of the line counter, kept
//! on purpose for compatibility; tabs and other whitespace inside a line are
//! part of the words.

use vstd::prelude::*;

use crate::decimal::{decimal_chars, push_decimal_chars};

verus! {

/// The single character on which lines are split.
pub const SPACE: char = ' ';

/// The words of `s`: the pieces between its space characters, in order.
/// There is always one more word than there are spaces, so an empty text is
/// one empty word.
pub open spec fn split_spaces(s: Seq<char>) -> Seq<Seq<char>>
    decreases s.len(),
{
    if s.len() == 0 {
        seq![Seq::<char>::empty()]
    } else {
        let before = split_spaces(s.drop_last());
        if s.last() == SPACE {
            before.push(Seq::<char>::empty())
        } else {
            before.update(before.len() - 1, before.last().push(s.last()))
        }
    }
}

/// How often `w` has been counted in `m`: zero where it is absent.
pub open spec fn count_in(m: Map<Seq<char>, nat>, w: Seq<char>) -> nat {
    if m.contains_key(w) {
        m[w]
    } else {
        0
    }
}

/// `m` after counting each of `words` once more.
pub open spec fn tally(m: Map<Seq<char>, nat>, words: Seq<Seq<char>>) -> Map<Seq<char>, nat>
    decreases words.len(),
{
    if words.len() == 0 {
        m
    } else {
        let before = tally(m, words.drop_last());
        before.insert(words.last(), count_in(before, words.last()) + 1)
    }
}

/// `s` without the whitespace at either end, as `str::trim` gives it.
pub uninterp spec fn trimmed(s: Seq<char>) -> Seq<char>;

/// Relies on `str::trim`: the line without leading and trailing Unicode
/// whitespace, a part of the line and so no longer than it.
#[verifier::external_body]
fn trim_line(line: &str) -> (r: Vec<char>)
    ensures
        r@ == trimmed(line@),
        r@.len() <= line@.len(),
{
    line.trim().chars().collect()
}

/// The words laid back end to end with one space between each two.
pub open spec fn join_spaces(words: Seq<Seq<char>>) -> Seq<char>
    decreases words.len(),
{
    if words.len() == 0 {
        Seq::empty()
    } else if words.len() == 1 {
        words[0]
    } else {
        join_spaces(words.drop_last()) + seq![SPACE] + words.last()
    }
}

/// Splitting loses nothing and merges nothing: there is at least one word,
/// no word holds a space, and the words joined by single spaces give the
/// text back. So each run of `k` spaces leaves `k - 1` empty words inside
/// it.
pub proof fn lemma_split_spaces(s: Seq<char>)
    ensures
        split_spaces(s).len() >= 1,
        forall|i: int, j: int|
            0 <= i < split_spaces(s).len() && 0 <= j < split_spaces(s)[i].len()
                ==> split_spaces(s)[i][j] != SPACE,
        join_spaces(split_spaces(s)) == s,
    decreases s.len(),
{
    if s.len() > 0 {
        let p = s.drop_last();
        let b = split_spaces(p);
        lemma_split_spaces(p);
        let r = split_spaces(s);
        if s.last() == SPACE {
            assert(r.drop_last() =~= b);
            assert(r.last() =~= Seq::<char>::empty());
            assert(join_spaces(r) =~= s);
            assert forall|i: int, j: int| 0 <= i < r.len() && 0 <= j < r[i].len() implies r[i][j]
                != SPACE by {
                if i < b.len() {
                    assert(r[i] == b[i]);
                }
            }
        } else {
            let c = s.last();
            assert forall|i: int, j: int| 0 <= i < r.len() && 0 <= j < r[i].len() implies r[i][j]
                != SPACE by {
                if i < b.len() - 1 {
                    assert(r[i] == b[i]);
                } else {
                    assert(r[i] == b.last().push(c));
                    if j < b.last().len() {
                        assert(r[i][j] == b[b.len() - 1][j]);
                    }
                }
            }
            if b.len() == 1 {
                assert(join_spaces(r) =~= s);
            } else {
                assert(r.drop_last() =~= b.drop_last());
                assert(r.last() == b.last().push(c));
                assert(join_spaces(b) == join_spaces(b.drop_last()) + seq![SPACE] + b.last());
                assert(join_spaces(r) == join_spaces(b.drop_last()) + seq![SPACE] + b.last().push(c));
                assert(join_spaces(r) =~= p.push(c));
                assert(s =~= p.push(c));
            }
        }
    } else {
        assert(join_spaces(split_spaces(s)) =~= s);
    }
}

/// How many of `words` are `w`.
pub open spec fn occurrences(words: Seq<Seq<char>>, w: Seq<char>) -> nat
    decreases words.len(),
{
    if words.len() == 0 {
        0
    } else {
        occurrences(words.drop_last(), w) + if words.last() == w {
            1nat
        } else {
            0nat
        }
    }
}

/// After a tally of `words`, each word's count has grown by the number of
/// times it occurs among them, and the words counted are those counted
/// before together with those among `words`.
pub proof fn lemma_tally_counts(m: Map<Seq<char>, nat>, words: Seq<Seq<char>>, w: Seq<char>)
    ensures
        count_in(tally(m, words), w) == count_in(m, w) + occurrences(words, w),
        tally(m, words).contains_key(w) <==> (m.contains_key(w) || words.contains(w)),
    decreases words.len(),
{
    if words.len() > 0 {
        lemma_tally_counts(m, words.drop_last(), w);
        if words.drop_last().contains(w) {
            let k = choose|k: int| 0 <= k < words.drop_last().len() && words.drop_last()[k] == w;
            assert(words[k] == w);
        }
        if words.contains(w) && words.last() != w {
            let k = choose|k: int| 0 <= k < words.len() && words[k] == w;
            assert(words.drop_last()[k] == w);
        }
        if words.last() == w {
            assert(words[words.len() - 1] == w);
        }
    }
}

/// The output line for a word and its count: `<word> : <count>` and a newline.
pub open spec fn entry_line(word: Seq<char>, count: nat) -> Seq<char> {
    word + seq![SPACE, ':', SPACE] + decimal_chars(count) + seq!['\n']
}

/// Word occurrence counts, gathered one line at a time.
pub struct WordCounts {
    words: Vec<Vec<char>>,
    counts: Vec<u64>,
    seen: u64,
    model: Ghost<Map<Seq<char>, nat>>,
}

impl View for WordCounts {
    type V = Map<Seq<char>, nat>;

    /// Each word that has been counted, with its number of occurrences.
    closed spec fn view(&self) -> Map<Seq<char>, nat> {
        self.model@
    }
}

impl WordCounts {
    /// How many words have been counted so far, repeats included.
    pub closed spec fn counted(&self) -> nat {
        self.seen as nat
    }

    /// The words are distinct; each has its count in the model; the model
    /// holds no other word; no count exceeds the number of words counted.
    pub closed spec fn wf(&self) -> bool {
        &&& self.words.len() == self.counts.len()
        &&& forall|i: int, j: int|
            0 <= i < j < self.words.len() ==> self.words[i]@ != self.words[j]@
        &&& forall|i: int|
            0 <= i < self.words.len() ==> #[trigger] self.model@.contains_key(self.words[i]@)
                && self.model@[self.words[i]@] == self.counts[i]
        &&& forall|w: Seq<char>|
            #[trigger] self.model@.contains_key(w) ==> exists|i: int|
                0 <= i < self.words.len() && self.words[i]@ == w
        &&& forall|i: int| 0 <= i < self.counts.len() ==> self.counts[i] <= self.seen
    }

    /// An empty tally.
    pub fn new() -> (r: WordCounts)
        ensures
            r.wf(),
            r@ == Map::<Seq<char>, nat>::empty(),
            r.counted() == 0,
    {
        WordCounts { words: Vec::new(), counts: Vec::new(), seen: 0, model: Ghost(Map::empty()) }
    }

    /// How many words have been counted so far, repeats included.
    pub fn total(&self) -> (r: u64)
        ensures
            r as nat == self.counted(),
    {
        self.seen
    }

    /// Where `word` stands among the counted words, if it was counted.
    fn find_word(&self, word: &Vec<char>) -> (r: Option<usize>)
        ensures
            match r {
                Some(i) => i < self.words.len() && self.words[i as int]@ == word@,
                None => forall|j: int| 0 <= j < self.words.len() ==> self.words[j]@ != word@,
            },
    {
        let mut i: usize = 0;
        while i < self.words.len()
            invariant
                i <= self.words.len(),
                forall|j: int| 0 <= j < i ==> self.words[j]@ != word@,
            decreases self.words.len() - i,
        {
            if same_word(&self.words[i], word) {
                return Some(i);
            }
            i = i + 1;
        }
        None
    }

    /// Counts one occurrence of `word`.
    pub fn add_word(&mut self, word: Vec<char>)
        requires
            old(self).wf(),
            old(self).counted() < u64::MAX,
        ensures
            final(self).wf(),
            final(self)@ == old(self)@.insert(word@, count_in(old(self)@, word@) + 1),
            final(self).counted() == old(self).counted() + 1,
    {
        let ghost m = self.model@;
        let found = self.find_word(&word);
        let i: usize = match found {
            Some(k) => k,
            None => self.words.len(),
        };
        self.seen = self.seen + 1;
        if i < self.words.len() {
            let c = self.counts[i];
            self.counts.set(i, c + 1);
            self.model = Ghost(m.insert(word@, (c + 1) as nat));
            assert forall|w: Seq<char>| #[trigger] self.model@.contains_key(w) implies exists|k: int|
                0 <= k < self.words.len() && self.words[k]@ == w by {
                if w != word@ {
                    assert(m.contains_key(w));
                    let k = choose|k: int| 0 <= k < old(self).words.len() && old(self).words[k]@ == w;
                    assert(self.words[k]@ == w);
                } else {
                    assert(self.words[i as int]@ == w);
                }
            }
        } else {
            proof {
                if m.contains_key(word@) {
                    let k = choose|k: int| 0 <= k < self.words.len() && self.words[k]@ == word@;
                    assert(self.words[k]@ == word@);
                }
            }
            self.words.push(word);
            self.counts.push(1);
            self.model = Ghost(m.insert(self.words[i as int]@, 1));
            assert forall|w: Seq<char>| #[trigger] self.model@.contains_key(w) implies exists|k: int|
                0 <= k < self.words.len() && self.words[k]@ == w by {
                if w != self.words[i as int]@ {
                    assert(m.contains_key(w));
                    let k = choose|k: int| 0 <= k < i && old(self).words[k]@ == w;
                    assert(self.words[k]@ == w);
                } else {
                    assert(self.words[i as int]@ == w);
                }
            }
        }
    }

    /// Counts each word of `text`, split on single spaces as the module
    /// describes: empty words included.
    pub fn add_words(&mut self, text: &Vec<char>)
        requires
            old(self).wf(),
            old(self).counted() + text@.len() + 1 <= u64::MAX,
        ensures
            final(self).wf(),
            final(self)@ == tally(old(self)@, split_spaces(text@)),
            final(self).counted() == old(self).counted() + split_spaces(text@).len(),
    {
        let ghost done: Seq<Seq<char>> = Seq::empty();
        let mut current: Vec<char> = Vec::new();
        let mut i: usize = 0;
        assert(text@.take(0) =~= Seq::<char>::empty());
        assert(done.push(current@) =~= seq![Seq::<char>::empty()]);
        while i < text.len()
            invariant
                i <= text.len(),
                self.wf(),
                split_spaces(text@.take(i as int)) == done.push(current@),
                self@ == tally(old(self)@, done),
                self.counted() == old(self).counted() + done.len(),
                done.len() <= i,
                old(self).counted() + text@.len() + 1 <= u64::MAX,
            decreases text.len() - i,
        {
            let c = text[i];
            assert(text@.take(i + 1).drop_last() =~= text@.take(i as int));
            if c == SPACE {
                let word = current;
                current = Vec::new();
                self.add_word(word);
                proof {
                    let before = done;
                    done = done.push(word@);
                    assert(done.drop_last() =~= before);
                    assert(split_spaces(text@.take(i + 1)) =~= done.push(current@));
                }
            } else {
                let ghost before = current@;
                current.push(c);
                assert(split_spaces(text@.take(i + 1)) =~= done.push(current@)) by {
                    let prev = done.push(before);
                    assert(prev.update(prev.len() - 1, prev.last().push(c)) =~= done.push(current@));
                }
            }
            i = i + 1;
        }
        assert(text@.take(i as int) =~= text@);
        let ghost last = current@;
        self.add_word(current);
        proof {
            assert(done.push(last).drop_last() =~= done);
        }
    }

    /// Hands out every counted word with its count, in no particular order:
    /// each word once, with the count that the tally holds for it.
    pub fn into_entries(self) -> (r: Vec<(Vec<char>, u64)>)
        requires
            self.wf(),
        ensures
            forall|i: int, j: int| 0 <= i < j < r.len() ==> r[i].0@ != r[j].0@,
            forall|i: int|
                0 <= i < r.len() ==> #[trigger] self@.contains_key(r[i].0@) && self@[r[i].0@]
                    == r[i].1,
            forall|w: Seq<char>| #[trigger]
                self@.contains_key(w) ==> exists|i: int| 0 <= i < r.len() && r[i].0@ == w,
    {
        let ghost m = self@;
        let ghost ow = self.words@;
        let ghost oc = self.counts@;
        let ghost n = self.words.len();
        let WordCounts { mut words, mut counts, .. } = self;
        let mut r: Vec<(Vec<char>, u64)> = Vec::new();
        while words.len() > 0
            invariant
                words.len() == counts.len(),
                words.len() + r.len() == n,
                forall|k: int| 0 <= k < words.len() ==> words[k] == ow[k] && counts[k] == oc[k],
                forall|j: int|
                    0 <= j < r.len() ==> r[j].0 == ow[n - 1 - j] && r[j].1 == oc[n - 1 - j],
            decreases words.len(),
        {
            let w = words.pop();
            let c = counts.pop();
            match (w, c) {
                (Some(w), Some(c)) => {
                    r.push((w, c));
                },
                _ => {},
            }
        }
        assert forall|w: Seq<char>| #[trigger] m.contains_key(w) implies exists|i: int|
            0 <= i < r.len() && r[i].0@ == w by {
            let k = choose|k: int| 0 <= k < n && ow[k]@ == w;
            assert(r[n - 1 - k].0@ == w);
        }
        r
    }

    /// Counts the words of one line: the line is trimmed of whitespace at
    /// both ends, then split on single spaces.
    pub fn add_line(&mut self, line: &str)
        requires
            old(self).wf(),
            old(self).counted() + line@.len() + 1 <= u64::MAX,
        ensures
            final(self).wf(),
            final(self)@ == tally(old(self)@, split_spaces(trimmed(line@))),
            final(self).counted() == old(self).counted() + split_spaces(trimmed(line@)).len(),
    {
        let text = trim_line(line);
        self.add_words(&text);
    }
}

/// The output line for `word` and its count: `<word> : <count>` and a
/// newline.
pub fn format_entry(word: &Vec<char>, count: u64) -> (r: Vec<char>)
    ensures
        r@ == entry_line(word@, count as nat),
{
    let mut r: Vec<char> = Vec::new();
    let mut i: usize = 0;
    while i < word.len()
        invariant
            i <= word.len(),
            r@ == word@.take(i as int),
        decreases word.len() - i,
    {
        r.push(word[i]);
        i = i + 1;
        assert(r@ =~= word@.take(i as int));
    }
    assert(word@.take(i as int) =~= word@);
    r.push(SPACE);
    r.push(':');
    r.push(SPACE);
    push_decimal_chars(count, &mut r);
    r.push('\n');
    assert(r@ =~= entry_line(word@, count as nat));
    r
}

/// Whether two words are the same text.
fn same_word(a: &Vec<char>, b: &Vec<char>) -> (r: bool)
    ensures
        r == (a@ == b@),
{
    if a.len() != b.len() {
        return false;
    }
    let mut i: usize = 0;
    while i < a.len()
        invariant
            i <= a.len() == b.len(),
            forall|j: int| 0 <= j < i ==> a@[j] == b@[j],
        decreases a.len() - i,
    {
        if a[i] != b[i] {
            return false;
        }
        i = i + 1;
    }
    assert(a@ =~= b@);
    true
}

} // verus!
