use vstd::prelude::*;
use vstd::string::StringExecFns;
use crate::line_store::LineStore;
use crate::tokens::{has_token, split_on_space, split_spaces, views_of};

verus! {

/// The lines, by number, on which `w` stands as a space-separated token.
pub open spec fn lines_with(lines: Seq<Seq<char>>, w: Seq<char>) -> Set<int> {
    Set::new(|n: int| 1 <= n <= lines.len() && has_token(lines[n - 1], w))
}

/// The index that a store of `lines` determines: each token of any line maps
/// to the set of numbers of the lines on which it stands.
pub open spec fn index_of(lines: Seq<Seq<char>>) -> Map<Seq<char>, Set<int>> {
    Map::new(|w: Seq<char>| !lines_with(lines, w).is_empty(), |w: Seq<char>| lines_with(lines, w))
}

/// The line numbers that index `idx` records for `w`; none where it has no
/// entry for `w`.
pub open spec fn term_lines(idx: Map<Seq<char>, Set<int>>, w: Seq<char>) -> Set<int> {
    if idx.contains_key(w) {
        idx[w]
    } else {
        Set::empty()
    }
}

/// One word of the index and the numbers of the lines it was seen on.
struct IndexEntry {
    word: String,
    lines: Vec<usize>,
}

/// The numbers held in a list of line numbers.
pub open spec fn numbers_in(lines: Seq<usize>) -> Set<int> {
    Set::new(|n: int| exists|k: int| 0 <= k < lines.len() && lines[k] as int == n)
}

/// Appending a number to a list adds it to the numbers the list holds.
pub proof fn lemma_numbers_push(s: Seq<usize>, x: usize)
    ensures
        numbers_in(s.push(x)) == numbers_in(s).insert(x as int),
{
    let t = s.push(x);
    assert forall|n: int| numbers_in(s).contains(n) implies numbers_in(t).contains(n) by {
        let k = choose|k: int| 0 <= k < s.len() && s[k] as int == n;
        assert(t[k] == s[k]);
    }
    assert forall|n: int| numbers_in(t).contains(n) implies numbers_in(s).insert(x as int).contains(n) by {
        let k = choose|k: int| 0 <= k < t.len() && t[k] as int == n;
        if k < s.len() {
            assert(t[k] == s[k]);
        }
    }
    assert(t[s.len() as int] == x);
    assert(numbers_in(t) =~= numbers_in(s).insert(x as int));
}

/// A map from word to the set of numbers of the lines that hold it.
pub struct InvertedIndex {
    entries: Vec<IndexEntry>,
}

impl InvertedIndex {
    /// Whether entry `i` is for the word `w`.
    spec fn word_at(&self, w: Seq<char>, i: int) -> bool {
        0 <= i < self.entries@.len() && self.entries@[i].word@ == w
    }

    /// The line numbers recorded for `w` over all its entries.
    spec fn recorded(&self, w: Seq<char>) -> Set<int> {
        Set::new(
            |n: int|
                exists|i: int| self.word_at(w, i) && numbers_in(self.entries@[i].lines@).contains(n),
        )
    }

    /// An index with no words.
    pub fn new() -> (idx: InvertedIndex)
        ensures
            idx@ == Map::<Seq<char>, Set<int>>::empty(),
    {
        let idx = InvertedIndex { entries: Vec::new() };
        assert(idx@ =~= Map::<Seq<char>, Set<int>>::empty());
        idx
    }

    /// The line numbers recorded for `w` in the entries before position `i`.
    spec fn recorded_before(&self, w: Seq<char>, i: int) -> Set<int> {
        Set::new(
            |n: int|
                exists|j: int|
                    0 <= j < i && self.word_at(w, j) && numbers_in(self.entries@[j].lines@).contains(
                        n,
                    ),
        )
    }

    /// The numbers of the lines on which `word` stands; none where the index
    /// has no entry for it.
    pub fn lines_of(&self, word: &str) -> (numbers: Vec<usize>)
        ensures
            numbers_in(numbers@) == term_lines(self@, word@),
    {
        let key = String::from_str(word);
        let mut numbers: Vec<usize> = Vec::new();
        let mut i: usize = 0;
        proof {
            assert(numbers_in(numbers@) =~= self.recorded_before(word@, 0));
        }
        while i < self.entries.len()
            invariant
                i <= self.entries@.len(),
                key@ == word@,
                numbers_in(numbers@) == self.recorded_before(word@, i as int),
            decreases self.entries@.len() - i,
        {
            if self.entries[i].word == key {
                let lines = &self.entries[i].lines;
                let ghost start = numbers@;
                let mut k: usize = 0;
                proof {
                    assert(lines@.take(0) =~= Seq::<usize>::empty());
                    assert(numbers_in(lines@.take(0)) =~= Set::<int>::empty());
                    assert(numbers_in(start).union(numbers_in(lines@.take(0))) =~= numbers_in(start));
                }
                while k < lines.len()
                    invariant
                        k <= lines@.len(),
                        numbers_in(numbers@) == numbers_in(start).union(numbers_in(lines@.take(k as int))),
                    decreases lines@.len() - k,
                {
                    let ghost before = numbers@;
                    numbers.push(lines[k]);
                    proof {
                        lemma_numbers_push(before, lines@[k as int]);
                        assert(lines@.take(k + 1) =~= lines@.take(k as int).push(lines@[k as int]));
                        lemma_numbers_push(lines@.take(k as int), lines@[k as int]);
                        assert(numbers_in(numbers@) =~= numbers_in(start).union(numbers_in(lines@.take(k + 1))));
                    }
                    k = k + 1;
                }
                proof {
                    assert(lines@.take(k as int) =~= lines@);
                    let w = word@;
                    assert(self.word_at(w, i as int));
                    assert forall|n: int| #[trigger] self.recorded_before(w, i + 1).contains(n) implies self.recorded_before(w, i as int).union(numbers_in(lines@)).contains(n) by {
                        let j = choose|j: int| 0 <= j < i + 1 && self.word_at(w, j) && numbers_in(self.entries@[j].lines@).contains(n);
                        if j < i {
                            assert(self.recorded_before(w, i as int).contains(n));
                        }
                    }
                    assert forall|n: int| #[trigger] self.recorded_before(w, i as int).union(numbers_in(lines@)).contains(n) implies self.recorded_before(w, i + 1).contains(n) by {
                        if self.recorded_before(w, i as int).contains(n) {
                            let j = choose|j: int| 0 <= j < i && self.word_at(w, j) && numbers_in(self.entries@[j].lines@).contains(n);
                            assert(0 <= j < i + 1 && self.word_at(w, j) && numbers_in(self.entries@[j].lines@).contains(n));
                        } else {
                            assert(0 <= i < i + 1 && self.word_at(w, i as int) && numbers_in(self.entries@[i as int].lines@).contains(n));
                        }
                    }
                    assert(self.recorded_before(w, i + 1) =~= self.recorded_before(w, i as int).union(numbers_in(lines@)));
                }
            } else {
                proof {
                    assert(self.recorded_before(word@, i + 1) =~= self.recorded_before(word@, i as int));
                }
            }
            i = i + 1;
        }
        proof {
            assert(self.recorded_before(word@, i as int) =~= self.recorded(word@));
            if !self@.contains_key(word@) {
                assert(self.recorded(word@) =~= Set::<int>::empty());
            }
        }
        numbers
    }

    /// Whether the index has no words at all.
    pub fn is_empty(&self) -> (r: bool)
        ensures
            r == (self@.dom() == Set::<Seq<char>>::empty()),
    {
        if self.entries.len() == 0 {
            assert(self@.dom() =~= Set::<Seq<char>>::empty());
            true
        } else {
            assert(self@.dom().contains(self.entries@[0].word@)) by {
                assert(self.word_at(self.entries@[0].word@, 0));
            }
            false
        }
    }

    /// Records that `word` stands on line `number`.
    fn add_occurrence(&mut self, word: String, number: usize)
        ensures
            final(self)@ == old(self)@.insert(
                word@,
                if old(self)@.contains_key(word@) {
                    old(self)@[word@]
                } else {
                    Set::empty()
                }.insert(number as int),
            ),
    {
        let mut i: usize = 0;
        while i < self.entries.len()
            invariant
                0 <= i <= self.entries@.len(),
                forall|j: int| 0 <= j < i ==> !self.word_at(word@, j),
            ensures
                i <= self.entries@.len(),
                forall|j: int| 0 <= j < i ==> !self.word_at(word@, j),
                i < self.entries@.len() ==> self.word_at(word@, i as int),
            decreases self.entries@.len() - i,
        {
            if self.entries[i].word == word {
                break;
            }
            i = i + 1;
        }
        let ghost before = *self;
        if i < self.entries.len() {
            let ghost old_lines = self.entries@[i as int].lines@;
            let n_lines = self.entries[i].lines.len();
            if n_lines == 0 || self.entries[i].lines[n_lines - 1] != number {
                self.entries[i].lines.push(number);
            }
            proof {
                let new_lines = self.entries@[i as int].lines@;
                assert(numbers_in(new_lines) =~= numbers_in(old_lines).insert(number as int)) by {
                    if new_lines.len() == old_lines.len() {
                        assert(new_lines[n_lines - 1] == number);
                    } else {
                        assert(new_lines =~= old_lines.push(number));
                        assert forall|n: int| numbers_in(old_lines).contains(n) implies numbers_in(
                            new_lines,
                        ).contains(n) by {
                            let k = choose|k: int|
                                0 <= k < old_lines.len() && old_lines[k] as int == n;
                            assert(new_lines[k] == old_lines[k]);
                        }
                        assert(new_lines[old_lines.len() as int] == number);
                    }
                }
                assert(old(self)@.contains_key(word@)) by {
                    assert(before.word_at(word@, i as int));
                }
                assert forall|j: int| 0 <= j < self.entries@.len() && j != i implies (
                #[trigger] self.entries@[j]).lines@ == before.entries@[j].lines@ by {
                    assert(self.entries@[j] == before.entries@[j]);
                }
                self.lemma_after_update(before, word@, i as int, number as int);
            }
        } else {
            let ghost w = word@;
            self.entries.push(IndexEntry { word, lines: vec![number] });
            proof {
                assert(numbers_in(self.entries@.last().lines@) =~= set![number as int]) by {
                    assert(self.entries@.last().lines@[0] == number);
                }
                assert(self.entries@ =~= before.entries@.push(self.entries@.last()));
                assert(!before@.contains_key(w));
                self.lemma_after_push(before, w, number as int);
            }
        }
    }

    /// Adding a number to the lines of entry `i` adds it to the set of that
    /// entry's word and leaves every other word as it was.
    proof fn lemma_after_update(&self, before: InvertedIndex, w: Seq<char>, i: int, number: int)
        requires
            self.entries@.len() == before.entries@.len(),
            before.word_at(w, i),
            forall|j: int|
                0 <= j < self.entries@.len() ==> (#[trigger] self.entries@[j]).word@
                    == before.entries@[j].word@,
            forall|j: int|
                0 <= j < self.entries@.len() && j != i ==> (#[trigger] self.entries@[j]).lines@
                    == before.entries@[j].lines@,
            numbers_in(self.entries@[i].lines@) == numbers_in(before.entries@[i].lines@).insert(
                number,
            ),
        ensures
            self@ == before@.insert(w, before@[w].insert(number)),
    {
        assert forall|u: Seq<char>, j: int| self.word_at(u, j) <==> before.word_at(u, j) by {
            if 0 <= j < self.entries@.len() {
                assert(self.entries@[j].word@ == before.entries@[j].word@);
            }
        }
        assert forall|u: Seq<char>| u != w implies #[trigger] self.recorded(u) == before.recorded(u) by {
            assert forall|n: int| self.recorded(u).contains(n) <==> before.recorded(u).contains(n) by {
                if self.recorded(u).contains(n) {
                    let j = choose|j: int|
                        self.word_at(u, j) && numbers_in(self.entries@[j].lines@).contains(n);
                    assert(before.word_at(u, j) && numbers_in(before.entries@[j].lines@).contains(n));
                }
                if before.recorded(u).contains(n) {
                    let j = choose|j: int|
                        before.word_at(u, j) && numbers_in(before.entries@[j].lines@).contains(n);
                    assert(self.word_at(u, j) && numbers_in(self.entries@[j].lines@).contains(n));
                }
            }
            assert(self.recorded(u) =~= before.recorded(u));
        }
        assert(self.recorded(w) =~= before.recorded(w).insert(number)) by {
            assert forall|n: int| self.recorded(w).contains(n) implies before.recorded(w).insert(
                number,
            ).contains(n) by {
                let j = choose|j: int|
                    self.word_at(w, j) && numbers_in(self.entries@[j].lines@).contains(n);
                if j != i {
                    assert(before.word_at(w, j) && numbers_in(before.entries@[j].lines@).contains(n));
                } else if n != number {
                    assert(before.word_at(w, i) && numbers_in(before.entries@[i].lines@).contains(n));
                }
            }
            assert forall|n: int| before.recorded(w).insert(number).contains(n) implies self.recorded(
                w,
            ).contains(n) by {
                if n == number {
                    assert(self.word_at(w, i) && numbers_in(self.entries@[i].lines@).contains(n));
                } else {
                    let j = choose|j: int|
                        before.word_at(w, j) && numbers_in(before.entries@[j].lines@).contains(n);
                    assert(self.word_at(w, j) && numbers_in(self.entries@[j].lines@).contains(n));
                }
            }
        }
        assert(self@ =~= before@.insert(w, before@[w].insert(number)));
    }

    /// Appending an entry for a word that had none gives that word the
    /// entry's set and leaves every other word as it was.
    proof fn lemma_after_push(&self, before: InvertedIndex, w: Seq<char>, number: int)
        requires
            self.entries@ == before.entries@.push(self.entries@.last()),
            self.entries@.last().word@ == w,
            numbers_in(self.entries@.last().lines@) == set![number],
            !before@.contains_key(w),
        ensures
            self@ == before@.insert(w, set![number]),
    {
        let last = before.entries@.len() as int;
        assert forall|u: Seq<char>, j: int| j != last implies self.word_at(u, j) == before.word_at(u, j) by {
            if 0 <= j < last {
                assert(self.entries@[j] == before.entries@[j]);
            }
        }
        assert forall|u: Seq<char>| u != w implies #[trigger] self.recorded(u) == before.recorded(u) by {
            assert forall|n: int| self.recorded(u).contains(n) <==> before.recorded(u).contains(n) by {
                if self.recorded(u).contains(n) {
                    let j = choose|j: int|
                        self.word_at(u, j) && numbers_in(self.entries@[j].lines@).contains(n);
                    assert(self.entries@[j] == before.entries@[j]);
                    assert(before.word_at(u, j) && numbers_in(before.entries@[j].lines@).contains(n));
                }
                if before.recorded(u).contains(n) {
                    let j = choose|j: int|
                        before.word_at(u, j) && numbers_in(before.entries@[j].lines@).contains(n);
                    assert(self.entries@[j] == before.entries@[j]);
                    assert(self.word_at(u, j) && numbers_in(self.entries@[j].lines@).contains(n));
                }
            }
            assert(self.recorded(u) =~= before.recorded(u));
        }
        assert(self.recorded(w) =~= set![number]) by {
            assert forall|n: int| self.recorded(w).contains(n) implies n == number by {
                let j = choose|j: int|
                    self.word_at(w, j) && numbers_in(self.entries@[j].lines@).contains(n);
                if j != last {
                    assert(before.word_at(w, j));
                }
            }
            assert(self.word_at(w, last) && numbers_in(self.entries@[last].lines@).contains(number));
        }
        assert forall|u: Seq<char>| self@.contains_key(u) <==> before@.insert(w, set![number]).contains_key(u) by {
            if self@.contains_key(u) && u != w {
                let j = choose|j: int| self.word_at(u, j);
                assert(before.word_at(u, j));
            }
            if before@.contains_key(u) {
                let j = choose|j: int| before.word_at(u, j);
                assert(self.word_at(u, j));
            }
            if u == w {
                assert(self.word_at(w, last));
            }
        }
        assert(self@ =~= before@.insert(w, set![number]));
    }
}

impl View for InvertedIndex {
    type V = Map<Seq<char>, Set<int>>;

    /// Each word that has an entry, with its recorded line numbers.
    closed spec fn view(&self) -> Map<Seq<char>, Set<int>> {
        Map::new(
            |w: Seq<char>| exists|i: int| self.word_at(w, i),
            |w: Seq<char>| self.recorded(w),
        )
    }
}

/// The index `m` after the tokens `extra` of line `number` have been recorded.
pub open spec fn with_tokens(m: Map<Seq<char>, Set<int>>, extra: Seq<Seq<char>>, number: int) -> Map<
    Seq<char>,
    Set<int>,
> {
    Map::new(
        |w: Seq<char>| m.contains_key(w) || extra.contains(w),
        |w: Seq<char>|
            if m.contains_key(w) {
                m[w]
            } else {
                Set::empty()
            }.union(
                if extra.contains(w) {
                    set![number]
                } else {
                    Set::empty()
                },
            ),
    )
}

/// Recording one more token `w` of line `number`.
proof fn lemma_one_more_token(
    base: Map<Seq<char>, Set<int>>,
    prev: Seq<Seq<char>>,
    w: Seq<char>,
    number: int,
)
    ensures
        ({
            let m = with_tokens(base, prev, number);
            m.insert(
                w,
                if m.contains_key(w) {
                    m[w]
                } else {
                    Set::empty()
                }.insert(number),
            )
        }) =~~= with_tokens(base, prev.push(w), number),
{
    let m = with_tokens(base, prev, number);
    let next = with_tokens(base, prev.push(w), number);
    assert(prev.push(w).contains(w)) by {
        assert(prev.push(w)[prev.len() as int] == w);
    }
    assert forall|u: Seq<char>| u != w implies #[trigger] prev.push(w).contains(u) == prev.contains(
        u,
    ) by {
        if prev.push(w).contains(u) {
            let k = choose|k: int| 0 <= k < prev.push(w).len() && prev.push(w)[k] == u;
            assert(prev[k] == u);
        }
        if prev.contains(u) {
            let k = choose|k: int| 0 <= k < prev.len() && prev[k] == u;
            assert(prev.push(w)[k] == u);
        }
    }
    assert(next[w] =~= if m.contains_key(w) {
        m[w]
    } else {
        Set::empty()
    }.insert(number));
}

/// Recording all tokens of the next line extends the index of the lines
/// before it to the index of the lines up to it.
proof fn lemma_next_line(lines: Seq<Seq<char>>, n: int)
    requires
        0 <= n < lines.len(),
    ensures
        with_tokens(index_of(lines.take(n)), split_on_space(lines[n]), n + 1) =~~= index_of(
            lines.take(n + 1),
        ),
{
    let before = lines.take(n);
    let after = lines.take(n + 1);
    assert forall|w: Seq<char>|
        #[trigger] lines_with(after, w) == lines_with(before, w).union(
            if has_token(lines[n], w) {
                set![n + 1]
            } else {
                Set::empty()
            },
        ) by {
        assert forall|m: int| 1 <= m <= n implies #[trigger] after[m - 1] == before[m - 1] by {}
        assert(after[n] == lines[n]);
        assert(lines_with(after, w) =~= lines_with(before, w).union(
            if has_token(lines[n], w) {
                set![n + 1]
            } else {
                Set::empty()
            },
        ));
    }
    assert forall|w: Seq<char>| #[trigger] index_of(before).contains_key(w) implies index_of(
        after,
    ).contains_key(w) by {
        let m = lines_with(before, w).choose();
        assert(lines_with(before, w).contains(m));
        assert(lines_with(after, w).contains(m));
    }
    assert forall|w: Seq<char>| split_on_space(lines[n]).contains(w) implies #[trigger] index_of(
        after,
    ).contains_key(w) by {
        assert(lines_with(after, w).contains(n + 1));
    }
    assert forall|w: Seq<char>| #[trigger] index_of(after).contains_key(w) implies index_of(
        before,
    ).contains_key(w) || split_on_space(lines[n]).contains(w) by {
        let m = lines_with(after, w).choose();
        assert(lines_with(after, w).contains(m));
        if !split_on_space(lines[n]).contains(w) {
            assert(lines_with(before, w).contains(m));
        }
    }
    assert forall|w: Seq<char>| !(#[trigger] index_of(before).contains_key(w)) implies lines_with(
        before,
        w,
    ) == Set::<int>::empty() by {
        assert(lines_with(before, w) =~= Set::<int>::empty());
    }
}

/// Builds the index of a store: every space-separated token of every line,
/// empty tokens included, maps to the set of numbers of the lines holding it.
pub fn tokenize_words(lines_storage: &LineStore) -> (token_storage: InvertedIndex)
    ensures
        token_storage@ == index_of(lines_storage@),
{
    let mut idx = InvertedIndex::new();
    let count = lines_storage.len();
    let mut n: usize = 0;
    proof {
        assert(index_of(lines_storage@.take(0)) =~~= Map::<Seq<char>, Set<int>>::empty());
    }
    while n < count
        invariant
            count == lines_storage@.len(),
            n <= count,
            idx@ == index_of(lines_storage@.take(n as int)),
        decreases count - n,
    {
        let number = n + 1;
        if let Some(line) = lines_storage.get(number) {
            let tokens = split_spaces(line.as_str());
            let ghost base = idx@;
            let mut t: usize = 0;
            proof {
                assert(with_tokens(base, views_of(tokens@).take(0), number as int) =~~= base);
            }
            while t < tokens.len()
                invariant
                    t <= tokens@.len(),
                    idx@ == with_tokens(base, views_of(tokens@).take(t as int), number as int),
                decreases tokens@.len() - t,
            {
                let ghost prev = views_of(tokens@).take(t as int);
                let ghost w = tokens@[t as int]@;
                idx.add_occurrence(tokens[t].clone(), number);
                proof {
                    assert(views_of(tokens@).take(t + 1) =~= prev.push(w));
                    lemma_one_more_token(base, prev, w, number as int);
                }
                t = t + 1;
            }
            proof {
                assert(views_of(tokens@).take(t as int) =~= views_of(tokens@));
                lemma_next_line(lines_storage@, n as int);
            }
        }
        n = n + 1;
    }
    proof {
        assert(lines_storage@.take(count as int) =~= lines_storage@);
    }
    idx
}

/// Every token of every line is in the index with that line's number
/// (soundness), and every number in a word's set is that of a line on which
/// the word stands as a space-separated token (completeness).
pub proof fn lemma_index_sound_and_complete(lines: Seq<Seq<char>>, w: Seq<char>, n: int)
    ensures
        1 <= n <= lines.len() && split_on_space(lines[n - 1]).contains(w) ==> index_of(
            lines,
        ).contains_key(w) && index_of(lines)[w].contains(n),
        index_of(lines).contains_key(w) && index_of(lines)[w].contains(n) ==> 1 <= n <= lines.len()
            && split_on_space(lines[n - 1]).contains(w),
{
    if 1 <= n <= lines.len() && split_on_space(lines[n - 1]).contains(w) {
        assert(lines_with(lines, w).contains(n));
    }
}

/// Building the index of one store twice gives the same word-to-lines map.
pub proof fn lemma_rebuild_identical(
    lines: Seq<Seq<char>>,
    first: Map<Seq<char>, Set<int>>,
    second: Map<Seq<char>, Set<int>>,
)
    requires
        first == index_of(lines),
        second == index_of(lines),
    ensures
        first == second,
{
}

/// Recording the tokens of two lines gives the same index in either order.
pub proof fn lemma_recording_order_free(
    m: Map<Seq<char>, Set<int>>,
    x: Seq<Seq<char>>,
    a: int,
    y: Seq<Seq<char>>,
    b: int,
)
    ensures
        with_tokens(with_tokens(m, x, a), y, b) =~~= with_tokens(with_tokens(m, y, b), x, a),
{
}

} // verus!
