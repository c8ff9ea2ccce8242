use vstd::prelude::*;
use crate::index::{InvertedIndex, numbers_in, term_lines};
use crate::line_store::LineStore;

verus! {

/// The lines of `lines` whose numbers are in `numbers`, keyed by number.
/// Numbers with no line are left out.
pub open spec fn lines_at(lines: Seq<Seq<char>>, numbers: Set<int>) -> Map<int, Seq<char>> {
    Map::new(|n: int| numbers.contains(n) && 1 <= n <= lines.len(), |n: int| lines[n - 1])
}

/// The line numbers that any of `terms` is recorded on in `idx`.
pub open spec fn query_lines(idx: Map<Seq<char>, Set<int>>, terms: Seq<Seq<char>>) -> Set<int> {
    Set::new(|n: int| exists|j: int| 0 <= j < terms.len() && term_lines(idx, terms[j]).contains(n))
}

/// The lines that resolving `terms` against `idx` and `lines` yields.
pub open spec fn resolve(
    lines: Seq<Seq<char>>,
    idx: Map<Seq<char>, Set<int>>,
    terms: Seq<Seq<char>>,
) -> Map<int, Seq<char>> {
    lines_at(lines, query_lines(idx, terms))
}

/// Matched lines, each at most once, keyed by line number.
pub struct QueryResult {
    numbers: Vec<usize>,
    texts: Vec<String>,
}

impl QueryResult {
    /// Whether position `i` holds line number `n`.
    spec fn at(&self, n: int, i: int) -> bool {
        0 <= i < self.numbers@.len() && self.numbers@[i] as int == n
    }

    /// The two lists match up and no line number is held twice.
    pub closed spec fn wf(&self) -> bool {
        &&& self.numbers@.len() == self.texts@.len()
        &&& forall|i: int, j: int|
            0 <= i < j < self.numbers@.len() ==> self.numbers@[i] != self.numbers@[j]
    }

    /// An empty result.
    pub fn new() -> (r: QueryResult)
        ensures
            r.wf(),
            r@ == Map::<int, Seq<char>>::empty(),
    {
        let r = QueryResult { numbers: Vec::new(), texts: Vec::new() };
        assert(r@ =~= Map::<int, Seq<char>>::empty());
        r
    }

    /// Where line `number` is held, if it is.
    fn position(&self, number: usize) -> (pos: Option<usize>)
        requires
            self.wf(),
        ensures
            pos is Some ==> self.at(number as int, pos->Some_0 as int),
            pos is None ==> !self@.contains_key(number as int),
    {
        let mut i: usize = 0;
        while i < self.numbers.len()
            invariant
                i <= self.numbers@.len(),
                forall|j: int| 0 <= j < i ==> self.numbers@[j] != number,
            decreases self.numbers@.len() - i,
        {
            if self.numbers[i] == number {
                return Some(i);
            }
            i = i + 1;
        }
        None
    }

    /// The text of a held position is the view's text for its number.
    proof fn lemma_text_at(&self, n: int, i: int)
        requires
            self.wf(),
            self.at(n, i),
        ensures
            self@.contains_key(n),
            self@[n] == self.texts@[i]@,
    {
        let k = choose|k: int| self.at(n, k);
        assert(k == i) by {
            if k < i {
                assert(self.numbers@[k] != self.numbers@[i]);
            } else if i < k {
                assert(self.numbers@[i] != self.numbers@[k]);
            }
        }
    }

    /// Adds line `number` with `text`; the number is not held yet.
    fn insert_new(&mut self, number: usize, text: String)
        requires
            old(self).wf(),
            !old(self)@.contains_key(number as int),
        ensures
            final(self).wf(),
            final(self)@ == old(self)@.insert(number as int, text@),
    {
        let ghost before = *self;
        let ghost t = text@;
        self.numbers.push(number);
        self.texts.push(text);
        proof {
            let last = before.numbers@.len() as int;
            assert forall|i: int, j: int| 0 <= i < j < self.numbers@.len() implies self.numbers@[i]
                != self.numbers@[j] by {
                if j == last {
                    assert(!before.at(number as int, i));
                } else {
                    assert(before.numbers@[i] != before.numbers@[j]);
                }
            }
            assert forall|n: int| #[trigger] self@.contains_key(n) == before@.insert(number as int, t).contains_key(n) by {
                if self@.contains_key(n) {
                    let k = choose|k: int| self.at(n, k);
                    if k < last {
                        assert(before.at(n, k));
                    }
                }
                if before@.contains_key(n) {
                    let k = choose|k: int| before.at(n, k);
                    assert(self.at(n, k));
                }
                if n == number {
                    assert(self.at(n, last));
                }
            }
            assert forall|n: int| #[trigger] self@.contains_key(n) implies self@[n] == before@.insert(number as int, t)[n] by {
                let k = choose|k: int| self.at(n, k);
                self.lemma_text_at(n, k);
                if k < last {
                    assert(before.at(n, k));
                    before.lemma_text_at(n, k);
                }
            }
            assert(self@ =~= before@.insert(number as int, t));
        }
    }

    /// The text of line `number`, where the result holds it.
    pub fn get(&self, number: usize) -> (text: Option<&String>)
        requires
            self.wf(),
        ensures
            self@.contains_key(number as int) ==> text is Some && text->Some_0@ == self@[number as int],
            !self@.contains_key(number as int) ==> text is None,
    {
        match self.position(number) {
            Some(i) => {
                proof {
                    self.lemma_text_at(number as int, i as int);
                }
                Some(&self.texts[i])
            },
            None => None,
        }
    }

    /// The numbers of the matched lines, each once, in the order they were added.
    pub fn line_numbers(&self) -> (r: Vec<usize>)
        requires
            self.wf(),
        ensures
            numbers_in(r@) == self@.dom(),
            r@.no_duplicates(),
    {
        let mut r: Vec<usize> = Vec::new();
        let mut i: usize = 0;
        while i < self.numbers.len()
            invariant
                self.wf(),
                i <= self.numbers@.len(),
                r@ == self.numbers@.take(i as int),
            decreases self.numbers@.len() - i,
        {
            r.push(self.numbers[i]);
            assert(self.numbers@.take(i + 1) =~= self.numbers@.take(i as int).push(self.numbers@[i as int]));
            i = i + 1;
        }
        assert(r@ =~= self.numbers@);
        assert forall|n: int| numbers_in(r@).contains(n) <==> self@.dom().contains(n) by {
            if numbers_in(r@).contains(n) {
                let k = choose|k: int| 0 <= k < r@.len() && r@[k] as int == n;
                assert(self.at(n, k));
            }
            if self@.dom().contains(n) {
                let k = choose|k: int| self.at(n, k);
                assert(0 <= k < r@.len() && r@[k] as int == n);
            }
        }
        assert(numbers_in(r@) =~= self@.dom());
        r
    }

    /// Whether no line matched.
    pub fn is_empty(&self) -> (r: bool)
        requires
            self.wf(),
        ensures
            r == (self@ == Map::<int, Seq<char>>::empty()),
    {
        if self.numbers.len() == 0 {
            assert(self@ =~= Map::<int, Seq<char>>::empty());
            true
        } else {
            assert(self@.contains_key(self.numbers@[0] as int)) by {
                assert(self.at(self.numbers@[0] as int, 0));
            }
            false
        }
    }
}

impl View for QueryResult {
    type V = Map<int, Seq<char>>;

    /// Each held line number with its text.
    closed spec fn view(&self) -> Map<int, Seq<char>> {
        Map::new(
            |n: int| exists|i: int| self.at(n, i),
            |n: int| self.texts@[choose|i: int| self.at(n, i)]@,
        )
    }
}

/// Looks `user_input` up as an exact word of the index and adds each line it
/// stands on to `retrievable_lines`, unless that line number is held already.
/// A word the index lacks adds nothing; a recorded number the store has no
/// line for is passed over.
pub fn get_query_match(
    user_input: &str,
    line_storage: &LineStore,
    token_storage: &InvertedIndex,
    retrievable_lines: &mut QueryResult,
)
    requires
        old(retrievable_lines).wf(),
    ensures
        final(retrievable_lines).wf(),
        final(retrievable_lines)@ == lines_at(
            line_storage@,
            term_lines(token_storage@, user_input@),
        ).union_prefer_right(old(retrievable_lines)@),
{
    let numbers = token_storage.lines_of(user_input);
    let ghost start = retrievable_lines@;
    let mut k: usize = 0;
    proof {
        assert(numbers_in(numbers@.take(0)) =~= Set::<int>::empty());
        assert(lines_at(line_storage@, Set::<int>::empty()).union_prefer_right(start) =~= start);
    }
    while k < numbers.len()
        invariant
            k <= numbers@.len(),
            retrievable_lines.wf(),
            retrievable_lines@ == lines_at(
                line_storage@,
                numbers_in(numbers@.take(k as int)),
            ).union_prefer_right(start),
        decreases numbers@.len() - k,
    {
        let number = numbers[k];
        let ghost prev = numbers_in(numbers@.take(k as int));
        proof {
            assert(numbers@.take(k + 1) =~= numbers@.take(k as int).push(number));
            crate::index::lemma_numbers_push(numbers@.take(k as int), number);
        }
        let ghost next = prev.insert(number as int);
        if let Some(text) = line_storage.get(number) {
            if retrievable_lines.position(number).is_none() {
                retrievable_lines.insert_new(number, text.clone());
                assert(retrievable_lines@ =~= lines_at(line_storage@, next).union_prefer_right(start));
            } else {
                assert(retrievable_lines@ =~= lines_at(line_storage@, next).union_prefer_right(start));
            }
        } else {
            assert(retrievable_lines@ =~= lines_at(line_storage@, next).union_prefer_right(start));
        }
        k = k + 1;
    }
    proof {
        assert(numbers@.take(k as int) =~= numbers@);
    }
}

/// Adding the lines of a second set of numbers to those of a first gives the
/// lines of both.
pub proof fn lemma_lines_at_union(lines: Seq<Seq<char>>, a: Set<int>, b: Set<int>)
    ensures
        lines_at(lines, b).union_prefer_right(lines_at(lines, a)) == lines_at(lines, a.union(b)),
{
    assert(lines_at(lines, b).union_prefer_right(lines_at(lines, a)) =~= lines_at(lines, a.union(b)));
}

/// The lines of one more term are those of the earlier terms and those of the
/// new one together.
proof fn lemma_query_lines_push(
    idx: Map<Seq<char>, Set<int>>,
    terms: Seq<Seq<char>>,
    t: Seq<char>,
)
    ensures
        query_lines(idx, terms.push(t)) == query_lines(idx, terms).union(term_lines(idx, t)),
{
    let more = terms.push(t);
    assert forall|n: int| #[trigger] query_lines(idx, more).contains(n) implies query_lines(
        idx,
        terms,
    ).union(term_lines(idx, t)).contains(n) by {
        let j = choose|j: int| 0 <= j < more.len() && term_lines(idx, more[j]).contains(n);
        if j < terms.len() {
            assert(more[j] == terms[j]);
        }
    }
    assert forall|n: int| #[trigger] query_lines(idx, terms).union(term_lines(idx, t)).contains(n)
        implies query_lines(idx, more).contains(n) by {
        if query_lines(idx, terms).contains(n) {
            let j = choose|j: int| 0 <= j < terms.len() && term_lines(idx, terms[j]).contains(n);
            assert(more[j] == terms[j]);
        } else {
            assert(more[terms.len() as int] == t);
        }
    }
    assert(query_lines(idx, more) =~= query_lines(idx, terms).union(term_lines(idx, t)));
}

/// Resolves every term of `queries` in turn and collects the lines that any
/// of them stands on, each line once.
pub fn resolve_queries(
    queries: &Vec<String>,
    line_storage: &LineStore,
    token_storage: &InvertedIndex,
) -> (result: QueryResult)
    ensures
        result.wf(),
        result@ == resolve(line_storage@, token_storage@, queries@.map_values(|q: String| q@)),
{
    let ghost terms = queries@.map_values(|q: String| q@);
    let mut result = QueryResult::new();
    let mut j: usize = 0;
    proof {
        assert(query_lines(token_storage@, terms.take(0)) =~= Set::<int>::empty());
        assert(resolve(line_storage@, token_storage@, terms.take(0)) =~= Map::<int, Seq<char>>::empty());
    }
    while j < queries.len()
        invariant
            j <= queries@.len(),
            terms == queries@.map_values(|q: String| q@),
            result.wf(),
            result@ == resolve(line_storage@, token_storage@, terms.take(j as int)),
        decreases queries@.len() - j,
    {
        get_query_match(queries[j].as_str(), line_storage, token_storage, &mut result);
        proof {
            assert(terms.take(j + 1) =~= terms.take(j as int).push(terms[j as int]));
            lemma_query_lines_push(token_storage@, terms.take(j as int), terms[j as int]);
            lemma_lines_at_union(
                line_storage@,
                query_lines(token_storage@, terms.take(j as int)),
                term_lines(token_storage@, terms[j as int]),
            );
        }
        j = j + 1;
    }
    proof {
        assert(terms.take(j as int) =~= terms);
    }
    result
}

/// Resolving the terms `a` and `b` together gives the union of resolving
/// each alone.
pub proof fn lemma_query_union(
    lines: Seq<Seq<char>>,
    idx: Map<Seq<char>, Set<int>>,
    a: Seq<char>,
    b: Seq<char>,
)
    ensures
        resolve(lines, idx, seq![a, b]) == resolve(lines, idx, seq![a]).union_prefer_right(
            resolve(lines, idx, seq![b]),
        ),
{
    let none = Seq::<Seq<char>>::empty();
    assert(query_lines(idx, none) =~= Set::<int>::empty());
    lemma_query_lines_push(idx, none, a);
    assert(none.push(a) =~= seq![a]);
    lemma_query_lines_push(idx, seq![a], b);
    assert(seq![a].push(b) =~= seq![a, b]);
    lemma_query_lines_push(idx, none, b);
    assert(none.push(b) =~= seq![b]);
    assert(query_lines(idx, seq![a]) =~= term_lines(idx, a));
    assert(query_lines(idx, seq![b]) =~= term_lines(idx, b));
    lemma_lines_at_union(lines, term_lines(idx, b), term_lines(idx, a));
    assert(term_lines(idx, b).union(term_lines(idx, a)) =~= term_lines(idx, a).union(
        term_lines(idx, b),
    ));
}

/// A term with no entry in the index matches no line, and adding it to a
/// query changes nothing.
pub proof fn lemma_unknown_term(
    lines: Seq<Seq<char>>,
    idx: Map<Seq<char>, Set<int>>,
    terms: Seq<Seq<char>>,
    t: Seq<char>,
)
    requires
        !idx.contains_key(t),
    ensures
        lines_at(lines, term_lines(idx, t)) == Map::<int, Seq<char>>::empty(),
        resolve(lines, idx, terms.push(t)) == resolve(lines, idx, terms),
{
    assert(lines_at(lines, term_lines(idx, t)) =~= Map::<int, Seq<char>>::empty());
    lemma_query_lines_push(idx, terms, t);
    assert(query_lines(idx, terms).union(term_lines(idx, t)) =~= query_lines(idx, terms));
}

} // verus!
