use vstd::prelude::*;
use crate::tokens::views_of;

verus! {

/// The lines of a file, numbered from 1 in file order.
pub struct LineStore {
    lines: Vec<String>,
}

impl View for LineStore {
    type V = Seq<Seq<char>>;

    /// Line number `n` holds the text at position `n - 1`.
    closed spec fn view(&self) -> Seq<Seq<char>> {
        views_of(self.lines@)
    }
}

/// The line numbers that a store of `lines` gives out.
pub open spec fn line_numbers(lines: Seq<Seq<char>>) -> Set<int> {
    Set::new(|n: int| 1 <= n <= lines.len())
}

/// Every line read gets a line number of its own: the store holds exactly as
/// many distinct line numbers as lines.
pub proof fn lemma_one_number_per_line(lines: Seq<Seq<char>>)
    ensures
        line_numbers(lines).finite(),
        line_numbers(lines).len() == lines.len(),
{
    vstd::set_lib::lemma_int_range(1, lines.len() as int + 1);
    assert(line_numbers(lines) =~= vstd::set_lib::set_int_range(1, lines.len() as int + 1));
}

/// Builds the store from the outcomes of reading a file line by line. Reading
/// stops at the first line that could not be read (`None`); the lines before
/// it are kept, numbered from 1, blank lines included and nothing trimmed.
pub fn index_file_lines(outcomes: Vec<Option<String>>) -> (store: LineStore)
    ensures
        store@.len() <= outcomes@.len(),
        forall|i: int|
            0 <= i < store@.len() ==> (#[trigger] outcomes@[i]) is Some && store@[i]
                == outcomes@[i]->Some_0@,
        store@.len() < outcomes@.len() ==> outcomes@[store@.len() as int] is None,
{
    let mut lines: Vec<String> = Vec::new();
    let mut i: usize = 0;
    let mut done = false;
    while !done && i < outcomes.len()
        invariant
            i == lines@.len() <= outcomes@.len(),
            forall|j: int|
                0 <= j < i ==> (#[trigger] outcomes@[j]) is Some && lines@[j]
                    == outcomes@[j]->Some_0,
            done ==> i < outcomes@.len() && outcomes@[i as int] is None,
        decreases outcomes@.len() - i + if done { 0int } else { 1int },
    {
        match &outcomes[i] {
            Some(line) => {
                lines.push(line.clone());
                i = i + 1;
            },
            None => {
                done = true;
            },
        }
    }
    let store = LineStore { lines };
    assert forall|i: int| 0 <= i < store@.len() implies store@[i] == outcomes@[i]->Some_0@ by {
        assert(store@[i] == store.lines@[i]@);
    }
    store
}

impl LineStore {
    /// The number of lines held.
    pub fn len(&self) -> (n: usize)
        ensures
            n == self@.len(),
    {
        self.lines.len()
    }

    /// The text of line `number`, or `None` where the store has no such line.
    pub fn get(&self, number: usize) -> (text: Option<&String>)
        ensures
            1 <= number <= self@.len() ==> text is Some && text->Some_0@ == self@[number - 1],
            !(1 <= number <= self@.len()) ==> text is None,
    {
        if 1 <= number && number <= self.lines.len() {
            Some(&self.lines[number - 1])
        } else {
            None
        }
    }
}

} // verus!
