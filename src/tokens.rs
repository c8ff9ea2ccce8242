use vstd::prelude::*;
use vstd::string::{StrSliceExecFns, StringExecFns};

verus! {

/// The tokens of `s` when it is cut at every space character. A string with
/// `k` spaces gives `k + 1` tokens; two spaces in a row, or a space at either
/// end, give an empty token. Tabs and other whitespace are ordinary characters.
pub open spec fn split_on_space(s: Seq<char>) -> Seq<Seq<char>>
    decreases s.len(),
{
    if s.len() == 0 {
        seq![Seq::empty()]
    } else {
        let head = split_on_space(s.drop_last());
        if s.last() == ' ' {
            head.push(Seq::empty())
        } else {
            head.update(head.len() - 1, head.last().push(s.last()))
        }
    }
}

/// Whether `w` is one of the space-separated tokens of `line`.
pub open spec fn has_token(line: Seq<char>, w: Seq<char>) -> bool {
    split_on_space(line).contains(w)
}

/// The views of a list of strings.
pub open spec fn views_of(v: Seq<String>) -> Seq<Seq<char>> {
    v.map_values(|t: String| t@)
}

/// Cuts `line` at every space character, keeping empty tokens.
pub fn split_spaces(line: &str) -> (tokens: Vec<String>)
    ensures
        views_of(tokens@) == split_on_space(line@),
{
    let n = line.unicode_len();
    let mut tokens: Vec<String> = Vec::new();
    let mut start: usize = 0;
    let mut i: usize = 0;
    proof {
        assert(line@.subrange(0, 0) =~= Seq::<char>::empty());
        assert(views_of(tokens@).push(line@.subrange(0, 0)) =~= seq![Seq::<char>::empty()]);
    }
    while i < n
        invariant
            n == line@.len(),
            start <= i <= n,
            split_on_space(line@.subrange(0, i as int)) == views_of(tokens@).push(
                line@.subrange(start as int, i as int),
            ),
        decreases n - i,
    {
        let c = line.get_char(i);
        let ghost before = views_of(tokens@);
        let ghost prefix = line@.subrange(0, i + 1);
        proof {
            assert(prefix.drop_last() =~= line@.subrange(0, i as int));
            assert(prefix.last() == c);
        }
        if c == ' ' {
            let ghost old_start = start;
            tokens.push(String::from_str(line.substring_char(start, i)));
            start = i + 1;
            proof {
                assert(views_of(tokens@) =~= before.push(
                    line@.subrange(old_start as int, i as int),
                ));
                assert(line@.subrange(start as int, i + 1) =~= Seq::<char>::empty());
                assert(split_on_space(prefix) =~= views_of(tokens@).push(
                    line@.subrange(start as int, i + 1),
                ));
            }
        } else {
            proof {
                let head = before.push(line@.subrange(start as int, i as int));
                assert(line@.subrange(start as int, i + 1) =~= line@.subrange(
                    start as int,
                    i as int,
                ).push(c));
                assert(split_on_space(prefix) =~= head.update(
                    head.len() - 1,
                    line@.subrange(start as int, i + 1),
                ));
                assert(split_on_space(prefix) =~= before.push(
                    line@.subrange(start as int, i + 1),
                ));
            }
        }
        i = i + 1;
    }
    let ghost before = views_of(tokens@);
    tokens.push(String::from_str(line.substring_char(start, n)));
    proof {
        assert(line@.subrange(0, n as int) =~= line@);
        assert(views_of(tokens@) =~= before.push(line@.subrange(start as int, n as int)));
    }
    tokens
}

} // verus!
