use vstd::prelude::*;
use vstd::string::StringExecFns;
use crate::tokens::views_of;

verus! {

/// What an invocation asks for: the file to search and the terms to look for.
pub struct Config {
    pub file_path: String,
    pub search_query: Vec<String>,
}

/// The message given when the invocation lacks a file or query terms.
pub open spec fn usage_message() -> Seq<char> {
    "Invalid command provided ie cargo run -- file_name query"@
}

impl Config {
    /// Reads the invocation `args` (program name first): the file path comes
    /// next and every argument after it is a query term. Fewer than three
    /// arguments is an error carrying the usage message.
    pub fn new(args: &Vec<String>) -> (r: Result<Config, String>)
        ensures
            r is Err <==> args@.len() < 3,
            r is Err ==> r->Err_0@ == usage_message(),
            r is Ok ==> r->Ok_0.file_path@ == args@[1]@ && views_of(r->Ok_0.search_query@)
                == views_of(args@.subrange(2, args@.len() as int)),
    {
        if args.len() < 3 {
            Err(String::from_str("Invalid command provided ie cargo run -- file_name query"))
        } else {
            let file_path = args[1].clone();
            let mut search_query: Vec<String> = Vec::new();
            let mut i: usize = 2;
            while i < args.len()
                invariant
                    2 <= i <= args@.len(),
                    views_of(search_query@) == views_of(args@.subrange(2, i as int)),
                decreases args@.len() - i,
            {
                let ghost before = search_query@;
                search_query.push(args[i].clone());
                proof {
                    assert(args@.subrange(2, i + 1) =~= args@.subrange(2, i as int).push(args@[i as int]));
                    assert(views_of(search_query@) =~= views_of(before).push(args@[i as int]@));
                    assert(views_of(args@.subrange(2, i + 1)) =~= views_of(args@.subrange(2, i as int)).push(args@[i as int]@));
                }
                i = i + 1;
            }
            Ok(Config { file_path, search_query })
        }
    }
}

} // verus!
