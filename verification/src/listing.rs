//! Listings of paths, one per line, as a version-control tool prints them,
//! and their JSON form.

use crate::path::{path_fault, path_pieces, PathError, RelPath};
use crate::text::{
    chars_of, drop_empty, nonempty_pieces, split, split_chars, string_views, strings_of, Delimiter,
};
use vstd::prelude::*;

verus! {

/// The lines of a listing that name a path: those that are not empty.
pub open spec fn listed(listing: Seq<char>) -> Seq<Seq<char>> {
    nonempty_pieces(split(listing, Delimiter::Char('\n')))
}

/// The first fault among `texts`, in their order, if any of them is not a
/// relative path.
pub open spec fn first_fault(texts: Seq<Seq<char>>) -> Option<PathError>
    decreases texts.len(),
{
    if texts.len() == 0 {
        None
    } else {
        match first_fault(texts.drop_last()) {
            Some(e) => Some(e),
            None => path_fault(texts.last()),
        }
    }
}

/// The segments of every text of `texts`.
pub open spec fn pieces_of_all(texts: Seq<Seq<char>>) -> Seq<Seq<Seq<char>>> {
    Seq::new(texts.len(), |i: int| path_pieces(texts[i]))
}

/// The contents of a vector of paths.
pub open spec fn path_views(v: Seq<RelPath>) -> Seq<Seq<Seq<char>>> {
    Seq::new(v.len(), |i: int| v[i]@)
}

/// The paths that a listing names, as written: its lines that are not
/// empty, in order.
pub fn listed_paths(listing: &str) -> (paths: Vec<String>)
    ensures
        string_views(paths@) == listed(listing@),
{
    let chars = chars_of(listing);
    let lines = drop_empty(split_chars(&chars, Delimiter::Char('\n')));
    let paths = strings_of(&lines, 0);
    assert(string_views(paths@) =~= listed(listing@));
    paths
}

/// Reads every text as a relative path, or reports the first fault.
pub fn parse_paths(texts: &Vec<String>) -> (r: Result<Vec<RelPath>, PathError>)
    ensures
        match r {
            Ok(paths) => first_fault(string_views(texts@)) is None && path_views(paths@)
                == pieces_of_all(string_views(texts@)),
            Err(e) => first_fault(string_views(texts@)) == Some(e),
        },
{
    let mut paths: Vec<RelPath> = Vec::new();
    let mut i: usize = 0;
    while i < texts.len()
        invariant
            i <= texts.len(),
            paths.len() == i,
            first_fault(string_views(texts@).take(i as int)) is None,
            forall|k: int| 0 <= k < i ==> (#[trigger] paths[k])@ == path_pieces(texts[k]@),
        decreases texts.len() - i,
    {
        proof {
            let prefix = string_views(texts@).take(i + 1);
            assert(prefix.drop_last() =~= string_views(texts@).take(i as int));
            assert(prefix.last() == texts[i as int]@);
        }
        match RelPath::parse(texts[i].as_str()) {
            Ok(path) => {
                paths.push(path);
            },
            Err(e) => {
                proof {
                    lemma_fault_stays(string_views(texts@), i + 1);
                }
                return Err(e);
            },
        }
        i += 1;
    }
    assert(string_views(texts@).take(texts.len() as int) =~= string_views(texts@));
    assert(path_views(paths@) =~= pieces_of_all(string_views(texts@)));
    Ok(paths)
}

/// A fault among the first `n` texts is the first fault of all of them.
proof fn lemma_fault_stays(texts: Seq<Seq<char>>, n: int)
    requires
        0 <= n <= texts.len(),
        first_fault(texts.take(n)) is Some,
    ensures
        first_fault(texts) == first_fault(texts.take(n)),
    decreases texts.len() - n,
{
    if n < texts.len() {
        let longer = texts.take(n + 1);
        assert(longer.drop_last() =~= texts.take(n));
        lemma_fault_stays(texts, n + 1);
    } else {
        assert(texts.take(n) =~= texts);
    }
}

} // verus!
