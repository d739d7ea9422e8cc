//! Relative paths: the only form of path that rules are matched against and
//! that the ownership tree is built from.

use crate::text::{chars_of, joined, split, split_chars, views, Delimiter};
use crate::text_laws::{
    lemma_join_of_split, lemma_split_leading_separator, lemma_split_nonempty, lemma_split_of_join,
    lemma_split_pieces_clean,
};
use vstd::prelude::*;

verus! {

/// Why a text is not a relative path.
#[derive(Clone, Copy, Debug, PartialEq, Eq)]
pub enum PathError {
    /// The text is empty.
    Empty,
    /// The text starts with a separator.
    Absolute,
    /// The text ends with a separator.
    TrailingSeparator,
    /// Two separators follow each other.
    EmptySegment,
    /// A segment is `.` or `..`.
    DotSegment,
}

/// What an error says in words.
pub open spec fn error_text(e: PathError) -> Seq<char> {
    match e {
        PathError::Empty => "the path is empty"@,
        PathError::Absolute => "the path starts with a separator"@,
        PathError::TrailingSeparator => "the path ends with a separator"@,
        PathError::EmptySegment => "the path has an empty segment"@,
        PathError::DotSegment => "the path has a `.` or `..` segment"@,
    }
}

impl PathError {
    /// What the error says in words, for a message to a user.
    pub fn message(&self) -> (s: String)
        ensures
            s@ == error_text(*self),
    {
        match self {
            PathError::Empty => "the path is empty".to_owned(),
            PathError::Absolute => "the path starts with a separator".to_owned(),
            PathError::TrailingSeparator => "the path ends with a separator".to_owned(),
            PathError::EmptySegment => "the path has an empty segment".to_owned(),
            PathError::DotSegment => "the path has a `.` or `..` segment".to_owned(),
        }
    }
}

/// Whether `name` is `.` or `..`.
pub open spec fn is_dot_name(name: Seq<char>) -> bool {
    name =~= seq!['.'] || name =~= seq!['.', '.']
}

/// Whether `name` can be one segment of a relative path: not empty, neither
/// `.` nor `..`, and free of separators.
pub open spec fn clean_name(name: Seq<char>) -> bool {
    &&& name.len() > 0
    &&& !is_dot_name(name)
    &&& forall|j: int| 0 <= j < name.len() ==> #[trigger] name[j] != '/'
}

/// Whether `segs` are the segments of a relative path: at least one, each of
/// them a clean name.
pub open spec fn valid_segments(segs: Seq<Seq<char>>) -> bool {
    &&& segs.len() >= 1
    &&& forall|i: int| 0 <= i < segs.len() ==> clean_name(#[trigger] segs[i])
}

/// The `/`-separated pieces of a path text.
pub open spec fn path_pieces(s: Seq<char>) -> Seq<Seq<char>> {
    split(s, Delimiter::Char('/'))
}

/// The first reason, if any, for which `s` is not a relative path.
pub open spec fn path_fault(s: Seq<char>) -> Option<PathError> {
    if s.len() == 0 {
        Some(PathError::Empty)
    } else if s[0] == '/' {
        Some(PathError::Absolute)
    } else if s.last() == '/' {
        Some(PathError::TrailingSeparator)
    } else if exists|i: int|
        0 <= i < path_pieces(s).len() && (#[trigger] path_pieces(s)[i]).len() == 0 {
        Some(PathError::EmptySegment)
    } else if exists|i: int|
        0 <= i < path_pieces(s).len() && is_dot_name(#[trigger] path_pieces(s)[i]) {
        Some(PathError::DotSegment)
    } else {
        None
    }
}

/// A text without fault splits into valid segments.
pub proof fn lemma_faultless_is_valid(s: Seq<char>)
    requires
        path_fault(s) is None,
    ensures
        valid_segments(path_pieces(s)),
{
    let pieces = path_pieces(s);
    lemma_split_nonempty(s, Delimiter::Char('/'));
    lemma_split_pieces_clean(s, Delimiter::Char('/'));
    assert forall|i: int| 0 <= i < pieces.len() implies clean_name(#[trigger] pieces[i]) by {
        assert(pieces[i].len() != 0);
        assert(!is_dot_name(pieces[i]));
        assert forall|j: int| 0 <= j < pieces[i].len() implies #[trigger] pieces[i][j] != '/' by {
            assert(!Delimiter::Char('/').holds(pieces[i][j]));
        }
    }
}

/// A text has no fault exactly when it splits into valid segments: the
/// faults are all that can be wrong with a path.
pub proof fn lemma_fault_iff_invalid(s: Seq<char>)
    ensures
        path_fault(s) is None <==> valid_segments(path_pieces(s)),
{
    let d = Delimiter::Char('/');
    let pieces = path_pieces(s);
    lemma_split_nonempty(s, d);
    if path_fault(s) is None {
        lemma_faultless_is_valid(s);
    } else if s.len() == 0 {
        assert(!clean_name(pieces[0]));
    } else if s[0] == '/' {
        lemma_split_leading_separator(s, d);
        assert(!clean_name(pieces[0]));
    } else if s.last() == '/' {
        assert(pieces.last().len() == 0);
        assert(!clean_name(pieces[pieces.len() - 1]));
    } else if exists|i: int| 0 <= i < pieces.len() && (#[trigger] pieces[i]).len() == 0 {
        let i = choose|i: int| 0 <= i < pieces.len() && (#[trigger] pieces[i]).len() == 0;
        assert(!clean_name(pieces[i]));
    } else {
        let i = choose|i: int| 0 <= i < pieces.len() && is_dot_name(#[trigger] pieces[i]);
        assert(!clean_name(pieces[i]));
    }
}

/// Valid segments, written as text, read back as the same segments: every
/// relative path is the path of its own text.
pub proof fn lemma_text_reads_back(segments: Seq<Seq<char>>)
    requires
        valid_segments(segments),
    ensures
        path_pieces(joined(segments, seq!['/'])) == segments,
        path_fault(joined(segments, seq!['/'])) is None,
{
    assert forall|i: int, j: int|
        0 <= i < segments.len() && 0 <= j < segments[i].len() implies #[trigger] segments[i][j]
        != '/' by {
        assert(clean_name(segments[i]));
    }
    lemma_split_of_join(segments, '/');
    lemma_fault_iff_invalid(joined(segments, seq!['/']));
}

/// A relative path: one or more names separated by `/`, none of them empty,
/// `.` or `..`.
#[derive(Debug)]
pub struct RelPath {
    text: String,
    segments: Vec<Vec<char>>,
}

impl View for RelPath {
    type V = Seq<Seq<char>>;

    /// The names of the path, outermost first.
    closed spec fn view(&self) -> Seq<Seq<char>> {
        views(self.segments@)
    }
}

impl RelPath {
    #[verifier::type_invariant]
    spec fn well_formed(self) -> bool {
        &&& valid_segments(views(self.segments@))
        &&& views(self.segments@) == path_pieces(self.text@)
    }

    /// Reads a relative path, or says what is wrong with the text.
    pub fn parse(s: &str) -> (r: Result<RelPath, PathError>)
        ensures
            match r {
                Ok(p) => path_fault(s@) is None && p@ == path_pieces(s@),
                Err(e) => path_fault(s@) == Some(e),
            },
    {
        let chars = chars_of(s);
        let n = chars.len();
        if n == 0 {
            return Err(PathError::Empty);
        }
        if chars[0] == '/' {
            return Err(PathError::Absolute);
        }
        if chars[n - 1] == '/' {
            return Err(PathError::TrailingSeparator);
        }
        let segments = split_chars(&chars, Delimiter::Char('/'));
        let mut i: usize = 0;
        while i < segments.len()
            invariant
                i <= segments.len(),
                s@.len() > 0 && s@[0] != '/' && s@.last() != '/',
                views(segments@) == path_pieces(s@),
                forall|k: int| 0 <= k < i ==> (#[trigger] path_pieces(s@)[k]).len() != 0,
            decreases segments.len() - i,
        {
            assert(views(segments@)[i as int] == segments[i as int]@);
            if segments[i].len() == 0 {
                return Err(PathError::EmptySegment);
            }
            i += 1;
        }
        let mut i: usize = 0;
        while i < segments.len()
            invariant
                i <= segments.len(),
                s@.len() > 0 && s@[0] != '/' && s@.last() != '/',
                views(segments@) == path_pieces(s@),
                forall|k: int|
                    0 <= k < path_pieces(s@).len() ==> (#[trigger] path_pieces(s@)[k]).len() != 0,
                forall|k: int| 0 <= k < i ==> !is_dot_name(#[trigger] path_pieces(s@)[k]),
            decreases segments.len() - i,
        {
            assert(views(segments@)[i as int] == segments[i as int]@);
            if is_dot(&segments[i]) {
                return Err(PathError::DotSegment);
            }
            i += 1;
        }
        proof {
            lemma_faultless_is_valid(s@);
        }
        Ok(RelPath { text: s.to_owned(), segments })
    }

    /// The names of the path, outermost first.
    pub fn segments(&self) -> (segs: &Vec<Vec<char>>)
        ensures
            views(segs@) == self@,
            valid_segments(self@),
    {
        proof {
            use_type_invariant(self);
        }
        &self.segments
    }

    /// The number of names in the path; at least one.
    pub fn depth(&self) -> (n: usize)
        ensures
            n == self@.len(),
            n >= 1,
    {
        proof {
            use_type_invariant(self);
        }
        self.segments.len()
    }

    /// The path as text: its names with `/` between them.
    pub fn as_str(&self) -> (s: &str)
        ensures
            s@ == joined(self@, seq!['/']),
    {
        proof {
            use_type_invariant(self);
            lemma_join_of_split(self.text@, '/');
        }
        self.text.as_str()
    }
}

/// Whether `name` is `.` or `..`.
fn is_dot(name: &Vec<char>) -> (r: bool)
    ensures
        r == is_dot_name(name@),
{
    if name.len() == 1 {
        name[0] == '.'
    } else if name.len() == 2 {
        name[0] == '.' && name[1] == '.'
    } else {
        false
    }
}

} // verus!
