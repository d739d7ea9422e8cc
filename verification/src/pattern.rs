//! Glob patterns over relative paths.
//!
//! A pattern is compiled once into segments of tokens and then tested
//! against paths. Within a name `*` stands for any run of characters and `?`
//! for any one character; a segment that is exactly `**` stands for any
//! number of names, and as the last segment for at least one. A leading `/`
//! or a `/` in the middle ties the pattern to the root; a pattern without
//! either may match a name at any depth. A trailing `/` restricts the
//! pattern to directories. A pattern that matches a directory matches
//! everything beneath it.

use crate::path::RelPath;
use crate::text::{chars_of, split, split_chars, sub_vec, views, Delimiter};
use vstd::prelude::*;

verus! {

/// One element of a name pattern.
#[derive(Clone, Copy, Debug, PartialEq, Eq)]
pub enum Token {
    /// This character and no other.
    Literal(char),
    /// Any one character (`?`).
    AnyChar,
    /// Any run of characters, the empty one included (`*`).
    AnyRun,
}

/// One `/`-separated part of a pattern.
#[derive(Clone, Debug, PartialEq, Eq)]
pub enum Segment {
    /// Any number of names (`**`): none included, unless it is the last
    /// segment, where it takes at least one.
    AnyDepth,
    /// One name that the tokens match.
    Glob(Vec<Token>),
}

/// A pattern in the form that paths are tested against.
#[derive(Clone, Debug, PartialEq, Eq)]
pub struct CompiledPattern {
    /// The pattern began with `/`.
    pub anchored: bool,
    /// The parts of the pattern between its separators.
    pub segments: Vec<Segment>,
    /// The pattern ended with `/`: it stands for directories only.
    pub directory_only: bool,
}

/// The mathematical content of a [`Segment`].
pub enum SegmentModel {
    AnyDepth,
    Glob(Seq<Token>),
}

/// The mathematical content of a [`CompiledPattern`].
pub struct PatternModel {
    pub anchored: bool,
    pub segments: Seq<SegmentModel>,
    pub directory_only: bool,
}

impl View for Segment {
    type V = SegmentModel;

    open spec fn view(&self) -> SegmentModel {
        match self {
            Segment::AnyDepth => SegmentModel::AnyDepth,
            Segment::Glob(tokens) => SegmentModel::Glob(tokens@),
        }
    }
}

/// The contents of a vector of segments.
pub open spec fn segment_views(v: Seq<Segment>) -> Seq<SegmentModel> {
    Seq::new(v.len(), |i: int| v[i]@)
}

impl View for CompiledPattern {
    type V = PatternModel;

    open spec fn view(&self) -> PatternModel {
        PatternModel {
            anchored: self.anchored,
            segments: segment_views(self.segments@),
            directory_only: self.directory_only,
        }
    }
}

/// The token that a pattern character stands for.
pub open spec fn token_of(c: char) -> Token {
    if c == '*' {
        Token::AnyRun
    } else if c == '?' {
        Token::AnyChar
    } else {
        Token::Literal(c)
    }
}

/// The tokens of one pattern part, character by character.
pub open spec fn tokens_of(piece: Seq<char>) -> Seq<Token> {
    Seq::new(piece.len(), |i: int| token_of(piece[i]))
}

/// The segment that one pattern part stands for.
pub open spec fn segment_of(piece: Seq<char>) -> SegmentModel {
    if piece =~= seq!['*', '*'] {
        SegmentModel::AnyDepth
    } else {
        SegmentModel::Glob(tokens_of(piece))
    }
}

/// The segments that pattern parts stand for.
pub open spec fn segments_of(pieces: Seq<Seq<char>>) -> Seq<SegmentModel> {
    Seq::new(pieces.len(), |i: int| segment_of(pieces[i]))
}

/// Whether the pattern text ends with `/`.
pub open spec fn ends_with_separator(p: Seq<char>) -> bool {
    p.len() > 0 && p.last() == '/'
}

/// The pattern text without its trailing `/`, if it has one.
pub open spec fn without_trailing(p: Seq<char>) -> Seq<char> {
    if ends_with_separator(p) {
        p.drop_last()
    } else {
        p
    }
}

/// Whether the pattern text, its trailing `/` set aside, begins with `/`.
pub open spec fn begins_with_separator(p: Seq<char>) -> bool {
    without_trailing(p).len() > 0 && without_trailing(p)[0] == '/'
}

/// The pattern text between its leading and its trailing `/`.
pub open spec fn pattern_body(p: Seq<char>) -> Seq<char> {
    if begins_with_separator(p) {
        without_trailing(p).skip(1)
    } else {
        without_trailing(p)
    }
}

/// What a pattern text compiles to.
pub open spec fn compile_spec(p: Seq<char>) -> PatternModel {
    PatternModel {
        anchored: begins_with_separator(p),
        segments: segments_of(split(pattern_body(p), Delimiter::Char('/'))),
        directory_only: ends_with_separator(p),
    }
}

/// Whether the tokens match the whole of `name`. A wildcard never stands
/// for a separator.
pub open spec fn glob_matches(tokens: Seq<Token>, name: Seq<char>) -> bool
    decreases tokens.len(), name.len(),
{
    if tokens.len() == 0 {
        name.len() == 0
    } else {
        match tokens[0] {
            Token::Literal(c) => name.len() > 0 && name[0] == c && glob_matches(
                tokens.skip(1),
                name.skip(1),
            ),
            Token::AnyChar => name.len() > 0 && name[0] != '/' && glob_matches(
                tokens.skip(1),
                name.skip(1),
            ),
            Token::AnyRun => glob_matches(tokens.skip(1), name) || (name.len() > 0 && name[0] != '/'
                && glob_matches(tokens, name.skip(1))),
        }
    }
}

/// Whether the segments match the whole of `names`, name by name. A `**`
/// takes up any number of names; where nothing follows it, it takes up all
/// that are left, and at least one.
pub open spec fn segments_match(segments: Seq<SegmentModel>, names: Seq<Seq<char>>) -> bool
    decreases segments.len(), names.len(),
{
    if segments.len() == 0 {
        names.len() == 0
    } else {
        match segments[0] {
            SegmentModel::AnyDepth => if segments.len() == 1 {
                names.len() > 0
            } else {
                segments_match(segments.skip(1), names) || (names.len() > 0 && segments_match(
                    segments,
                    names.skip(1),
                ))
            },
            SegmentModel::Glob(tokens) => names.len() > 0 && glob_matches(tokens, names[0])
                && segments_match(segments.skip(1), names.skip(1)),
        }
    }
}

/// Whether the pattern is tied to the root: it began with `/` or has a `/`
/// in the middle.
pub open spec fn rooted(pat: PatternModel) -> bool {
    pat.anchored || pat.segments.len() > 1
}

/// Whether the pattern matches the file or directory that `names` lead to:
/// all of `names` if the pattern is tied to the root, the last name alone
/// if it is not.
pub open spec fn matches_here(pat: PatternModel, names: Seq<Seq<char>>) -> bool {
    if rooted(pat) {
        segments_match(pat.segments, names)
    } else {
        segments_match(pat.segments, names.skip(names.len() - 1))
    }
}

/// Whether the pattern matches the file at `path`: it matches the file
/// itself or one of the directories above it. A pattern for directories
/// only has to match one of the directories.
pub open spec fn pattern_matches(pat: PatternModel, path: Seq<Seq<char>>) -> bool {
    exists|m: int|
        1 <= m <= path.len() && (pat.directory_only ==> m < path.len()) && #[trigger] matches_here(
            pat,
            path.take(m),
        )
}

/// Whether `tokens[ti..]` match `name[ni..]`.
fn glob_from(tokens: &Vec<Token>, ti: usize, name: &Vec<char>, ni: usize) -> (r: bool)
    requires
        ti <= tokens.len(),
        ni <= name.len(),
    ensures
        r == glob_matches(tokens@.skip(ti as int), name@.skip(ni as int)),
    decreases tokens.len() - ti, name.len() - ni,
{
    if ti == tokens.len() {
        return ni == name.len();
    }
    proof {
        assert(tokens@.skip(ti as int)[0] == tokens@[ti as int]);
        assert(tokens@.skip(ti as int).skip(1) =~= tokens@.skip(ti + 1));
        if ni < name.len() {
            assert(name@.skip(ni as int)[0] == name@[ni as int]);
            assert(name@.skip(ni as int).skip(1) =~= name@.skip(ni + 1));
        }
    }
    match tokens[ti] {
        Token::Literal(c) => ni < name.len() && name[ni] == c && glob_from(
            tokens,
            ti + 1,
            name,
            ni + 1,
        ),
        Token::AnyChar => ni < name.len() && name[ni] != '/' && glob_from(
            tokens,
            ti + 1,
            name,
            ni + 1,
        ),
        Token::AnyRun => glob_from(tokens, ti + 1, name, ni) || (ni < name.len() && name[ni] != '/'
            && glob_from(tokens, ti, name, ni + 1)),
    }
}

/// Whether `segments[si..]` match `names[from..to]`.
fn segments_from(
    segments: &Vec<Segment>,
    si: usize,
    names: &Vec<Vec<char>>,
    from: usize,
    to: usize,
) -> (r: bool)
    requires
        si <= segments.len(),
        from <= to <= names.len(),
    ensures
        r == segments_match(
            segment_views(segments@).skip(si as int),
            views(names@).subrange(from as int, to as int),
        ),
    decreases segments.len() - si, to - from,
{
    if si == segments.len() {
        return from == to;
    }
    proof {
        let rest = segment_views(segments@).skip(si as int);
        let window = views(names@).subrange(from as int, to as int);
        assert(rest[0] == segments@[si as int]@);
        assert(rest.skip(1) =~= segment_views(segments@).skip(si + 1));
        if from < to {
            assert(window[0] == names@[from as int]@);
            assert(window.skip(1) =~= views(names@).subrange(from + 1, to as int));
        }
    }
    match &segments[si] {
        Segment::AnyDepth => {
            if si + 1 == segments.len() {
                from < to
            } else {
                segments_from(segments, si + 1, names, from, to) || (from < to && segments_from(
                    segments,
                    si,
                    names,
                    from + 1,
                    to,
                ))
            }
        },
        Segment::Glob(tokens) => {
            if from < to {
                proof {
                    assert(tokens@.skip(0) =~= tokens@);
                    assert(names@[from as int]@.skip(0) =~= names@[from as int]@);
                }
                glob_from(tokens, 0, &names[from], 0) && segments_from(
                    segments,
                    si + 1,
                    names,
                    from + 1,
                    to,
                )
            } else {
                false
            }
        },
    }
}

/// The segment that one pattern part stands for.
fn compile_segment(piece: &Vec<char>) -> (seg: Segment)
    ensures
        seg@ == segment_of(piece@),
{
    if piece.len() == 2 && piece[0] == '*' && piece[1] == '*' {
        assert(piece@ =~= seq!['*', '*']);
        return Segment::AnyDepth;
    }
    let mut tokens: Vec<Token> = Vec::new();
    let mut i: usize = 0;
    while i < piece.len()
        invariant
            i <= piece.len(),
            tokens.len() == i,
            forall|k: int| 0 <= k < i ==> #[trigger] tokens[k] == token_of(piece[k]),
        decreases piece.len() - i,
    {
        let c = piece[i];
        let token = if c == '*' {
            Token::AnyRun
        } else if c == '?' {
            Token::AnyChar
        } else {
            Token::Literal(c)
        };
        tokens.push(token);
        assert(tokens[i as int] == token_of(piece[i as int]));
        i += 1;
    }
    assert(tokens@ =~= tokens_of(piece@));
    Segment::Glob(tokens)
}

impl CompiledPattern {
    /// Compiles a pattern text. Every text compiles; what is not a wildcard
    /// or a separator stands for itself.
    pub fn compile(pattern: &str) -> (p: CompiledPattern)
        ensures
            p@ == compile_spec(pattern@),
    {
        let chars = chars_of(pattern);
        CompiledPattern::compile_chars(&chars)
    }

    /// Compiles a pattern given as characters.
    pub fn compile_chars(chars: &Vec<char>) -> (p: CompiledPattern)
        ensures
            p@ == compile_spec(chars@),
    {
        let n = chars.len();
        let directory_only = n > 0 && chars[n - 1] == '/';
        let end = if directory_only {
            n - 1
        } else {
            n
        };
        let anchored = end > 0 && chars[0] == '/';
        let start: usize = if anchored {
            1
        } else {
            0
        };
        let body = sub_vec(chars, start, end);
        proof {
            assert(chars@.subrange(0, end as int) =~= without_trailing(chars@));
            assert(body@ =~= pattern_body(chars@));
        }
        let pieces = split_chars(&body, Delimiter::Char('/'));
        let mut segments: Vec<Segment> = Vec::new();
        let mut i: usize = 0;
        while i < pieces.len()
            invariant
                i <= pieces.len(),
                segments.len() == i,
                forall|k: int| 0 <= k < i ==> (#[trigger] segments[k])@ == segment_of(pieces[k]@),
            decreases pieces.len() - i,
        {
            segments.push(compile_segment(&pieces[i]));
            i += 1;
        }
        assert(segment_views(segments@) =~= segments_of(views(pieces@)));
        CompiledPattern { anchored, segments, directory_only }
    }

    /// Whether the pattern matches the file at `path`.
    pub fn matches(&self, path: &RelPath) -> (r: bool)
        ensures
            r == pattern_matches(self@, path@),
    {
        let names = path.segments();
        let n = names.len();
        let limit = if self.directory_only {
            n - 1
        } else {
            n
        };
        let tied = self.anchored || self.segments.len() > 1;
        let mut k: usize = 0;
        while k < limit
            invariant
                k <= limit <= n,
                n == names.len(),
                views(names@) == path@,
                limit == if self.directory_only {
                    n - 1
                } else {
                    n as int
                },
                tied == rooted(self@),
                forall|m: int| 1 <= m <= k ==> !#[trigger] matches_here(self@, path@.take(m)),
            decreases limit - k,
        {
            let hit = if tied {
                segments_from(&self.segments, 0, names, 0, k + 1)
            } else {
                segments_from(&self.segments, 0, names, k, k + 1)
            };
            proof {
                let prefix = path@.take(k + 1);
                assert(segment_views(self.segments@).skip(0) =~= self@.segments);
                assert(views(names@).subrange(0, k + 1) =~= prefix);
                assert(views(names@).subrange(k as int, k + 1) =~= prefix.skip(prefix.len() - 1));
                assert(hit == matches_here(self@, prefix));
            }
            if hit {
                return true;
            }
            k += 1;
        }
        false
    }
}

} // verus!
