//! What holds of matching: how wildcards take up characters and names, and
//! which paths a plain name matches as a pattern.

use crate::pattern::{
    compile_spec, glob_matches, matches_here, pattern_body, pattern_matches, segments_match,
    tokens_of, without_trailing, PatternModel, SegmentModel, Token,
};
use crate::text::Delimiter;
use crate::text_laws::lemma_split_without_separator;
use vstd::prelude::*;

verus! {

/// Whether `name` is a plain name: not empty, and free of separators and
/// wildcards.
pub open spec fn plain_name(name: Seq<char>) -> bool {
    &&& name.len() > 0
    &&& forall|i: int|
        0 <= i < name.len() ==> #[trigger] name[i] != '/' && name[i] != '*' && name[i] != '?'
}

/// Whether none of the first `k` characters of `name` is a separator.
pub open spec fn run_without_separator(name: Seq<char>, k: int) -> bool {
    forall|i: int| 0 <= i < k ==> #[trigger] name[i] != '/'
}

/// Tokens that start with `*` match a name exactly when the tokens after
/// the `*` match what is left of the name after some run of characters
/// without separator.
pub proof fn lemma_any_run(rest: Seq<Token>, name: Seq<char>)
    ensures
        glob_matches(seq![Token::AnyRun] + rest, name) <==> exists|k: int|
            0 <= k <= name.len() && run_without_separator(name, k) && glob_matches(
                rest,
                #[trigger] name.skip(k),
            ),
    decreases name.len(),
{
    let tokens = seq![Token::AnyRun] + rest;
    assert(tokens.skip(1) =~= rest);
    assert(name.skip(0) =~= name);
    if name.len() > 0 {
        let tail = name.skip(1);
        lemma_any_run(rest, tail);
        if name[0] != '/' && glob_matches(tokens, tail) {
            let k = choose|k: int|
                0 <= k <= tail.len() && run_without_separator(tail, k) && glob_matches(
                    rest,
                    #[trigger] tail.skip(k),
                );
            assert(tail.skip(k) =~= name.skip(k + 1));
            assert forall|i: int| 0 <= i < k + 1 implies #[trigger] name[i] != '/' by {
                if i > 0 {
                    assert(tail[i - 1] == name[i]);
                }
            }
            assert(run_without_separator(name, k + 1));
        }
        if exists|k: int|
            0 <= k <= name.len() && run_without_separator(name, k) && glob_matches(
                rest,
                #[trigger] name.skip(k),
            ) {
            let k = choose|k: int|
                0 <= k <= name.len() && run_without_separator(name, k) && glob_matches(
                    rest,
                    #[trigger] name.skip(k),
                );
            if k > 0 {
                assert(tail.skip(k - 1) =~= name.skip(k));
                assert(name[0] != '/');
                assert forall|i: int| 0 <= i < k - 1 implies #[trigger] tail[i] != '/' by {
                    assert(tail[i] == name[i + 1]);
                }
                assert(run_without_separator(tail, k - 1));
            }
        }
    } else {
        if exists|k: int|
            0 <= k <= name.len() && run_without_separator(name, k) && glob_matches(
                rest,
                #[trigger] name.skip(k),
            ) {
            let k = choose|k: int|
                0 <= k <= name.len() && run_without_separator(name, k) && glob_matches(
                    rest,
                    #[trigger] name.skip(k),
                );
            assert(k == 0);
        }
    }
}

/// Segments that start with `**` and go on match names exactly when the
/// segments after the `**` match what is left after some number of names,
/// none included.
pub proof fn lemma_any_depth(rest: Seq<SegmentModel>, names: Seq<Seq<char>>)
    requires
        rest.len() > 0,
    ensures
        segments_match(seq![SegmentModel::AnyDepth] + rest, names) <==> exists|k: int|
            0 <= k <= names.len() && segments_match(rest, #[trigger] names.skip(k)),
    decreases names.len(),
{
    let segments = seq![SegmentModel::AnyDepth] + rest;
    assert(segments.skip(1) =~= rest);
    assert(names.skip(0) =~= names);
    if names.len() > 0 {
        lemma_any_depth(rest, names.skip(1));
        if segments_match(segments, names.skip(1)) {
            let k = choose|k: int|
                0 <= k <= names.skip(1).len() && segments_match(
                    rest,
                    #[trigger] names.skip(1).skip(k),
                );
            assert(names.skip(1).skip(k) =~= names.skip(k + 1));
        }
        if exists|k: int| 0 <= k <= names.len() && segments_match(rest, #[trigger] names.skip(k)) {
            let k = choose|k: int|
                0 <= k <= names.len() && segments_match(rest, #[trigger] names.skip(k));
            if k > 0 {
                assert(names.skip(1).skip(k - 1) =~= names.skip(k));
            }
        }
    } else {
        if exists|k: int| 0 <= k <= names.len() && segments_match(rest, #[trigger] names.skip(k)) {
            let k = choose|k: int|
                0 <= k <= names.len() && segments_match(rest, #[trigger] names.skip(k));
            assert(k == 0);
        }
    }
}

/// A `**` that ends the segments matches any names, as long as there is at
/// least one.
pub proof fn lemma_any_depth_at_end(names: Seq<Seq<char>>)
    ensures
        segments_match(seq![SegmentModel::AnyDepth], names) <==> names.len() > 0,
{
}

/// The tokens of a text without wildcards match that text and no other.
pub proof fn lemma_literal_tokens(text: Seq<char>, name: Seq<char>)
    requires
        forall|i: int| 0 <= i < text.len() ==> #[trigger] text[i] != '*' && text[i] != '?',
    ensures
        glob_matches(tokens_of(text), name) <==> name == text,
    decreases text.len(),
{
    let tokens = tokens_of(text);
    if text.len() == 0 {
        assert(name.len() == 0 ==> name =~= text);
    } else {
        assert(tokens[0] == Token::Literal(text[0]));
        assert(tokens.skip(1) =~= tokens_of(text.skip(1)));
        assert forall|i: int| 0 <= i < text.skip(1).len() implies #[trigger] text.skip(1)[i] != '*'
            && text.skip(1)[i] != '?' by {
            assert(text.skip(1)[i] == text[i + 1]);
        }
        if name.len() > 0 {
            lemma_literal_tokens(text.skip(1), name.skip(1));
            if name[0] == text[0] && name.skip(1) == text.skip(1) {
                assert(name =~= seq![name[0]] + name.skip(1));
                assert(text =~= seq![text[0]] + text.skip(1));
            }
        }
    }
}

/// A pattern of one name segment matches a list of names exactly when the
/// list is one name that the segment's tokens match.
pub proof fn lemma_single_segment(tokens: Seq<Token>, names: Seq<Seq<char>>)
    ensures
        segments_match(seq![SegmentModel::Glob(tokens)], names) <==> names.len() == 1
            && glob_matches(tokens, names[0]),
{
    let segments = seq![SegmentModel::Glob(tokens)];
    assert(segments.skip(1) =~= Seq::<SegmentModel>::empty());
    if names.len() > 0 {
        assert(segments_match(segments.skip(1), names.skip(1)) <==> names.skip(1).len() == 0);
    }
}

/// What the pattern made of a plain name alone compiles to.
proof fn lemma_compile_plain(name: Seq<char>)
    requires
        plain_name(name),
    ensures
        compile_spec(name) == (PatternModel {
            anchored: false,
            segments: seq![SegmentModel::Glob(tokens_of(name))],
            directory_only: false,
        }),
{
    let d = Delimiter::Char('/');
    assert(name.last() == name[name.len() - 1]);
    assert(pattern_body(name) == name);
    assert forall|i: int| 0 <= i < name.len() implies !d.holds(#[trigger] name[i]) by {}
    lemma_split_without_separator(name, d);
    assert(name[0] != '*');
    assert(!(name =~= seq!['*', '*']));
    assert(compile_spec(name).segments =~= seq![SegmentModel::Glob(tokens_of(name))]);
}

/// A plain name as a pattern matches the paths that hold that name, at any
/// depth: the file of that name and everything beneath a directory of that
/// name.
pub proof fn lemma_floating_name(name: Seq<char>, path: Seq<Seq<char>>)
    requires
        plain_name(name),
    ensures
        pattern_matches(compile_spec(name), path) <==> exists|i: int|
            0 <= i < path.len() && #[trigger] path[i] == name,
{
    let pat = compile_spec(name);
    lemma_compile_plain(name);
    assert forall|m: int| 1 <= m <= path.len() implies (#[trigger] matches_here(pat, path.take(m))
        <==> path[m - 1] == name) by {
        let last = path.take(m).skip(path.take(m).len() - 1);
        assert(last =~= seq![path[m - 1]]);
        lemma_single_segment(tokens_of(name), last);
        lemma_literal_tokens(name, path[m - 1]);
    }
    if pattern_matches(pat, path) {
        let m = choose|m: int|
            1 <= m <= path.len() && (pat.directory_only ==> m < path.len())
                && #[trigger] matches_here(pat, path.take(m));
        assert(path[m - 1] == name);
    }
    if exists|i: int| 0 <= i < path.len() && #[trigger] path[i] == name {
        let i = choose|i: int| 0 <= i < path.len() && #[trigger] path[i] == name;
        assert(matches_here(pat, path.take(i + 1)));
    }
}

/// A plain name with a leading `/` matches the paths that start with that
/// name, and no path that holds the name further down only.
pub proof fn lemma_anchored_name(name: Seq<char>, path: Seq<Seq<char>>)
    requires
        plain_name(name),
    ensures
        pattern_matches(compile_spec(seq!['/'] + name), path) <==> path.len() >= 1 && path[0]
            == name,
{
    let text = seq!['/'] + name;
    let pat = compile_spec(text);
    let d = Delimiter::Char('/');
    assert(text.last() == name[name.len() - 1]);
    assert(without_trailing(text) == text);
    assert(text[0] == '/');
    assert(pattern_body(text) =~= name);
    assert forall|i: int| 0 <= i < name.len() implies !d.holds(#[trigger] name[i]) by {}
    lemma_split_without_separator(name, d);
    assert(name[0] != '*');
    assert(!(name =~= seq!['*', '*']));
    assert(pat.segments =~= seq![SegmentModel::Glob(tokens_of(name))]);
    assert(pat.anchored && !pat.directory_only);
    assert forall|m: int| 1 <= m <= path.len() implies (#[trigger] matches_here(pat, path.take(m))
        <==> m == 1 && path[0] == name) by {
        lemma_single_segment(tokens_of(name), path.take(m));
        lemma_literal_tokens(name, path.take(m)[0]);
    }
    if pattern_matches(pat, path) {
        let m = choose|m: int|
            1 <= m <= path.len() && (pat.directory_only ==> m < path.len())
                && #[trigger] matches_here(pat, path.take(m));
        assert(m == 1);
    }
    if path.len() >= 1 && path[0] == name {
        assert(matches_here(pat, path.take(1)));
    }
}

/// A plain name with a trailing `/` matches the paths that pass through a
/// directory of that name: those that hold the name before their last
/// name. A file of that name is not matched by it.
pub proof fn lemma_directory_name(name: Seq<char>, path: Seq<Seq<char>>)
    requires
        plain_name(name),
    ensures
        pattern_matches(compile_spec(name.push('/')), path) <==> exists|i: int|
            0 <= i < path.len() - 1 && #[trigger] path[i] == name,
{
    let text = name.push('/');
    let pat = compile_spec(text);
    let d = Delimiter::Char('/');
    assert(text.last() == '/');
    assert(without_trailing(text) =~= name);
    assert(pattern_body(text) =~= name);
    assert forall|i: int| 0 <= i < name.len() implies !d.holds(#[trigger] name[i]) by {}
    lemma_split_without_separator(name, d);
    assert(name[0] != '*');
    assert(!(name =~= seq!['*', '*']));
    assert(pat.segments =~= seq![SegmentModel::Glob(tokens_of(name))]);
    assert(!pat.anchored && pat.directory_only);
    assert forall|m: int| 1 <= m <= path.len() implies (#[trigger] matches_here(pat, path.take(m))
        <==> path[m - 1] == name) by {
        let last = path.take(m).skip(path.take(m).len() - 1);
        assert(last =~= seq![path[m - 1]]);
        lemma_single_segment(tokens_of(name), last);
        lemma_literal_tokens(name, path[m - 1]);
    }
    if pattern_matches(pat, path) {
        let m = choose|m: int|
            1 <= m <= path.len() && (pat.directory_only ==> m < path.len())
                && #[trigger] matches_here(pat, path.take(m));
        assert(path[m - 1] == name);
    }
    if exists|i: int| 0 <= i < path.len() - 1 && #[trigger] path[i] == name {
        let i = choose|i: int| 0 <= i < path.len() - 1 && #[trigger] path[i] == name;
        assert(matches_here(pat, path.take(i + 1)));
    }
}

} // verus!
