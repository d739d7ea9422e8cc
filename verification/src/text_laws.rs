//! What holds of splitting, joining and ordering texts.

use crate::text::{
    fields, is_space, joined, leading_spaces, nonempty_pieces, split, text_less, trim_start,
    Delimiter,
};
use vstd::prelude::*;

verus! {

/// There is always at least one piece.
pub proof fn lemma_split_nonempty(s: Seq<char>, d: Delimiter)
    ensures
        split(s, d).len() >= 1,
    decreases s.len(),
{
    if s.len() > 0 {
        lemma_split_nonempty(s.drop_last(), d);
    }
}

/// No piece of a split holds a separator.
pub proof fn lemma_split_pieces_clean(s: Seq<char>, d: Delimiter)
    ensures
        forall|i: int, j: int|
            0 <= i < split(s, d).len() && 0 <= j < split(s, d)[i].len() ==> !d.holds(
                #[trigger] split(s, d)[i][j],
            ),
    decreases s.len(),
{
    if s.len() > 0 {
        lemma_split_nonempty(s.drop_last(), d);
        lemma_split_pieces_clean(s.drop_last(), d);
    }
}

/// A text without separators is its own single piece.
pub proof fn lemma_split_without_separator(s: Seq<char>, d: Delimiter)
    requires
        forall|i: int| 0 <= i < s.len() ==> !d.holds(#[trigger] s[i]),
    ensures
        split(s, d) =~= seq![s],
    decreases s.len(),
{
    if s.len() > 0 {
        let init = s.drop_last();
        assert forall|i: int| 0 <= i < init.len() implies !d.holds(#[trigger] init[i]) by {
            assert(init[i] == s[i]);
        }
        lemma_split_without_separator(init, d);
        assert(!d.holds(s[s.len() - 1]));
        assert(split(init, d).last() == init);
        assert(init.push(s.last()) =~= s);
        assert(split(init, d).drop_last() =~= Seq::<Seq<char>>::empty());
    } else {
        assert(s =~= Seq::<char>::empty());
    }
}

/// Splitting on a character and joining with it again gives the text back.
pub proof fn lemma_join_of_split(s: Seq<char>, sep: char)
    ensures
        joined(split(s, Delimiter::Char(sep)), seq![sep]) =~= s,
    decreases s.len(),
{
    let d = Delimiter::Char(sep);
    if s.len() > 0 {
        let init = s.drop_last();
        let before = split(init, d);
        lemma_split_nonempty(init, d);
        lemma_join_of_split(init, sep);
        lemma_joined_pop(before, seq![sep]);
        if s.last() == sep {
            let after = before.push(Seq::<char>::empty());
            assert(after.drop_last() =~= before);
            assert(joined(after, seq![sep]) =~= joined(before, seq![sep]) + seq![sep]);
            assert(init + seq![sep] =~= s);
        } else {
            let grown = before.last().push(s.last());
            let after = before.drop_last().push(grown);
            lemma_joined_pop(after, seq![sep]);
            assert(after.drop_last() =~= before.drop_last());
            assert(init.push(s.last()) =~= s);
            if before.len() == 1 {
                assert(joined(before, seq![sep]) =~= before.last());
            } else {
                assert(joined(after, seq![sep]) =~= joined(before.drop_last(), seq![sep]) + seq![
                    sep,
                ] + grown);
            }
        }
    }
}

/// A joined text ends with its last piece.
proof fn lemma_joined_pop(pieces: Seq<Seq<char>>, sep: Seq<char>)
    requires
        pieces.len() >= 1,
    ensures
        pieces.len() == 1 ==> joined(pieces, sep) == pieces[0],
        pieces.len() > 1 ==> joined(pieces, sep) == joined(pieces.drop_last(), sep) + sep
            + pieces.last(),
{
}

/// A text that begins with a separator has an empty first piece, and
/// another piece after it.
pub proof fn lemma_split_leading_separator(s: Seq<char>, d: Delimiter)
    requires
        s.len() > 0,
        d.holds(s[0]),
    ensures
        split(s, d).len() >= 2,
        split(s, d)[0].len() == 0,
    decreases s.len(),
{
    let init = s.drop_last();
    let before = split(init, d);
    if init.len() > 0 {
        assert(init[0] == s[0]);
        lemma_split_leading_separator(init, d);
        if !d.holds(s.last()) {
            assert(split(s, d)[0] == before.drop_last()[0]);
        }
    } else {
        assert(s.last() == s[0]);
        assert(before =~= seq![Seq::<char>::empty()]);
        assert(split(s, d) =~= before.push(Seq::<char>::empty()));
    }
}

/// Text without separators, added to the end of a text, goes to the end of
/// its last piece.
pub proof fn lemma_split_extended(s: Seq<char>, t: Seq<char>, d: Delimiter)
    requires
        forall|i: int| 0 <= i < t.len() ==> !d.holds(#[trigger] t[i]),
    ensures
        split(s + t, d) =~= split(s, d).drop_last().push(split(s, d).last() + t),
    decreases t.len(),
{
    lemma_split_nonempty(s, d);
    if t.len() == 0 {
        assert(s + t =~= s);
        assert(split(s, d).last() + t =~= split(s, d).last());
    } else {
        let t_init = t.drop_last();
        assert forall|i: int| 0 <= i < t_init.len() implies !d.holds(#[trigger] t_init[i]) by {
            assert(t_init[i] == t[i]);
        }
        lemma_split_extended(s, t_init, d);
        assert((s + t).drop_last() =~= s + t_init);
        assert((s + t).last() == t[t.len() - 1]);
        assert(split(s, d).last() + t =~= (split(s, d).last() + t_init).push(t.last()));
    }
}

/// A piece without separators, joined to pieces by a separator, is one
/// more piece of the joined text.
pub proof fn lemma_split_of_join(pieces: Seq<Seq<char>>, sep: char)
    requires
        pieces.len() >= 1,
        forall|i: int, j: int|
            0 <= i < pieces.len() && 0 <= j < pieces[i].len() ==> #[trigger] pieces[i][j] != sep,
    ensures
        split(joined(pieces, seq![sep]), Delimiter::Char(sep)) =~= pieces,
    decreases pieces.len(),
{
    let d = Delimiter::Char(sep);
    let last = pieces.last();
    assert forall|j: int| 0 <= j < last.len() implies !d.holds(#[trigger] last[j]) by {
        assert(pieces[pieces.len() - 1][j] != sep);
    }
    if pieces.len() == 1 {
        lemma_split_without_separator(pieces[0], d);
    } else {
        let init = pieces.drop_last();
        assert forall|i: int, j: int|
            0 <= i < init.len() && 0 <= j < init[i].len() implies #[trigger] init[i][j] != sep by {
            assert(init[i][j] == pieces[i][j]);
        }
        lemma_split_of_join(init, sep);
        let head = joined(init, seq![sep]);
        let with_sep = head + seq![sep];
        assert(with_sep.drop_last() =~= head);
        assert(split(with_sep, d) =~= init.push(Seq::<char>::empty()));
        lemma_split_extended(with_sep, last, d);
        assert(Seq::<char>::empty() + last =~= last);
        assert(joined(pieces, seq![sep]) =~= with_sep + last);
    }
}

/// Every piece that [`nonempty_pieces`] keeps is one of the pieces, and is
/// not empty.
pub proof fn lemma_nonempty_pieces_are_pieces(pieces: Seq<Seq<char>>)
    ensures
        forall|i: int|
            0 <= i < nonempty_pieces(pieces).len() ==> (#[trigger] nonempty_pieces(pieces)[i]).len()
                > 0 && exists|j: int|
                0 <= j < pieces.len() && #[trigger] pieces[j] == nonempty_pieces(pieces)[i],
    decreases pieces.len(),
{
    if pieces.len() > 0 {
        let init = pieces.drop_last();
        lemma_nonempty_pieces_are_pieces(init);
        let kept = nonempty_pieces(pieces);
        assert forall|i: int| 0 <= i < kept.len() implies (#[trigger] kept[i]).len() > 0 && exists|
            j: int,
        |
            0 <= j < pieces.len() && #[trigger] pieces[j] == kept[i] by {
            if i < nonempty_pieces(init).len() {
                assert(kept[i] == nonempty_pieces(init)[i]);
                let j = choose|j: int|
                    0 <= j < init.len() && #[trigger] init[j] == nonempty_pieces(init)[i];
                assert(pieces[j] == kept[i]);
            } else {
                assert(pieces[pieces.len() - 1] == kept[i]);
            }
        }
    }
}

/// Every field of a line is a run of at least one character, none of them
/// white space.
pub proof fn lemma_fields_are_clean(line: Seq<char>)
    ensures
        forall|i: int|
            0 <= i < fields(line).len() ==> (#[trigger] fields(line)[i]).len() > 0 && forall|
                j: int,
            |
                0 <= j < fields(line)[i].len() ==> !is_space(#[trigger] fields(line)[i][j]),
{
    let d = Delimiter::Whitespace;
    let pieces = split(line, d);
    lemma_nonempty_pieces_are_pieces(pieces);
    lemma_split_pieces_clean(line, d);
    assert forall|i: int| 0 <= i < fields(line).len() implies (#[trigger] fields(line)[i]).len() > 0
        && forall|j: int|
        0 <= j < fields(line)[i].len() ==> !is_space(#[trigger] fields(line)[i][j]) by {
        let k = choose|k: int| 0 <= k < pieces.len() && #[trigger] pieces[k] == fields(line)[i];
        assert forall|j: int| 0 <= j < fields(line)[i].len() implies !is_space(
            #[trigger] fields(line)[i][j],
        ) by {
            assert(!d.holds(pieces[k][j]));
        }
    }
}

/// What [`leading_spaces`] counts: the white space up to the first
/// character that is none.
pub proof fn lemma_leading_spaces(line: Seq<char>)
    ensures
        leading_spaces(line) <= line.len(),
        forall|i: int| 0 <= i < leading_spaces(line) ==> is_space(#[trigger] line[i]),
        leading_spaces(line) < line.len() ==> !is_space(line[leading_spaces(line) as int]),
    decreases line.len(),
{
    if line.len() > 0 && is_space(line[0]) {
        let tail = line.skip(1);
        lemma_leading_spaces(tail);
        assert forall|i: int| 0 <= i < leading_spaces(line) implies is_space(
            #[trigger] line[i],
        ) by {
            if i > 0 {
                assert(tail[i - 1] == line[i]);
            }
        }
        if leading_spaces(line) < line.len() {
            assert(tail[leading_spaces(tail) as int] == line[leading_spaces(line) as int]);
        }
    }
}

/// Where a text begins with `k` white-space characters: if that is all of
/// it, every piece of its split on white space is empty; otherwise the
/// first piece that is not empty begins with the character after them.
proof fn lemma_split_after_spaces(line: Seq<char>, k: int)
    requires
        0 <= k <= line.len(),
        forall|i: int| 0 <= i < k ==> is_space(#[trigger] line[i]),
        k < line.len() ==> !is_space(line[k]),
    ensures
        split(line, Delimiter::Whitespace).len() >= 1,
        k == line.len() ==> forall|i: int|
            0 <= i < split(line, Delimiter::Whitespace).len() ==> (#[trigger] split(
                line,
                Delimiter::Whitespace,
            )[i]).len() == 0,
        k < line.len() ==> exists|j: int|
            first_full_piece(split(line, Delimiter::Whitespace), j) && split(
                line,
                Delimiter::Whitespace,
            )[j][0] == line[k],
    decreases line.len(),
{
    let d = Delimiter::Whitespace;
    let pieces = split(line, d);
    lemma_split_nonempty(line, d);
    if line.len() > 0 {
        let init = line.drop_last();
        let before = split(init, d);
        let c = line.last();
        lemma_split_nonempty(init, d);
        let k_init = if k < init.len() {
            k
        } else {
            init.len() as int
        };
        assert forall|i: int| 0 <= i < k_init implies is_space(#[trigger] init[i]) by {
            assert(init[i] == line[i]);
        }
        if k_init < init.len() {
            assert(init[k_init] == line[k]);
        }
        lemma_split_after_spaces(init, k_init);
        if k < init.len() {
            let j = choose|j: int| first_full_piece(before, j) && before[j][0] == init[k];
            assert(init[k] == line[k]);
            if is_space(c) {
                assert(pieces =~= before.push(Seq::<char>::empty()));
                assert forall|i: int| 0 <= i < j implies (#[trigger] pieces[i]).len() == 0 by {
                    assert(pieces[i] == before[i]);
                }
                assert(pieces[j] == before[j]);
                assert(first_full_piece(pieces, j));
            } else {
                assert forall|i: int| 0 <= i < j implies (#[trigger] pieces[i]).len() == 0 by {
                    assert(pieces[i] == before[i]);
                }
                if j < before.len() - 1 {
                    assert(pieces[j] == before[j]);
                } else {
                    assert(pieces[j] == before[j].push(c));
                    assert(pieces[j][0] == before[j][0]);
                }
                assert(first_full_piece(pieces, j));
            }
        } else if k < line.len() {
            let j = before.len() - 1;
            assert(line[k] == c);
            assert forall|i: int| 0 <= i < j implies (#[trigger] pieces[i]).len() == 0 by {
                assert(pieces[i] == before[i]);
            }
            assert(before[j].len() == 0);
            assert(pieces[j] == before[j].push(c));
            assert(first_full_piece(pieces, j));
        } else {
            assert(is_space(line[line.len() - 1]));
            assert forall|i: int| 0 <= i < pieces.len() implies (#[trigger] pieces[i]).len()
                == 0 by {
                if i < before.len() {
                    assert(pieces[i] == before[i]);
                }
            }
        }
    }
}

/// Whether piece `j` is the first of `pieces` that is not empty.
pub open spec fn first_full_piece(pieces: Seq<Seq<char>>, j: int) -> bool {
    &&& 0 <= j < pieces.len()
    &&& pieces[j].len() > 0
    &&& forall|i: int| 0 <= i < j ==> (#[trigger] pieces[i]).len() == 0
}

/// Of pieces that are all empty none is kept; otherwise the first piece
/// kept is the first that is not empty.
proof fn lemma_first_kept_piece(pieces: Seq<Seq<char>>)
    ensures
        (forall|i: int| 0 <= i < pieces.len() ==> (#[trigger] pieces[i]).len() == 0)
            ==> nonempty_pieces(pieces).len() == 0,
        forall|j: int|
            first_full_piece(pieces, j) ==> nonempty_pieces(pieces).len() > 0 && nonempty_pieces(
                pieces,
            )[0] == pieces[j],
    decreases pieces.len(),
{
    if pieces.len() > 0 {
        let init = pieces.drop_last();
        lemma_first_kept_piece(init);
        if forall|i: int| 0 <= i < pieces.len() ==> (#[trigger] pieces[i]).len() == 0 {
            assert forall|i: int| 0 <= i < init.len() implies (#[trigger] init[i]).len() == 0 by {
                assert(init[i] == pieces[i]);
            }
            assert(pieces[pieces.len() - 1].len() == 0);
        }
        assert forall|j: int| first_full_piece(pieces, j) implies nonempty_pieces(pieces).len() > 0
            && nonempty_pieces(pieces)[0] == pieces[j] by {
            if j < init.len() {
                assert forall|i: int| 0 <= i < j implies (#[trigger] init[i]).len() == 0 by {
                    assert(init[i] == pieces[i]);
                }
                assert(init[j] == pieces[j]);
                assert(first_full_piece(init, j));
            } else {
                assert forall|i: int| 0 <= i < init.len() implies (#[trigger] init[i]).len()
                    == 0 by {
                    assert(init[i] == pieces[i]);
                }
            }
        }
    }
}

/// A line has a field exactly when something is left of it once the white
/// space at its start is taken away, and its first field then starts with
/// the first character that is left.
pub proof fn lemma_first_field(line: Seq<char>)
    ensures
        fields(line).len() > 0 <==> trim_start(line).len() > 0,
        fields(line).len() > 0 ==> fields(line)[0].len() > 0 && fields(line)[0][0] == trim_start(
            line,
        )[0],
{
    let k = leading_spaces(line) as int;
    let pieces = split(line, Delimiter::Whitespace);
    lemma_leading_spaces(line);
    lemma_split_after_spaces(line, k);
    lemma_first_kept_piece(pieces);
    if k < line.len() {
        let j = choose|j: int| first_full_piece(pieces, j) && pieces[j][0] == line[k];
        assert(fields(line)[0] == pieces[j]);
        assert(trim_start(line)[0] == line[k]);
    }
}

/// No text comes before itself.
pub proof fn lemma_text_order_irreflexive(a: Seq<char>)
    ensures
        !text_less(a, a),
    decreases a.len(),
{
    if a.len() > 0 {
        lemma_text_order_irreflexive(a.skip(1));
    }
}

/// Of two different texts exactly one comes before the other.
pub proof fn lemma_text_order_total(a: Seq<char>, b: Seq<char>)
    ensures
        a != b ==> (text_less(a, b) <==> !text_less(b, a)),
        a == b ==> !text_less(a, b) && !text_less(b, a),
    decreases a.len(),
{
    if a == b {
        lemma_text_order_irreflexive(a);
    } else if a.len() > 0 && b.len() > 0 {
        if a[0] == b[0] {
            if a.skip(1) == b.skip(1) {
                assert(a =~= seq![a[0]] + a.skip(1));
                assert(b =~= seq![b[0]] + b.skip(1));
            }
            lemma_text_order_total(a.skip(1), b.skip(1));
        } else {
            vstd::utf8::char_u32_cast(a[0], a[0] as u32);
            vstd::utf8::char_u32_cast(b[0], b[0] as u32);
        }
    } else if a.len() == 0 && b.len() == 0 {
        assert(a =~= b);
    }
}

/// The order of texts is transitive.
pub proof fn lemma_text_order_transitive(a: Seq<char>, b: Seq<char>, c: Seq<char>)
    requires
        text_less(a, b),
        text_less(b, c),
    ensures
        text_less(a, c),
    decreases a.len(),
{
    if a.len() > 0 {
        if a[0] == b[0] && b[0] == c[0] {
            lemma_text_order_transitive(a.skip(1), b.skip(1), c.skip(1));
        }
    }
}

} // verus!
