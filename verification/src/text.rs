//! Character-level helpers shared by the rule compiler, the pattern matcher
//! and the path parser: conversions between strings and character vectors,
//! the whitespace predicate, and splitting on a delimiter.

use vstd::prelude::*;

verus! {

/// Whether `c` is white space in the Unicode sense (the `White_Space`
/// set), which is what separates the fields of a rule line.
pub open spec fn is_space(c: char) -> bool {
    let u = c as u32;
    ||| 0x09 <= u <= 0x0D
    ||| u == 0x20
    ||| u == 0x85
    ||| u == 0xA0
    ||| u == 0x1680
    ||| 0x2000 <= u <= 0x200A
    ||| u == 0x2028
    ||| u == 0x2029
    ||| u == 0x202F
    ||| u == 0x205F
    ||| u == 0x3000
}

/// Executable form of [`is_space`].
pub fn is_whitespace(c: char) -> (r: bool)
    ensures
        r == is_space(c),
{
    let u: u32 = c as u32;
    (0x09 <= u && u <= 0x0D) || u == 0x20 || u == 0x85 || u == 0xA0 || u == 0x1680 || (0x2000 <= u
        && u <= 0x200A) || u == 0x2028 || u == 0x2029 || u == 0x202F || u == 0x205F || u == 0x3000
}

/// What separates the pieces of a text.
#[derive(Clone, Copy, Debug)]
pub enum Delimiter {
    /// Exactly this character.
    Char(char),
    /// Any white-space character.
    Whitespace,
}

impl Delimiter {
    /// Whether `c` is a separator under this delimiter.
    pub open spec fn holds(self, c: char) -> bool {
        match self {
            Delimiter::Char(d) => c == d,
            Delimiter::Whitespace => is_space(c),
        }
    }

    /// Executable form of [`Delimiter::holds`].
    pub fn separates(&self, c: char) -> (r: bool)
        ensures
            r == self.holds(c),
    {
        match self {
            Delimiter::Char(d) => c == *d,
            Delimiter::Whitespace => is_whitespace(c),
        }
    }
}

/// The pieces of `s` that lie between separators. Every separator ends one
/// piece and starts the next, so there is always at least one piece and a
/// text with `k` separators has `k + 1` pieces, some of them possibly empty.
pub open spec fn split(s: Seq<char>, d: Delimiter) -> Seq<Seq<char>>
    decreases s.len(),
{
    if s.len() == 0 {
        seq![Seq::<char>::empty()]
    } else {
        let before = split(s.drop_last(), d);
        if d.holds(s.last()) {
            before.push(Seq::<char>::empty())
        } else {
            before.drop_last().push(before.last().push(s.last()))
        }
    }
}

/// The pieces of `pieces` that are not empty, in order.
pub open spec fn nonempty_pieces(pieces: Seq<Seq<char>>) -> Seq<Seq<char>>
    decreases pieces.len(),
{
    if pieces.len() == 0 {
        Seq::<Seq<char>>::empty()
    } else {
        let before = nonempty_pieces(pieces.drop_last());
        if pieces.last().len() > 0 {
            before.push(pieces.last())
        } else {
            before
        }
    }
}

/// The white-space separated fields of a line: its maximal runs of
/// characters that are not white space.
pub open spec fn fields(line: Seq<char>) -> Seq<Seq<char>> {
    nonempty_pieces(split(line, Delimiter::Whitespace))
}

/// `pieces` written one after the other with `sep` between neighbours.
pub open spec fn joined(pieces: Seq<Seq<char>>, sep: Seq<char>) -> Seq<char>
    decreases pieces.len(),
{
    if pieces.len() == 0 {
        Seq::<char>::empty()
    } else if pieces.len() == 1 {
        pieces[0]
    } else {
        joined(pieces.drop_last(), sep) + sep + pieces.last()
    }
}

/// The contents of a vector of character vectors.
pub open spec fn views(v: Seq<Vec<char>>) -> Seq<Seq<char>> {
    Seq::new(v.len(), |i: int| v[i]@)
}

/// The contents of a vector of strings.
pub open spec fn string_views(v: Seq<String>) -> Seq<Seq<char>> {
    Seq::new(v.len(), |i: int| v[i]@)
}

/// The number of white-space characters that `line` begins with.
pub open spec fn leading_spaces(line: Seq<char>) -> nat
    decreases line.len(),
{
    if line.len() == 0 || !is_space(line[0]) {
        0
    } else {
        1 + leading_spaces(line.skip(1))
    }
}

/// `line` without the white space that it begins with.
pub open spec fn trim_start(line: Seq<char>) -> Seq<char> {
    line.skip(leading_spaces(line) as int)
}

/// Whether `a` comes before `b` in the order of texts: character by
/// character by code point, a text before its extensions. This is the order
/// in which strings compare.
pub open spec fn text_less(a: Seq<char>, b: Seq<char>) -> bool
    decreases a.len(),
{
    if b.len() == 0 {
        false
    } else if a.len() == 0 {
        true
    } else if a[0] == b[0] {
        text_less(a.skip(1), b.skip(1))
    } else {
        (a[0] as u32) < (b[0] as u32)
    }
}

/// The characters of `s`, in order.
pub fn chars_of(s: &str) -> (out: Vec<char>)
    ensures
        out@ == s@,
{
    let mut out: Vec<char> = Vec::new();
    for c in it: s.chars()
        invariant
            out@ == it.seq().take(it.index() as int),
            it.seq() == s@,
    {
        out.push(c);
    }
    out
}

/// Appends one character to a string.
///
/// Trusted: stands for `String::push`, which appends `c` to the end of `s`
/// and leaves the characters before it unchanged.
#[verifier::external_body]
fn push_char(s: &mut String, c: char)
    ensures
        final(s)@ == old(s)@.push(c),
{
    s.push(c)
}

/// The string made of `chars`, in order.
pub fn string_of(chars: &Vec<char>) -> (out: String)
    ensures
        out@ == chars@,
{
    let mut out = String::new();
    let mut i: usize = 0;
    while i < chars.len()
        invariant
            i <= chars.len(),
            out@ == chars@.take(i as int),
        decreases chars.len() - i,
    {
        push_char(&mut out, chars[i]);
        i += 1;
    }
    out
}

/// The strings made of each element of `pieces[from..]`, in order.
pub(crate) fn strings_of(pieces: &Vec<Vec<char>>, from: usize) -> (out: Vec<String>)
    requires
        from <= pieces.len(),
    ensures
        string_views(out@) =~= views(pieces@).skip(from as int),
{
    let mut out: Vec<String> = Vec::new();
    let mut i: usize = from;
    while i < pieces.len()
        invariant
            from <= i <= pieces.len(),
            out.len() == i - from,
            forall|k: int| 0 <= k < out.len() ==> (#[trigger] out[k])@ == pieces[from + k]@,
        decreases pieces.len() - i,
    {
        out.push(string_of(&pieces[i]));
        i += 1;
    }
    out
}

/// A copy of `v[from..to]`.
pub(crate) fn sub_vec(v: &Vec<char>, from: usize, to: usize) -> (out: Vec<char>)
    requires
        from <= to <= v.len(),
    ensures
        out@ == v@.subrange(from as int, to as int),
{
    let mut out: Vec<char> = Vec::new();
    let mut i: usize = from;
    while i < to
        invariant
            from <= i <= to <= v.len(),
            out@ == v@.subrange(from as int, i as int),
        decreases to - i,
    {
        out.push(v[i]);
        i += 1;
    }
    out
}

/// Whether two character vectors hold the same text.
pub fn same_text(a: &Vec<char>, b: &Vec<char>) -> (r: bool)
    ensures
        r == (a@ == b@),
{
    if a.len() != b.len() {
        return false;
    }
    let mut i: usize = 0;
    while i < a.len()
        invariant
            i <= a.len(),
            a.len() == b.len(),
            a@.take(i as int) == b@.take(i as int),
        decreases a.len() - i,
    {
        if a[i] != b[i] {
            return false;
        }
        assert(a@.take(i + 1) =~= a@.take(i as int).push(a@[i as int]));
        assert(b@.take(i + 1) =~= b@.take(i as int).push(b@[i as int]));
        i += 1;
    }
    assert(a@.take(a.len() as int) =~= a@);
    assert(b@.take(b.len() as int) =~= b@);
    true
}

/// Whether `a` comes before `b` in the order of texts.
pub fn text_before(a: &Vec<char>, b: &Vec<char>) -> (r: bool)
    ensures
        r == text_less(a@, b@),
{
    let mut i: usize = 0;
    assert(a@.skip(0) =~= a@ && b@.skip(0) =~= b@);
    while i < a.len() && i < b.len()
        invariant
            i <= a.len(),
            i <= b.len(),
            text_less(a@, b@) == text_less(a@.skip(i as int), b@.skip(i as int)),
        decreases a.len() - i,
    {
        proof {
            assert(a@.skip(i as int)[0] == a@[i as int]);
            assert(b@.skip(i as int)[0] == b@[i as int]);
            assert(a@.skip(i as int).skip(1) =~= a@.skip(i + 1));
            assert(b@.skip(i as int).skip(1) =~= b@.skip(i + 1));
        }
        if a[i] != b[i] {
            return (a[i] as u32) < (b[i] as u32);
        }
        i += 1;
    }
    i < b.len()
}

/// Splits `s` at every separator.
pub fn split_chars(s: &Vec<char>, d: Delimiter) -> (out: Vec<Vec<char>>)
    ensures
        views(out@) == split(s@, d),
        out.len() >= 1,
{
    let mut out: Vec<Vec<char>> = Vec::new();
    let mut current: Vec<char> = Vec::new();
    let mut i: usize = 0;
    while i < s.len()
        invariant
            i <= s.len(),
            views(out@).push(current@) == split(s@.take(i as int), d),
        decreases s.len() - i,
    {
        let c = s[i];
        proof {
            let prefix = s@.take(i + 1);
            assert(prefix.drop_last() =~= s@.take(i as int));
            assert(prefix.last() == c);
        }
        if d.separates(c) {
            let ghost before = views(out@).push(current@);
            out.push(current);
            current = Vec::new();
            assert(views(out@) =~= before);
        } else {
            let ghost before = views(out@).push(current@);
            current.push(c);
            assert(views(out@).push(current@) =~= before.drop_last().push(before.last().push(c)));
        }
        i += 1;
    }
    assert(s@.take(s.len() as int) =~= s@);
    let ghost whole = views(out@).push(current@);
    out.push(current);
    assert(views(out@) =~= whole);
    out
}

/// Keeps the pieces that are not empty.
pub(crate) fn drop_empty(pieces: Vec<Vec<char>>) -> (out: Vec<Vec<char>>)
    ensures
        views(out@) == nonempty_pieces(views(pieces@)),
        forall|i: int| 0 <= i < out.len() ==> (#[trigger] out[i]).len() > 0,
{
    let mut out: Vec<Vec<char>> = Vec::new();
    let mut i: usize = 0;
    while i < pieces.len()
        invariant
            i <= pieces.len(),
            views(out@) == nonempty_pieces(views(pieces@).take(i as int)),
            forall|k: int| 0 <= k < out.len() ==> (#[trigger] out[k]).len() > 0,
        decreases pieces.len() - i,
    {
        proof {
            let prefix = views(pieces@).take(i + 1);
            assert(prefix.drop_last() =~= views(pieces@).take(i as int));
            assert(prefix.last() == pieces[i as int]@);
        }
        if pieces[i].len() > 0 {
            let ghost before = views(out@);
            let ghost piece = pieces[i as int]@;
            out.push(sub_vec(&pieces[i], 0, pieces[i].len()));
            assert(piece.subrange(0, piece.len() as int) =~= piece);
            assert(views(out@) =~= before.push(piece));
        }
        i += 1;
    }
    assert(views(pieces@).take(pieces.len() as int) =~= views(pieces@));
    out
}

/// The white-space separated fields of `line`.
pub fn fields_of(line: &Vec<char>) -> (out: Vec<Vec<char>>)
    ensures
        views(out@) == fields(line@),
        forall|i: int| 0 <= i < out.len() ==> (#[trigger] out[i]).len() > 0,
{
    drop_empty(split_chars(line, Delimiter::Whitespace))
}

} // verus!
