//! The mathematical model of line-oriented text: splitting a character
//! sequence into lines, substring containment, and per-character lowercasing.

use vstd::prelude::*;

verus! {

/// True when `needle` occurs in `hay` as a contiguous run of characters.
/// The empty needle occurs in every sequence.
pub open spec fn contains_seq(hay: Seq<char>, needle: Seq<char>) -> bool {
    exists|i: int|
        0 <= i && i + needle.len() <= hay.len() && #[trigger] hay.subrange(i, i + needle.len())
            == needle
}

/// The empty needle occurs in every sequence, at offset zero.
pub proof fn lemma_contains_empty(hay: Seq<char>)
    ensures
        contains_seq(hay, Seq::<char>::empty()),
{
    let needle: Seq<char> = Seq::empty();
    let z: int = 0;
    assert(hay.subrange(z, z + needle.len()) =~= needle);
}

/// Index of the first newline of `s`, or `s.len()` when `s` holds none.
pub open spec fn first_newline(s: Seq<char>) -> int
    decreases s.len(),
{
    if s.len() == 0 {
        0
    } else if s[0] == '\n' {
        0
    } else {
        1 + first_newline(s.drop_first())
    }
}

pub proof fn lemma_first_newline_bounds(s: Seq<char>)
    ensures
        0 <= first_newline(s) <= s.len(),
        forall|j: int| 0 <= j < first_newline(s) ==> s[j] != '\n',
        first_newline(s) < s.len() ==> s[first_newline(s)] == '\n',
    decreases s.len(),
{
    if s.len() == 0 {
    } else if s[0] == '\n' {
    } else {
        lemma_first_newline_bounds(s.drop_first());
        assert forall|j: int| 0 <= j < first_newline(s) implies s[j] != '\n' by {
            if j > 0 {
                assert(s.drop_first()[j - 1] != '\n');
            }
        }
        if first_newline(s) < s.len() {
            assert(s[first_newline(s)] == s.drop_first()[first_newline(s) - 1]);
        }
    }
}

/// `first_newline` is pinned down by its characteristic properties: no
/// newline before `i`, and a newline at `i` unless `i` is the end.
pub proof fn lemma_first_newline_is(s: Seq<char>, i: int)
    requires
        0 <= i <= s.len(),
        forall|j: int| 0 <= j < i ==> s[j] != '\n',
        i < s.len() ==> s[i] == '\n',
    ensures
        first_newline(s) == i,
    decreases s.len(),
{
    if s.len() == 0 {
    } else if s[0] == '\n' {
        assert(i == 0);
    } else {
        assert(i >= 1);
        assert forall|j: int| 0 <= j < i - 1 implies s.drop_first()[j] != '\n' by {
            assert(s[j + 1] != '\n');
        }
        if i - 1 < s.drop_first().len() {
            assert(s.drop_first()[i - 1] == s[i]);
        }
        lemma_first_newline_is(s.drop_first(), i - 1);
    }
}

/// The lines of `s`, in order: the runs of characters between newlines.
/// A trailing newline does not add an empty final line; carriage returns
/// are ordinary characters and stay in their lines.
pub open spec fn spec_lines(s: Seq<char>) -> Seq<Seq<char>>
    decreases s.len(),
    via spec_lines_decreases
{
    if s.len() == 0 {
        Seq::empty()
    } else {
        let i: int = first_newline(s);
        if i == s.len() {
            seq![s]
        } else {
            seq![s.subrange(0, i)] + spec_lines(s.subrange(i + 1, s.len() as int))
        }
    }
}

#[via_fn]
proof fn spec_lines_decreases(s: Seq<char>) {
    if s.len() != 0 {
        lemma_first_newline_bounds(s);
    }
}

/// The simple, locale-independent lowercase mapping of one character.
pub uninterp spec fn lower_char(c: char) -> char;

/// Relies on char::to_lowercase: the lowercase mapping of a character is
/// locale-independent and depends on that character alone. This takes the
/// first character of the mapping; for every character whose lowercase form
/// is a single character (all ASCII letters among them) that is the whole
/// mapping. Characters whose full lowercase form is longer than one
/// character are a known limitation of this simple folding.
#[verifier::external_body]
pub(crate) fn to_lower_char(c: char) -> (r: char)
    ensures
        r == lower_char(c),
{
    match c.to_lowercase().next() {
        Some(l) => l,
        None => c,
    }
}

/// `s` lowercased one character at a time.
pub open spec fn lower_seq(s: Seq<char>) -> Seq<char> {
    s.map_values(|c: char| lower_char(c))
}

/// Lowercasing acts in place, one character at a time, so a run that
/// matches `needle` keeps matching its lowercased form afterwards.
pub proof fn lemma_lower_preserves_contains(hay: Seq<char>, needle: Seq<char>)
    requires
        contains_seq(hay, needle),
    ensures
        contains_seq(lower_seq(hay), lower_seq(needle)),
{
    let i: int = choose|i: int|
        0 <= i && i + needle.len() <= hay.len() && #[trigger] hay.subrange(i, i + needle.len())
            == needle;
    assert(lower_seq(hay).subrange(i, i + lower_seq(needle).len()) =~= lower_seq(needle)) by {
        assert forall|k: int|
            0 <= k < needle.len() implies lower_seq(hay)[i + k] == lower_seq(needle)[k] by {
            assert(hay.subrange(i, i + needle.len())[k] == hay[i + k]);
        }
    }
}

} // verus!
