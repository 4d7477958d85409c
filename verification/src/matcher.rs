//! The line matcher: `search` and `search_case_insensitive` return the lines
//! of a text that contain a query, in their original order, as slices of the
//! original text.

use vstd::prelude::*;
use vstd::string::StrSliceExecFns;

use crate::text::contains_seq;
use crate::text::lemma_first_newline_is;
use crate::text::lemma_lower_preserves_contains;
use crate::text::lower_seq;
use crate::text::spec_lines;
use crate::text::to_lower_char;

verus! {

/// The lines of `content` that contain `query`, in their original order.
pub open spec fn search_spec(query: Seq<char>, content: Seq<char>) -> Seq<Seq<char>> {
    spec_lines(content).filter(|l: Seq<char>| contains_seq(l, query))
}

/// The lines of `content` whose lowercased form contains the lowercased
/// `query`, in their original order. The lines themselves are kept as they
/// stand in `content`.
pub open spec fn search_ci_spec(query: Seq<char>, content: Seq<char>) -> Seq<Seq<char>> {
    spec_lines(content).filter(|l: Seq<char>| contains_seq(lower_seq(l), lower_seq(query)))
}

/// The characters of `s`, collected into a vector.
fn to_chars(s: &str) -> (v: Vec<char>)
    ensures
        v@ == s@,
{
    let n: usize = s.unicode_len();
    let mut v: Vec<char> = Vec::new();
    let mut i: usize = 0;
    while i < n
        invariant
            n == s@.len(),
            i <= n,
            v@ == s@.subrange(0, i as int),
        decreases n - i,
    {
        let c: char = s.get_char(i);
        v.push(c);
        proof {
            assert(v@ =~= s@.subrange(0, i + 1 as int));
        }
        i = i + 1;
    }
    proof {
        assert(s@.subrange(0, n as int) =~= s@);
    }
    v
}

/// The characters of `s` lowercased one by one, collected into a vector.
fn to_lower_chars(s: &str) -> (v: Vec<char>)
    ensures
        v@ == lower_seq(s@),
{
    let n: usize = s.unicode_len();
    let mut v: Vec<char> = Vec::new();
    let mut i: usize = 0;
    while i < n
        invariant
            n == s@.len(),
            i <= n,
            v@ == lower_seq(s@).subrange(0, i as int),
        decreases n - i,
    {
        let c: char = s.get_char(i);
        let l: char = to_lower_char(c);
        v.push(l);
        proof {
            assert(v@ =~= lower_seq(s@).subrange(0, i + 1 as int));
        }
        i = i + 1;
    }
    proof {
        assert(lower_seq(s@).subrange(0, n as int) =~= lower_seq(s@));
    }
    v
}

/// Splits `contents` into its lines, each a slice of `contents` itself.
fn split_lines<'a>(contents: &'a str) -> (r: Vec<&'a str>)
    ensures
        r.deep_view() == spec_lines(contents@),
{
    let n: usize = contents.unicode_len();
    let mut r: Vec<&'a str> = Vec::new();
    let mut pos: usize = 0;
    proof {
        assert(contents@.skip(0) =~= contents@);
        assert(r.deep_view() + spec_lines(contents@) =~= spec_lines(contents@));
    }
    while pos < n
        invariant
            n == contents@.len(),
            pos <= n,
            r.deep_view() + spec_lines(contents@.skip(pos as int)) == spec_lines(contents@),
        decreases n - pos,
    {
        let ghost whole: Seq<char> = contents@;
        let ghost rest: Seq<char> = contents@.skip(pos as int);
        let ghost done: Seq<Seq<char>> = r.deep_view();
        let mut end: usize = pos;
        while end < n && contents.get_char(end) != '\n'
            invariant
                n == contents@.len(),
                pos <= end <= n,
                forall|k: int| pos <= k < end ==> contents@[k] != '\n',
            decreases n - end,
        {
            end = end + 1;
        }
        proof {
            assert forall|j: int| 0 <= j < end - pos implies rest[j] != '\n' by {
                assert(whole[pos + j] != '\n');
            }
            if end < n {
                assert(rest[end - pos] == whole[end as int]);
            }
            lemma_first_newline_is(rest, end - pos);
        }
        let line: &'a str = contents.substring_char(pos, end);
        r.push(line);
        proof {
            assert(r.deep_view() =~= done.push(line@));
            assert(line@ =~= rest.subrange(0, end - pos));
        }
        if end < n {
            proof {
                let tail: Seq<char> = rest.subrange(end - pos + 1, rest.len() as int);
                assert(tail =~= whole.skip(end + 1));
                assert(spec_lines(rest) == seq![line@] + spec_lines(tail));
                assert(done.push(line@) + spec_lines(whole.skip(end + 1)) =~= done + spec_lines(
                    rest,
                ));
            }
            pos = end + 1;
        } else {
            proof {
                assert(line@ =~= rest);
                assert(spec_lines(rest) == seq![line@]);
                assert(whole.skip(n as int).len() == 0);
                assert(done.push(line@) + spec_lines(whole.skip(n as int)) =~= done + spec_lines(
                    rest,
                ));
            }
            pos = n;
        }
    }
    proof {
        assert(contents@.skip(pos as int).len() == 0);
        assert(r.deep_view() + spec_lines(contents@.skip(pos as int)) =~= r.deep_view());
    }
    r
}

/// Whether `needle` stands in `hay` exactly at offset `i`.
fn match_at(hay: &Vec<char>, needle: &Vec<char>, i: usize) -> (b: bool)
    requires
        i + needle@.len() <= hay@.len(),
    ensures
        b == (hay@.subrange(i as int, i + needle@.len()) == needle@),
{
    let hlen: usize = hay.len();
    let mut j: usize = 0;
    while j < needle.len()
        invariant
            hlen == hay@.len(),
            i + needle@.len() <= hay@.len(),
            j <= needle@.len(),
            forall|y: int| 0 <= y < j ==> hay@[i + y] == needle@[y],
        decreases needle@.len() - j,
    {
        if hay[i + j] != needle[j] {
            proof {
                assert(hay@.subrange(i as int, i + needle@.len())[j as int] == hay@[i + j]);
            }
            return false;
        }
        j = j + 1;
    }
    proof {
        assert(hay@.subrange(i as int, i + needle@.len()) =~= needle@);
    }
    true
}

/// Whether `needle` occurs anywhere in `hay` as a contiguous run.
fn chars_contain(hay: &Vec<char>, needle: &Vec<char>) -> (b: bool)
    ensures
        b == contains_seq(hay@, needle@),
{
    let nlen: usize = needle.len();
    let hlen: usize = hay.len();
    if nlen > hlen {
        return false;
    }
    let mut i: usize = 0;
    loop
        invariant
            nlen == needle@.len(),
            hlen == hay@.len(),
            nlen <= hlen,
            i <= hlen - nlen,
            forall|x: int|
                0 <= x < i ==> #[trigger] hay@.subrange(x, x + needle@.len()) != needle@,
        decreases hlen - nlen - i,
    {
        if match_at(hay, needle, i) {
            return true;
        }
        if i == hlen - nlen {
            proof {
                assert forall|x: int|
                    0 <= x && x + needle@.len() <= hay@.len() implies #[trigger] hay@.subrange(
                    x,
                    x + needle@.len(),
                ) != needle@ by {
                    assert(x <= i);
                }
            }
            return false;
        }
        i = i + 1;
    }
}

/// Appending one element to a sequence extends its filtered form by that
/// element exactly when the element satisfies the predicate.
proof fn lemma_filter_push<A>(s: Seq<A>, x: A, pred: spec_fn(A) -> bool)
    ensures
        s.push(x).filter(pred) == if pred(x) {
            s.filter(pred).push(x)
        } else {
            s.filter(pred)
        },
{
    reveal(Seq::filter);
    assert(s.push(x).drop_last() =~= s);
    assert(s.push(x).last() == x);
}

/// All lines of `contents` that contain `query`, in their original order.
/// Each returned line is a slice of `contents` itself, kept exactly as it
/// stands there; a line that matches twice over is still returned once per
/// occurrence of the line, not per occurrence of the query.
pub fn search<'a>(query: &str, contents: &'a str) -> (r: Vec<&'a str>)
    ensures
        r.deep_view() == search_spec(query@, contents@),
{
    let q: Vec<char> = to_chars(query);
    let lines: Vec<&'a str> = split_lines(contents);
    let mut r: Vec<&'a str> = Vec::new();
    let mut i: usize = 0;
    proof {
        reveal(Seq::filter);
        assert(spec_lines(contents@).take(0) =~= Seq::<Seq<char>>::empty());
    }
    while i < lines.len()
        invariant
            q@ == query@,
            lines.deep_view() == spec_lines(contents@),
            i <= lines@.len(),
            r.deep_view() == spec_lines(contents@).take(i as int).filter(
                |l: Seq<char>| contains_seq(l, query@),
            ),
        decreases lines@.len() - i,
    {
        let ghost pred = |l: Seq<char>| contains_seq(l, query@);
        let ghost all: Seq<Seq<char>> = spec_lines(contents@);
        let ghost done: Seq<Seq<char>> = r.deep_view();
        let line: &'a str = lines[i];
        proof {
            assert(line@ == all[i as int]);
            assert(all.take(i + 1 as int) =~= all.take(i as int).push(line@));
            lemma_filter_push(all.take(i as int), line@, pred);
        }
        let h: Vec<char> = to_chars(line);
        if chars_contain(&h, &q) {
            r.push(line);
            proof {
                assert(r.deep_view() =~= done.push(line@));
            }
        }
        i = i + 1;
    }
    proof {
        assert(spec_lines(contents@).take(lines@.len() as int) =~= spec_lines(contents@));
    }
    r
}

/// All lines of `contents` whose lowercased form contains the lowercased
/// `query`, in their original order. The query is lowercased once; each
/// line is lowercased for the comparison only, and the returned lines keep
/// their original casing: each is a slice of `contents` itself.
pub fn search_case_insensitive<'a>(query: &str, contents: &'a str) -> (r: Vec<&'a str>)
    ensures
        r.deep_view() == search_ci_spec(query@, contents@),
{
    let q: Vec<char> = to_lower_chars(query);
    let lines: Vec<&'a str> = split_lines(contents);
    let mut r: Vec<&'a str> = Vec::new();
    let mut i: usize = 0;
    proof {
        reveal(Seq::filter);
        assert(spec_lines(contents@).take(0) =~= Seq::<Seq<char>>::empty());
    }
    while i < lines.len()
        invariant
            q@ == lower_seq(query@),
            lines.deep_view() == spec_lines(contents@),
            i <= lines@.len(),
            r.deep_view() == spec_lines(contents@).take(i as int).filter(
                |l: Seq<char>| contains_seq(lower_seq(l), lower_seq(query@)),
            ),
        decreases lines@.len() - i,
    {
        let ghost pred = |l: Seq<char>| contains_seq(lower_seq(l), lower_seq(query@));
        let ghost all: Seq<Seq<char>> = spec_lines(contents@);
        let ghost done: Seq<Seq<char>> = r.deep_view();
        let line: &'a str = lines[i];
        proof {
            assert(line@ == all[i as int]);
            assert(all.take(i + 1 as int) =~= all.take(i as int).push(line@));
            lemma_filter_push(all.take(i as int), line@, pred);
        }
        let h: Vec<char> = to_lower_chars(line);
        if chars_contain(&h, &q) {
            r.push(line);
            proof {
                assert(r.deep_view() =~= done.push(line@));
            }
        }
        i = i + 1;
    }
    proof {
        assert(spec_lines(contents@).take(lines@.len() as int) =~= spec_lines(contents@));
    }
    r
}

/// Every element of a filtered sequence is an element of the original.
proof fn lemma_filter_subset<A>(s: Seq<A>, pred: spec_fn(A) -> bool)
    ensures
        forall|i: int|
            0 <= i < s.filter(pred).len() ==> s.contains(#[trigger] s.filter(pred)[i]),
    decreases s.len(),
{
    reveal(Seq::filter);
    if s.len() == 0 {
    } else {
        lemma_filter_subset(s.drop_last(), pred);
        assert forall|i: int|
            0 <= i < s.filter(pred).len() implies s.contains(s.filter(pred)[i]) by {
            let f = s.filter(pred);
            let fd = s.drop_last().filter(pred);
            if i < fd.len() {
                assert(s.drop_last().contains(fd[i]));
                let k = choose|k: int| 0 <= k < s.drop_last().len() && s.drop_last()[k] == fd[i];
                assert(s[k] == fd[i]);
                assert(f[i] == fd[i]);
            } else {
                assert(f[i] == s.last());
                assert(s[s.len() - 1] == s.last());
            }
        }
    }
}

/// What `search` returns, in full: every reported line contains the query;
/// every reported line is a line of the content, kept as it stands there;
/// every line of the content that contains the query is reported; and the
/// matches among the first `j` lines always form a prefix of the whole
/// result, so the content's line order is kept.
pub proof fn lemma_search_characterization(query: Seq<char>, content: Seq<char>)
    ensures
        forall|i: int|
            0 <= i < search_spec(query, content).len() ==> contains_seq(
                #[trigger] search_spec(query, content)[i],
                query,
            ),
        forall|i: int|
            0 <= i < search_spec(query, content).len() ==> spec_lines(content).contains(
                #[trigger] search_spec(query, content)[i],
            ),
        forall|j: int|
            0 <= j < spec_lines(content).len() && contains_seq(
                #[trigger] spec_lines(content)[j],
                query,
            ) ==> search_spec(query, content).contains(spec_lines(content)[j]),
        forall|j: int|
            0 <= j <= spec_lines(content).len() ==> (#[trigger] spec_lines(content).take(
                j,
            )).filter(|l: Seq<char>| contains_seq(l, query)).is_prefix_of(
                search_spec(query, content),
            ),
{
    broadcast use vstd::seq_lib::group_filter_ensures;

    let pred = |l: Seq<char>| contains_seq(l, query);
    lemma_filter_subset(spec_lines(content), pred);
    assert forall|j: int|
        0 <= j <= spec_lines(content).len() implies (#[trigger] spec_lines(content).take(
        j,
    )).filter(pred).is_prefix_of(search_spec(query, content)) by {
        assert(spec_lines(content).take(j).is_prefix_of(spec_lines(content)));
        spec_lines(content).take(j).lemma_filter_monotone(spec_lines(content), pred);
    }
}

/// Case-insensitive search accepts every line that the exact search
/// accepts, whatever the query's casing — in particular for a query that
/// is already lowercase — and its reported lines too are lines of the
/// content, kept in their original casing.
pub proof fn lemma_case_insensitive_superset(query: Seq<char>, content: Seq<char>)
    ensures
        forall|x: Seq<char>|
            search_spec(query, content).contains(x) ==> search_ci_spec(query, content).contains(
                x,
            ),
        forall|i: int|
            0 <= i < search_ci_spec(query, content).len() ==> spec_lines(content).contains(
                #[trigger] search_ci_spec(query, content)[i],
            ),
{
    broadcast use vstd::seq_lib::group_filter_ensures;

    let pred = |l: Seq<char>| contains_seq(l, query);
    let pred_ci = |l: Seq<char>| contains_seq(lower_seq(l), lower_seq(query));
    lemma_filter_subset(spec_lines(content), pred);
    lemma_filter_subset(spec_lines(content), pred_ci);
    assert forall|x: Seq<char>|
        search_spec(query, content).contains(x) implies search_ci_spec(query, content).contains(
        x,
    ) by {
        let i = choose|i: int|
            0 <= i < search_spec(query, content).len() && search_spec(query, content)[i] == x;
        assert(pred(x));
        assert(spec_lines(content).contains(x));
        let j = choose|j: int|
            0 <= j < spec_lines(content).len() && spec_lines(content)[j] == x;
        lemma_lower_preserves_contains(x, query);
        assert(pred_ci(spec_lines(content)[j]));
    }
}

/// The empty query matches every line: searching for it returns all lines
/// of the content.
pub proof fn lemma_empty_query_matches_all(content: Seq<char>)
    ensures
        search_spec(Seq::empty(), content) == spec_lines(content),
{
    reveal(Seq::filter);
    let pred = |l: Seq<char>| contains_seq(l, Seq::<char>::empty());
    assert forall|i: int|
        0 <= i < spec_lines(content).len() implies pred(#[trigger] spec_lines(content)[i]) by {
        crate::text::lemma_contains_empty(spec_lines(content)[i]);
    }
    lemma_filter_all_true(spec_lines(content), pred);
}

/// A filter whose predicate holds of every element returns the sequence
/// unchanged.
proof fn lemma_filter_all_true<A>(s: Seq<A>, pred: spec_fn(A) -> bool)
    requires
        forall|i: int| 0 <= i < s.len() ==> pred(#[trigger] s[i]),
    ensures
        s.filter(pred) == s,
    decreases s.len(),
{
    reveal(Seq::filter);
    if s.len() == 0 {
    } else {
        lemma_filter_all_true(s.drop_last(), pred);
        assert(s[s.len() - 1] == s.last());
        assert(s.drop_last().push(s.last()) =~= s);
    }
}

/// Empty content yields an empty result, whatever the query and whichever
/// the comparison mode.
pub proof fn lemma_empty_content(query: Seq<char>)
    ensures
        search_spec(query, Seq::empty()) == Seq::<Seq<char>>::empty(),
        search_ci_spec(query, Seq::empty()) == Seq::<Seq<char>>::empty(),
{
    reveal(Seq::filter);
    assert(spec_lines(Seq::empty()) == Seq::<Seq<char>>::empty());
}

} // verus!
