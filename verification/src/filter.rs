//! The line filter: splitting a text into lines and keeping the lines that
//! contain a query string.

use vstd::prelude::*;

verus! {

/// `needle` occurs in `hay` as a contiguous run of characters starting at `i`.
pub open spec fn matches_at(hay: Seq<char>, needle: Seq<char>, i: int) -> bool {
    0 <= i && i + needle.len() <= hay.len() && hay.subrange(i, i + needle.len()) == needle
}

/// `needle` occurs somewhere in `hay` as a contiguous run of characters.
pub open spec fn has_substring(hay: Seq<char>, needle: Seq<char>) -> bool {
    exists|i: int| matches_at(hay, needle, i)
}

/// Character-by-character equality of two string slices.
pub(crate) fn str_eq(a: &str, b: &str) -> (r: bool)
    ensures
        r == (a@ == b@),
{
    let an: usize = a.unicode_len();
    let bn: usize = b.unicode_len();
    if an != bn {
        return false;
    }
    let mut i: usize = 0;
    while i < an
        invariant
            i <= an,
            an == a@.len(),
            bn == b@.len(),
            an == bn,
            forall|k: int| 0 <= k < i ==> a@[k] == b@[k],
        decreases an - i,
    {
        if a.get_char(i) != b.get_char(i) {
            return false;
        }
        i += 1;
    }
    proof {
        assert(a@ =~= b@);
    }
    true
}

/// Whether `needle` occurs in `hay` starting at character index `i`.
fn match_at(hay: &str, needle: &str, i: usize) -> (r: bool)
    requires
        i + needle@.len() <= hay@.len(),
    ensures
        r == matches_at(hay@, needle@, i as int),
{
    let nn: usize = needle.unicode_len();
    let hn: usize = hay.unicode_len();
    let mut j: usize = 0;
    while j < nn
        invariant
            j <= nn,
            nn == needle@.len(),
            hn == hay@.len(),
            i + nn <= hn,
            forall|k: int| 0 <= k < j ==> hay@[i as int + k] == needle@[k],
        decreases nn - j,
    {
        if hay.get_char(i + j) != needle.get_char(j) {
            proof {
                assert(!matches_at(hay@, needle@, i as int)) by {
                    if hay@.subrange(i as int, i as int + needle@.len()) == needle@ {
                        assert(hay@.subrange(i as int, i as int + needle@.len())[j as int]
                            == needle@[j as int]);
                    }
                }
            }
            return false;
        }
        j += 1;
    }
    proof {
        assert(hay@.subrange(i as int, i as int + needle@.len()) =~= needle@);
    }
    true
}

/// The lines of `s`, split at `'\n'`: every separator ends a line, a trailing
/// run of characters without a separator is still a line, and an empty text
/// has no lines at all.
pub open spec fn line_seq(s: Seq<char>) -> Seq<Seq<char>>
    decreases s.len(),
{
    if s.len() == 0 {
        Seq::empty()
    } else if s[0] == '\n' {
        seq![Seq::<char>::empty()] + line_seq(s.subrange(1, s.len() as int))
    } else {
        let rest = line_seq(s.subrange(1, s.len() as int));
        if rest.len() == 0 {
            seq![seq![s[0]]]
        } else {
            seq![seq![s[0]] + rest[0]] + rest.subrange(1, rest.len() as int)
        }
    }
}

/// Splitting starts with the first complete line: a separator-free prefix
/// before a `'\n'` is one line, and the rest of the text supplies the rest of
/// the lines.
proof fn lemma_line_seq_terminated(p: Seq<char>, rest: Seq<char>)
    requires
        forall|k: int| 0 <= k < p.len() ==> p[k] != '\n',
    ensures
        line_seq(p + seq!['\n'] + rest) == seq![p] + line_seq(rest),
    decreases p.len(),
{
    let s = p + seq!['\n'] + rest;
    if p.len() == 0 {
        assert(s =~= seq!['\n'] + rest);
        assert(s.subrange(1, s.len() as int) =~= rest);
        assert(p =~= Seq::<char>::empty());
    } else {
        let p1 = p.subrange(1, p.len() as int);
        lemma_line_seq_terminated(p1, rest);
        assert(s.subrange(1, s.len() as int) =~= p1 + seq!['\n'] + rest);
        let inner = line_seq(p1 + seq!['\n'] + rest);
        assert(inner == seq![p1] + line_seq(rest));
        assert(inner.len() > 0);
        assert(seq![s[0]] + inner[0] =~= p);
        assert(inner.subrange(1, inner.len() as int) =~= line_seq(rest));
        assert(line_seq(s) =~= seq![p] + line_seq(rest));
    }
}

/// A non-empty text without any separator is a single line.
proof fn lemma_line_seq_unterminated(p: Seq<char>)
    requires
        p.len() > 0,
        forall|k: int| 0 <= k < p.len() ==> p[k] != '\n',
    ensures
        line_seq(p) == seq![p],
    decreases p.len(),
{
    let p1 = p.subrange(1, p.len() as int);
    if p1.len() == 0 {
        reveal_with_fuel(line_seq, 2);
        assert(p =~= seq![p[0]]);
    } else {
        lemma_line_seq_unterminated(p1);
        assert(seq![p[0]] + p1 =~= p);
        assert(line_seq(p1).subrange(1, 1) =~= Seq::<Seq<char>>::empty());
        assert(line_seq(p) =~= seq![p]);
    }
}

/// Splits a text into its lines, as borrowed slices of the original text.
fn split_lines<'a>(contents: &'a str) -> (r: Vec<&'a str>)
    ensures
        r@.map_values(|l: &str| l@) == line_seq(contents@),
{
    let n: usize = contents.unicode_len();
    let mut out: Vec<&'a str> = Vec::new();
    let mut start: usize = 0;
    let mut i: usize = 0;
    proof {
        assert(contents@.subrange(0, n as int) =~= contents@);
        assert(out@.map_values(|l: &str| l@) + line_seq(contents@) =~= line_seq(contents@));
    }
    while i < n
        invariant
            start <= i <= n,
            n == contents@.len(),
            forall|k: int| start <= k < i ==> contents@[k] != '\n',
            out@.map_values(|l: &str| l@) + line_seq(
                contents@.subrange(start as int, n as int),
            ) == line_seq(contents@),
        decreases n - i,
    {
        if contents.get_char(i) == '\n' {
            let line: &'a str = contents.substring_char(start, i);
            proof {
                let prefix = contents@.subrange(start as int, i as int);
                let rest = contents@.subrange(i as int + 1, n as int);
                assert(contents@.subrange(start as int, n as int) =~= prefix + seq!['\n']
                    + rest);
                lemma_line_seq_terminated(prefix, rest);
                assert(out@.push(line).map_values(|l: &str| l@) + line_seq(rest) =~= out@
                    .map_values(|l: &str| l@) + (seq![prefix] + line_seq(rest)));
            }
            out.push(line);
            start = i + 1;
        }
        i += 1;
    }
    if start < n {
        let line: &'a str = contents.substring_char(start, n);
        proof {
            let prefix = contents@.subrange(start as int, n as int);
            lemma_line_seq_unterminated(prefix);
            assert(out@.push(line).map_values(|l: &str| l@) =~= out@.map_values(|l: &str| l@)
                + seq![prefix]);
        }
        out.push(line);
    } else {
        proof {
            assert(contents@.subrange(start as int, n as int) =~= Seq::<char>::empty());
            assert(out@.map_values(|l: &str| l@) + line_seq(Seq::<char>::empty()) =~= out@
                .map_values(|l: &str| l@));
        }
    }
    out
}

/// Whether `needle` occurs anywhere in `hay`, by a linear scan of the
/// candidate start positions.
fn contains_str(hay: &str, needle: &str) -> (r: bool)
    ensures
        r == has_substring(hay@, needle@),
{
    let hn: usize = hay.unicode_len();
    let nn: usize = needle.unicode_len();
    if nn > hn {
        proof {
            assert(forall|k: int| !matches_at(hay@, needle@, k));
        }
        return false;
    }
    if nn == 0 {
        proof {
            assert(hay@.subrange(0, 0) =~= needle@);
            assert(matches_at(hay@, needle@, 0));
        }
        return true;
    }
    let mut i: usize = 0;
    while i <= hn - nn
        invariant
            hn == hay@.len(),
            nn == needle@.len(),
            0 < nn <= hn,
            i <= hn - nn + 1,
            forall|k: int| 0 <= k < i ==> !matches_at(hay@, needle@, k),
        decreases hn - nn - i + 1,
    {
        if match_at(hay, needle, i) {
            return true;
        }
        i += 1;
    }
    proof {
        assert(forall|k: int| !matches_at(hay@, needle@, k)) by {
            assert(forall|k: int| k > hn - nn ==> !matches_at(hay@, needle@, k));
        }
    }
    false
}

/// The lowercase equivalent of `s`; what `str::to_lowercase` returns, a
/// function of the characters of `s` alone.
pub uninterp spec fn lower_of(s: Seq<char>) -> Seq<char>;

/// Relies on str::to_lowercase: the returned string is the lowercase
/// equivalent of `s`, determined by the characters of `s` alone.
#[verifier::external_body]
fn lowercase(s: &str) -> (r: String)
    ensures
        r@ == lower_of(s@),
{
    s.to_lowercase()
}

/// The lines among `lines` that contain `query`, in order, duplicates kept.
pub open spec fn matching(lines: Seq<Seq<char>>, query: Seq<char>) -> Seq<Seq<char>>
    decreases lines.len(),
{
    if lines.len() == 0 {
        Seq::empty()
    } else {
        let rest = matching(lines.drop_last(), query);
        if has_substring(lines.last(), query) {
            rest.push(lines.last())
        } else {
            rest
        }
    }
}

/// The lines among `lines` whose lowercase form contains `query_lower`, in
/// order, duplicates kept; the lines keep their original case.
pub open spec fn matching_ci(lines: Seq<Seq<char>>, query_lower: Seq<char>) -> Seq<Seq<char>>
    decreases lines.len(),
{
    if lines.len() == 0 {
        Seq::empty()
    } else {
        let rest = matching_ci(lines.drop_last(), query_lower);
        if has_substring(lower_of(lines.last()), query_lower) {
            rest.push(lines.last())
        } else {
            rest
        }
    }
}

/// What `search` returns: the lines of `contents` that contain `query`, in
/// their original order.
pub open spec fn search_spec(query: Seq<char>, contents: Seq<char>) -> Seq<Seq<char>> {
    matching(line_seq(contents), query)
}

/// What `search_case_insensitive` returns: the lines of `contents` whose
/// lowercase form contains the lowercase form of `query`, in their original
/// order and with their original case.
pub open spec fn search_ci_spec(query: Seq<char>, contents: Seq<char>) -> Seq<Seq<char>> {
    matching_ci(line_seq(contents), lower_of(query))
}

proof fn lemma_matching_characterizes(lines: Seq<Seq<char>>, query: Seq<char>)
    ensures
        forall|j: int| 0 <= j < matching(lines, query).len() ==> has_substring(
            #[trigger] matching(lines, query)[j],
            query,
        ) && lines.contains(matching(lines, query)[j]),
        forall|i: int|
            0 <= i < lines.len() && has_substring(#[trigger] lines[i], query) ==> matching(
                lines,
                query,
            ).contains(lines[i]),
    decreases lines.len(),
{
    if lines.len() > 0 {
        let prefix = lines.drop_last();
        lemma_matching_characterizes(prefix, query);
        let rest = matching(prefix, query);
        assert(forall|k: int| 0 <= k < prefix.len() ==> prefix[k] == lines[k]);
        assert forall|j: int| 0 <= j < matching(lines, query).len() implies has_substring(
            #[trigger] matching(lines, query)[j],
            query,
        ) && lines.contains(matching(lines, query)[j]) by {
            if j < rest.len() {
                assert(matching(lines, query)[j] == rest[j]);
                let w = choose|w: int| 0 <= w < prefix.len() && prefix[w] == rest[j];
                assert(lines[w] == rest[j]);
            } else {
                assert(matching(lines, query)[j] == lines.last());
                assert(lines[lines.len() - 1] == lines.last());
            }
        }
        assert forall|i: int|
            0 <= i < lines.len() && has_substring(#[trigger] lines[i], query) implies matching(
            lines,
            query,
        ).contains(lines[i]) by {
            if i < lines.len() - 1 {
                assert(prefix[i] == lines[i]);
                let w = choose|w: int| 0 <= w < rest.len() && rest[w] == lines[i];
                assert(matching(lines, query)[w] == lines[i]);
            } else {
                assert(matching(lines, query) == rest.push(lines.last()));
                assert(matching(lines, query)[rest.len() as int] == lines[i]);
            }
        }
    }
}

/// What `search` keeps is sound and complete: every returned line contains
/// the query and is a line of the input, and every line of the input that
/// contains the query is returned. Order and multiplicity are fixed by the
/// definition of `search_spec`, which keeps the matching lines of `line_seq`
/// in place.
pub proof fn lemma_search_characterizes(query: Seq<char>, contents: Seq<char>)
    ensures
        forall|j: int| 0 <= j < search_spec(query, contents).len() ==> has_substring(
            #[trigger] search_spec(query, contents)[j],
            query,
        ) && line_seq(contents).contains(search_spec(query, contents)[j]),
        forall|i: int|
            0 <= i < line_seq(contents).len() && has_substring(
                #[trigger] line_seq(contents)[i],
                query,
            ) ==> search_spec(query, contents).contains(line_seq(contents)[i]),
{
    lemma_matching_characterizes(line_seq(contents), query);
}

proof fn lemma_matching_superset(lines: Seq<Seq<char>>, query: Seq<char>)
    requires
        forall|i: int|
            0 <= i < lines.len() && has_substring(#[trigger] lines[i], query) ==> has_substring(
                lower_of(lines[i]),
                lower_of(query),
            ),
    ensures
        forall|x: Seq<char>| #[trigger] matching(lines, query).contains(x) ==> matching_ci(
            lines,
            lower_of(query),
        ).contains(x),
    decreases lines.len(),
{
    if lines.len() > 0 {
        let prefix = lines.drop_last();
        assert(forall|k: int| 0 <= k < prefix.len() ==> prefix[k] == lines[k]);
        lemma_matching_superset(prefix, query);
        let rest_ci = matching_ci(prefix, lower_of(query));
        assert forall|x: Seq<char>| #[trigger] matching(lines, query).contains(x) implies
        matching_ci(lines, lower_of(query)).contains(x) by {
            let j = choose|j: int|
                0 <= j < matching(lines, query).len() && matching(lines, query)[j] == x;
            let kept = has_substring(lines.last(), query);
            if kept && j == matching(lines, query).len() - 1 {
                assert(x == lines.last());
                assert(lines[lines.len() - 1] == lines.last());
                assert(has_substring(lower_of(lines.last()), lower_of(query)));
                assert(matching_ci(lines, lower_of(query))[matching_ci(
                    lines,
                    lower_of(query),
                ).len() - 1] == x);
            } else {
                assert(matching(prefix, query)[j] == x);
                assert(matching(prefix, query).contains(x));
                let w = choose|w: int| 0 <= w < rest_ci.len() && rest_ci[w] == x;
                assert(matching_ci(lines, lower_of(query))[w] == x);
            }
        }
    }
}

/// Case-insensitive search keeps every line that case-sensitive search keeps,
/// whenever lowercasing both sides preserves containment for the lines at
/// hand. That hypothesis holds of simple per-character case folding, though
/// not of every Unicode text: full case folding lowers a final capital sigma
/// differently inside and outside a longer word, which can break it.
pub proof fn lemma_case_insensitive_superset(query: Seq<char>, contents: Seq<char>)
    requires
        forall|i: int|
            0 <= i < line_seq(contents).len() && has_substring(
                #[trigger] line_seq(contents)[i],
                query,
            ) ==> has_substring(lower_of(line_seq(contents)[i]), lower_of(query)),
    ensures
        forall|x: Seq<char>| #[trigger] search_spec(query, contents).contains(x) ==> search_ci_spec(
            query,
            contents,
        ).contains(x),
{
    lemma_matching_superset(line_seq(contents), query);
}

proof fn lemma_matching_all(lines: Seq<Seq<char>>, query: Seq<char>)
    requires
        forall|i: int| 0 <= i < lines.len() ==> has_substring(#[trigger] lines[i], query),
    ensures
        matching(lines, query) == lines,
    decreases lines.len(),
{
    if lines.len() > 0 {
        let prefix = lines.drop_last();
        assert(forall|k: int| 0 <= k < prefix.len() ==> prefix[k] == lines[k]);
        lemma_matching_all(prefix, query);
        assert(lines[lines.len() - 1] == lines.last());
        assert(prefix.push(lines.last()) =~= lines);
    }
}

/// An empty query matches every line: `search` with an empty query returns
/// every line of `contents`, unchanged and in order.
pub proof fn lemma_empty_query_keeps_all(contents: Seq<char>)
    ensures
        search_spec(Seq::<char>::empty(), contents) == line_seq(contents),
{
    assert forall|i: int| 0 <= i < line_seq(contents).len() implies has_substring(
        #[trigger] line_seq(contents)[i],
        Seq::<char>::empty(),
    ) by {
        let l = line_seq(contents)[i];
        assert(l.subrange(0, 0) =~= Seq::<char>::empty());
        assert(matches_at(l, Seq::<char>::empty(), 0));
    }
    lemma_matching_all(line_seq(contents), Seq::<char>::empty());
}

/// Returns every line of `contents` that contains `query` as a contiguous
/// substring, in the original order, duplicates kept.
pub fn search<'a>(query: &str, contents: &'a str) -> (r: Vec<&'a str>)
    ensures
        r@.map_values(|l: &str| l@) == search_spec(query@, contents@),
{
    let lines = split_lines(contents);
    let n: usize = lines.len();
    let mut out: Vec<&'a str> = Vec::new();
    let mut i: usize = 0;
    proof {
        assert(line_seq(contents@).take(0) =~= Seq::<Seq<char>>::empty());
        assert(out@.map_values(|l: &str| l@) =~= Seq::<Seq<char>>::empty());
    }
    while i < n
        invariant
            i <= n,
            n == lines@.len(),
            lines@.map_values(|l: &str| l@) == line_seq(contents@),
            out@.map_values(|l: &str| l@) == matching(line_seq(contents@).take(i as int), query@),
        decreases n - i,
    {
        let line: &'a str = lines[i];
        proof {
            let lv = line_seq(contents@);
            assert(line@ == lv[i as int]);
            assert(lv.take(i as int + 1).drop_last() =~= lv.take(i as int));
            assert(lv.take(i as int + 1).last() == lv[i as int]);
        }
        if contains_str(line, query) {
            proof {
                assert(out@.push(line).map_values(|l: &str| l@) =~= out@.map_values(
                    |l: &str| l@,
                ).push(line@));
            }
            out.push(line);
        }
        i += 1;
    }
    proof {
        assert(line_seq(contents@).take(n as int) =~= line_seq(contents@));
    }
    out
}

/// Returns every line of `contents` whose lowercase form contains the
/// lowercase form of `query`; the returned lines keep their original case.
pub fn search_case_insensitive<'a>(query: &str, contents: &'a str) -> (r: Vec<&'a str>)
    ensures
        r@.map_values(|l: &str| l@) == search_ci_spec(query@, contents@),
{
    let query_lower = lowercase(query);
    let lines = split_lines(contents);
    let n: usize = lines.len();
    let mut out: Vec<&'a str> = Vec::new();
    let mut i: usize = 0;
    proof {
        assert(line_seq(contents@).take(0) =~= Seq::<Seq<char>>::empty());
        assert(out@.map_values(|l: &str| l@) =~= Seq::<Seq<char>>::empty());
    }
    while i < n
        invariant
            i <= n,
            n == lines@.len(),
            query_lower@ == lower_of(query@),
            lines@.map_values(|l: &str| l@) == line_seq(contents@),
            out@.map_values(|l: &str| l@) == matching_ci(
                line_seq(contents@).take(i as int),
                lower_of(query@),
            ),
        decreases n - i,
    {
        let line: &'a str = lines[i];
        let line_lower = lowercase(line);
        proof {
            let lv = line_seq(contents@);
            assert(line@ == lv[i as int]);
            assert(lv.take(i as int + 1).drop_last() =~= lv.take(i as int));
            assert(lv.take(i as int + 1).last() == lv[i as int]);
        }
        if contains_str(line_lower.as_str(), query_lower.as_str()) {
            proof {
                assert(out@.push(line).map_values(|l: &str| l@) =~= out@.map_values(
                    |l: &str| l@,
                ).push(line@));
            }
            out.push(line);
        }
        i += 1;
    }
    proof {
        assert(line_seq(contents@).take(n as int) =~= line_seq(contents@));
    }
    out
}

} // verus!
