//! Splitting a comma-separated list in which commas inside braces do not
//! separate: `"a,{b,c},d"` is `["a", "{b,c}", "d"]`.

use vstd::prelude::*;
use crate::text::{chars_of, is_white_space, lemma_trim_idempotent, lemma_trim_is_substring, string_of, string_views, trim, trim_chars, trim_end, trim_start};

verus! {

/// The brace depth after reading `t`: the number of `{` minus the number of `}`.
pub open spec fn brace_depth(t: Seq<char>) -> int
    decreases t.len(),
{
    if t.len() == 0 {
        0
    } else {
        brace_depth(t.drop_last()) + if t.last() == '{' {
            1int
        } else if t.last() == '}' {
            -1int
        } else {
            0int
        }
    }
}

/// The number of times `c` occurs in `t`.
pub open spec fn occurrences(t: Seq<char>, c: char) -> nat {
    t.filter(|x: char| x == c).len()
}

/// Brace depth counts braces, however they nest: after reading `t` it is the
/// number of `{` in `t` less the number of `}`.
pub proof fn lemma_brace_depth_counts(t: Seq<char>)
    ensures
        brace_depth(t) == occurrences(t, '{') - occurrences(t, '}'),
    decreases t.len(),
{
    reveal(Seq::filter);
    if t.len() > 0 {
        lemma_brace_depth_counts(t.drop_last());
    }
}

/// A comma separates items exactly when as many `{` as `}` stand before it.
pub proof fn lemma_separator_iff_balanced(s: Seq<char>, i: int)
    requires
        0 <= i < s.len(),
    ensures
        is_top_level_comma(s, i) <==> (s[i] == ',' && occurrences(s.take(i), '{') == occurrences(
            s.take(i),
            '}',
        )),
{
    lemma_brace_depth_counts(s.take(i));
}

/// Whether position `i` of `s` holds a comma outside all braces.
pub open spec fn is_top_level_comma(s: Seq<char>, i: int) -> bool {
    s[i] == ',' && brace_depth(s.take(i)) == 0
}

/// The pieces of `s` between its top-level commas, empty pieces included.
pub open spec fn top_level_pieces(s: Seq<char>) -> Seq<Seq<char>>
    decreases s.len(),
{
    if s.len() == 0 {
        seq![Seq::<char>::empty()]
    } else if is_top_level_comma(s, s.len() - 1) {
        top_level_pieces(s.drop_last()).push(Seq::<char>::empty())
    } else {
        let r = top_level_pieces(s.drop_last());
        r.update(r.len() - 1, r.last().push(s.last()))
    }
}

/// The non-empty pieces of `pieces`, each trimmed of surrounding whitespace.
pub open spec fn trimmed_nonempty(pieces: Seq<Seq<char>>) -> Seq<Seq<char>>
    decreases pieces.len(),
{
    if pieces.len() == 0 {
        Seq::empty()
    } else if pieces.last().len() > 0 {
        trimmed_nonempty(pieces.drop_last()).push(trim(pieces.last()))
    } else {
        trimmed_nonempty(pieces.drop_last())
    }
}

/// `s` split at its top-level commas, with empty pieces dropped and every other
/// piece trimmed of surrounding whitespace (a piece of whitespace alone stays, as
/// an empty string).
pub open spec fn split_respecting_braces(s: Seq<char>) -> Seq<Seq<char>> {
    trimmed_nonempty(top_level_pieces(s))
}

proof fn lemma_pieces_nonempty(s: Seq<char>)
    ensures
        top_level_pieces(s).len() >= 1,
    decreases s.len(),
{
    if s.len() > 0 {
        lemma_pieces_nonempty(s.drop_last());
    }
}

/// The comma-separated items of `input_string`, split only at commas outside
/// braces; nothing for `None`.
pub fn split_string_respect_braces(input_string: Option<String>) -> (result: Vec<String>)
    ensures
        string_views(result@) == match input_string {
            None => Seq::<Seq<char>>::empty(),
            Some(s) => split_respecting_braces(s@),
        },
{
    match input_string {
        None => {
            let result: Vec<String> = Vec::new();
            assert(string_views(result@) =~= Seq::<Seq<char>>::empty());
            result
        },
        Some(string) => {
            let s = chars_of(string.as_str());
            let n = s.len();
            let mut result: Vec<String> = Vec::new();
            let mut current: Vec<char> = Vec::new();
            let mut brace_count: i128 = 0;
            let mut i: usize = 0;
            assert(s@.take(0) =~= Seq::<char>::empty());
            assert(top_level_pieces(s@.take(0)).drop_last() =~= Seq::<Seq<char>>::empty());
            assert(string_views(result@) =~= Seq::<Seq<char>>::empty());
            while i < n
                invariant
                    n == s.len(),
                    i <= n,
                    -(i as int) <= brace_count <= i as int,
                    brace_count == brace_depth(s@.take(i as int)),
                    top_level_pieces(s@.take(i as int)).len() >= 1,
                    string_views(result@) == trimmed_nonempty(
                        top_level_pieces(s@.take(i as int)).drop_last(),
                    ),
                    current@ == top_level_pieces(s@.take(i as int)).last(),
                decreases n - i,
            {
                let character = s[i];
                let ghost t = s@.take(i + 1);
                let ghost prev = top_level_pieces(s@.take(i as int));
                assert(t.drop_last() == s@.take(i as int));
                assert(t.last() == character);
                assert(t.take(i as int) == s@.take(i as int));
                assert(prev.drop_last().push(prev.last()) == prev);
                if character == '{' {
                    brace_count = brace_count + 1;
                    current.push(character);
                    let ghost next = prev.update(prev.len() - 1, prev.last().push(character));
                    assert(top_level_pieces(t) == next);
                    assert(next.drop_last() =~= prev.drop_last());
                } else if character == '}' {
                    brace_count = brace_count - 1;
                    current.push(character);
                    let ghost next = prev.update(prev.len() - 1, prev.last().push(character));
                    assert(top_level_pieces(t) == next);
                    assert(next.drop_last() =~= prev.drop_last());
                } else if character == ',' && brace_count == 0 {
                    assert(top_level_pieces(t) == prev.push(Seq::<char>::empty()));
                    assert(prev.push(Seq::<char>::empty()).drop_last() == prev);
                    if current.len() > 0 {
                        let trimmed = trim_chars(&current);
                        let ghost before = result@;
                        result.push(string_of(&trimmed));
                        assert(string_views(result@) =~= string_views(before).push(trim(prev.last())));
                        current = Vec::new();
                    }
                    assert(current@ =~= Seq::<char>::empty());
                } else {
                    current.push(character);
                    let ghost next = prev.update(prev.len() - 1, prev.last().push(character));
                    assert(top_level_pieces(t) == next);
                    assert(next.drop_last() =~= prev.drop_last());
                }
                i = i + 1;
            }
            assert(s@.take(n as int) == s@);
            let ghost pieces = top_level_pieces(s@);
            assert(pieces.drop_last().push(pieces.last()) == pieces);
            if current.len() > 0 {
                let trimmed = trim_chars(&current);
                let ghost before = result@;
                result.push(string_of(&trimmed));
                assert(string_views(result@) =~= string_views(before).push(trim(pieces.last())));
            }
            result
        },
    }
}

/// The pieces of `ps` joined with commas between them.
pub open spec fn join_with_commas(ps: Seq<Seq<char>>) -> Seq<char>
    decreases ps.len(),
{
    if ps.len() == 0 {
        Seq::empty()
    } else if ps.len() == 1 {
        ps[0]
    } else {
        join_with_commas(ps.drop_last()) + seq![','] + ps.last()
    }
}

proof fn lemma_join_extend_last(ps: Seq<Seq<char>>, c: char)
    requires
        ps.len() >= 1,
    ensures
        join_with_commas(ps.update(ps.len() - 1, ps.last().push(c))) == join_with_commas(
            ps,
        ).push(c),
{
    let qs = ps.update(ps.len() - 1, ps.last().push(c));
    if ps.len() == 1 {
        assert(qs[0] == ps[0].push(c));
    } else {
        assert(qs.drop_last() =~= ps.drop_last());
        assert(qs.last() == ps.last().push(c));
        assert(join_with_commas(ps.drop_last()) + seq![','] + ps.last().push(c) =~= (
        join_with_commas(ps.drop_last()) + seq![','] + ps.last()).push(c));
    }
}

/// The pieces between top-level commas, joined again with commas, are the
/// input.
pub proof fn lemma_pieces_join(s: Seq<char>)
    ensures
        join_with_commas(top_level_pieces(s)) == s,
    decreases s.len(),
{
    if s.len() > 0 {
        lemma_pieces_join(s.drop_last());
        lemma_pieces_nonempty(s.drop_last());
        let r = top_level_pieces(s.drop_last());
        if is_top_level_comma(s, s.len() - 1) {
            let q = r.push(Seq::<char>::empty());
            assert(q.drop_last() == r);
            assert(join_with_commas(q) == join_with_commas(r) + seq![','] + Seq::<char>::empty());
            assert(s.drop_last() + seq![','] + Seq::<char>::empty() =~= s);
        } else {
            lemma_join_extend_last(r, s.last());
            assert(s.drop_last().push(s.last()) =~= s);
        }
    } else {
        assert(top_level_pieces(s) == seq![Seq::<char>::empty()]);
    }
}

proof fn lemma_trimmed_nonempty_keeps(ps: Seq<Seq<char>>)
    requires
        forall|i: int| 0 <= i < ps.len() ==> (#[trigger] ps[i]).len() > 0 && trim(ps[i]) == ps[i],
    ensures
        trimmed_nonempty(ps) == ps,
    decreases ps.len(),
{
    if ps.len() > 0 {
        lemma_trimmed_nonempty_keeps(ps.drop_last());
        assert(ps.last() == ps[ps.len() - 1]);
        assert(ps.drop_last().push(ps.last()) =~= ps);
    }
}

proof fn lemma_trimmed_nonempty_trimmed(ps: Seq<Seq<char>>)
    ensures
        forall|i: int|
            0 <= i < trimmed_nonempty(ps).len() ==> trim(#[trigger] trimmed_nonempty(ps)[i])
                == trimmed_nonempty(ps)[i],
    decreases ps.len(),
{
    if ps.len() > 0 {
        lemma_trimmed_nonempty_trimmed(ps.drop_last());
        lemma_trim_idempotent(ps.last());
        let r = trimmed_nonempty(ps.drop_last());
        let t = trimmed_nonempty(ps);
        assert forall|i: int| 0 <= i < t.len() implies trim(#[trigger] t[i]) == t[i] by {
            if i < r.len() {
                assert(t[i] == r[i]);
            }
        }
    }
}

/// No item that `split_string_respect_braces` returns begins or ends with
/// whitespace.
pub proof fn lemma_split_items_trimmed(s: Seq<char>)
    ensures
        forall|i: int|
            0 <= i < split_respecting_braces(s).len() ==> trim(
                #[trigger] split_respecting_braces(s)[i],
            ) == split_respecting_braces(s)[i],
{
    lemma_trimmed_nonempty_trimmed(top_level_pieces(s));
}

/// Splitting loses nothing but separators, empty items and surrounding
/// whitespace: when every piece between top-level commas is non-empty and has no
/// surrounding whitespace, joining the items again with commas gives back the
/// input.
pub proof fn lemma_split_rejoins(s: Seq<char>)
    requires
        forall|i: int|
            0 <= i < top_level_pieces(s).len() ==> (#[trigger] top_level_pieces(s)[i]).len() > 0
                && trim(top_level_pieces(s)[i]) == top_level_pieces(s)[i],
    ensures
        join_with_commas(split_respecting_braces(s)) == s,
{
    lemma_trimmed_nonempty_keeps(top_level_pieces(s));
    lemma_pieces_join(s);
}

/// The number of commas of `s` outside all braces.
pub open spec fn top_level_comma_count(s: Seq<char>) -> nat
    decreases s.len(),
{
    if s.len() == 0 {
        0
    } else {
        top_level_comma_count(s.drop_last()) + if is_top_level_comma(s, s.len() - 1) {
            1nat
        } else {
            0nat
        }
    }
}

proof fn lemma_pieces_count(s: Seq<char>)
    ensures
        top_level_pieces(s).len() == top_level_comma_count(s) + 1,
    decreases s.len(),
{
    if s.len() > 0 {
        lemma_pieces_count(s.drop_last());
    }
}

proof fn lemma_trimmed_nonempty_len(ps: Seq<Seq<char>>)
    ensures
        trimmed_nonempty(ps).len() <= ps.len(),
    decreases ps.len(),
{
    if ps.len() > 0 {
        lemma_trimmed_nonempty_len(ps.drop_last());
    }
}

/// There are no more items than top-level commas plus one.
pub proof fn lemma_split_count(s: Seq<char>)
    ensures
        split_respecting_braces(s).len() <= top_level_comma_count(s) + 1,
{
    lemma_pieces_count(s);
    lemma_trimmed_nonempty_len(top_level_pieces(s));
}

proof fn lemma_pieces_substrings(s: Seq<char>)
    ensures
        forall|i: int|
            0 <= i < top_level_pieces(s).len() ==> exists|a: int, b: int|
                0 <= a <= b <= s.len() && #[trigger] top_level_pieces(s)[i] == s.subrange(a, b),
        exists|a: int|
            0 <= a <= s.len() && top_level_pieces(s).last() == s.subrange(a, s.len() as int),
    decreases s.len(),
{
    lemma_pieces_nonempty(s);
    if s.len() == 0 {
        assert(top_level_pieces(s)[0] =~= s.subrange(0, 0));
    } else {
        let t = s.drop_last();
        lemma_pieces_substrings(t);
        lemma_pieces_nonempty(t);
        let r = top_level_pieces(t);
        let ps = top_level_pieces(s);
        assert forall|a: int, b: int| 0 <= a <= b <= t.len() implies t.subrange(a, b) == s.subrange(a, b) by {
            assert(t.subrange(a, b) =~= s.subrange(a, b));
        }
        if is_top_level_comma(s, s.len() - 1) {
            assert(ps == r.push(Seq::<char>::empty()));
            assert(ps.last() =~= s.subrange(s.len() as int, s.len() as int));
            assert forall|i: int| 0 <= i < ps.len() implies exists|a: int, b: int|
                0 <= a <= b <= s.len() && #[trigger] ps[i] == s.subrange(a, b) by {
                if i < r.len() {
                    let (a, b) = choose|a: int, b: int| 0 <= a <= b <= t.len() && r[i] == t.subrange(a, b);
                    assert(ps[i] == s.subrange(a, b));
                } else {
                    assert(ps[i] == s.subrange(s.len() as int, s.len() as int));
                }
            }
        } else {
            let a0 = choose|a: int| 0 <= a <= t.len() && r.last() == t.subrange(a, t.len() as int);
            assert(ps == r.update(r.len() - 1, r.last().push(s.last())));
            assert(r.last().push(s.last()) =~= s.subrange(a0, s.len() as int));
            assert(ps.last() == s.subrange(a0, s.len() as int));
            assert forall|i: int| 0 <= i < ps.len() implies exists|a: int, b: int|
                0 <= a <= b <= s.len() && #[trigger] ps[i] == s.subrange(a, b) by {
                if i < r.len() - 1 {
                    let (a, b) = choose|a: int, b: int| 0 <= a <= b <= t.len() && r[i] == t.subrange(a, b);
                    assert(ps[i] == s.subrange(a, b));
                } else {
                    assert(ps[i] == s.subrange(a0, s.len() as int));
                }
            }
        }
    }
}

proof fn lemma_trimmed_substrings(s: Seq<char>, ps: Seq<Seq<char>>)
    requires
        forall|i: int|
            0 <= i < ps.len() ==> exists|a: int, b: int| 0 <= a <= b <= s.len() && #[trigger] ps[i] == s.subrange(a, b),
    ensures
        forall|i: int|
            0 <= i < trimmed_nonempty(ps).len() ==> exists|a: int, b: int|
                0 <= a <= b <= s.len() && #[trigger] trimmed_nonempty(ps)[i] == s.subrange(a, b),
    decreases ps.len(),
{
    if ps.len() > 0 {
        let q = ps.drop_last();
        assert forall|i: int| 0 <= i < q.len() implies exists|a: int, b: int|
            0 <= a <= b <= s.len() && #[trigger] q[i] == s.subrange(a, b) by {
            assert(q[i] == ps[i]);
        }
        lemma_trimmed_substrings(s, q);
        let r = trimmed_nonempty(q);
        let out = trimmed_nonempty(ps);
        if ps.last().len() > 0 {
            let x = ps.last();
            assert(x == ps[ps.len() - 1]);
            let (a, b) = choose|a: int, b: int| 0 <= a <= b <= s.len() && x == s.subrange(a, b);
            lemma_trim_is_substring(x);
            let (c, d) = choose|c: int, d: int| 0 <= c <= d <= x.len() && trim(x) == x.subrange(c, d);
            assert(trim(x) =~= s.subrange(a + c, a + d));
            assert forall|i: int| 0 <= i < out.len() implies exists|a: int, b: int|
                0 <= a <= b <= s.len() && #[trigger] out[i] == s.subrange(a, b) by {
                if i < r.len() {
                    assert(out[i] == r[i]);
                } else {
                    assert(out[i] == s.subrange(a + c, a + d));
                }
            }
        }
    }
}

/// Every item is a contiguous part of the input.
pub proof fn lemma_split_items_are_substrings(s: Seq<char>)
    ensures
        forall|i: int|
            0 <= i < split_respecting_braces(s).len() ==> exists|a: int, b: int|
                0 <= a <= b <= s.len() && #[trigger] split_respecting_braces(s)[i] == s.subrange(a, b),
{
    lemma_pieces_substrings(s);
    lemma_trimmed_substrings(s, top_level_pieces(s));
}

/// The input is cut exactly at its top-level commas: there is one piece more
/// than there are such commas, the pieces joined with commas give the input
/// back, and the comma after each piece but the last is a top-level comma.
pub proof fn lemma_pieces_cut_at_top_level_commas(s: Seq<char>)
    ensures
        top_level_pieces(s).len() == top_level_comma_count(s) + 1,
        join_with_commas(top_level_pieces(s)) == s,
        forall|k: int|
            0 <= k < top_level_pieces(s).len() - 1 ==> #[trigger] join_with_commas(
                top_level_pieces(s).take(k + 1),
            ).len() < s.len() && is_top_level_comma(
                s,
                join_with_commas(top_level_pieces(s).take(k + 1)).len() as int,
            ),
    decreases s.len(),
{
    lemma_pieces_count(s);
    lemma_pieces_join(s);
    lemma_pieces_nonempty(s);
    if s.len() > 0 {
        let t = s.drop_last();
        lemma_pieces_cut_at_top_level_commas(t);
        lemma_pieces_nonempty(t);
        lemma_pieces_join(t);
        let r = top_level_pieces(t);
        let ps = top_level_pieces(s);
        assert forall|k: int| 0 <= k < ps.len() - 1 implies #[trigger] join_with_commas(
            ps.take(k + 1),
        ).len() < s.len() && is_top_level_comma(s, join_with_commas(ps.take(k + 1)).len() as int) by {
            if k < r.len() - 1 {
                assert(ps.take(k + 1) =~= r.take(k + 1));
                let p = join_with_commas(r.take(k + 1)).len() as int;
                assert(p < t.len() && is_top_level_comma(t, p));
                assert(s.take(p) =~= t.take(p));
                assert(s[p] == t[p]);
            } else {
                assert(is_top_level_comma(s, s.len() - 1));
                assert(ps == r.push(Seq::<char>::empty()));
                assert(ps.take(k + 1) =~= r);
            }
        }
    }
}

proof fn lemma_trimmed_nonempty_from(ps: Seq<Seq<char>>)
    ensures
        forall|i: int|
            0 <= i < trimmed_nonempty(ps).len() ==> exists|j: int|
                0 <= j < ps.len() && ps[j].len() > 0 && #[trigger] trimmed_nonempty(ps)[i] == trim(
                    ps[j],
                ),
    decreases ps.len(),
{
    if ps.len() > 0 {
        let q = ps.drop_last();
        lemma_trimmed_nonempty_from(q);
        let r = trimmed_nonempty(q);
        let out = trimmed_nonempty(ps);
        assert forall|i: int| 0 <= i < out.len() implies exists|j: int|
            0 <= j < ps.len() && ps[j].len() > 0 && #[trigger] out[i] == trim(ps[j]) by {
            if i < r.len() {
                let j = choose|j: int| 0 <= j < q.len() && q[j].len() > 0 && r[i] == trim(q[j]);
                assert(out[i] == r[i]);
                assert(ps[j] == q[j]);
            } else {
                assert(out[i] == trim(ps[ps.len() - 1]));
            }
        }
    }
}

/// Empty items come only from whitespace: where the input holds no whitespace,
/// every item is non-empty and is a whole piece between top-level commas.
pub proof fn lemma_split_items_nonempty(s: Seq<char>)
    requires
        forall|i: int| 0 <= i < s.len() ==> !is_white_space(#[trigger] s[i]),
    ensures
        forall|i: int|
            0 <= i < split_respecting_braces(s).len() ==> (#[trigger] split_respecting_braces(s)[i]).len()
                > 0 && top_level_pieces(s).contains(split_respecting_braces(s)[i]),
{
    let ps = top_level_pieces(s);
    let out = split_respecting_braces(s);
    lemma_pieces_substrings(s);
    lemma_trimmed_nonempty_from(ps);
    assert forall|i: int| 0 <= i < out.len() implies (#[trigger] out[i]).len() > 0 && ps.contains(out[i]) by {
        let j = choose|j: int| 0 <= j < ps.len() && ps[j].len() > 0 && out[i] == trim(ps[j]);
        let p = ps[j];
        let (a, b) = choose|a: int, b: int| 0 <= a <= b <= s.len() && p == s.subrange(a, b);
        assert(p[0] == s[a]);
        assert(p.last() == s[b - 1]);
        assert(trim_start(p) == p);
        assert(trim_end(p) == p);
        assert(out[i] == p);
    }
}

} // verus!
