//! The patterns that `reset --exclude` takes: a comma-separated list (commas in
//! braces do not separate), each item brace-expanded, each expansion completed to
//! a pattern over `<component>/v<version>/<entry>` paths and compiled as a glob.

use vstd::prelude::*;
use crate::braces::{split_respecting_braces, split_string_respect_braces};
use crate::glob_pattern::{compile_glob, glob_accepts, glob_compile_error, glob_matches, glob_pattern_matches, GlobPattern};
use crate::text::{chars_of, concat_chars, opt_view, string_of, string_views};

verus! {

broadcast use vstd::string::group_string_axioms;

/// What `bracoxide::explode` makes of `s`: its brace expansions, in order, or
/// `None` where it reports an error.
pub uninterp spec fn brace_expansion(s: Seq<char>) -> Option<Seq<Seq<char>>>;

/// Whether the character at `i` of `s` is escaped: it follows a `\` that is
/// not itself escaped.
pub open spec fn escaped(s: Seq<char>, i: int) -> bool
    decreases i,
{
    if i <= 0 {
        false
    } else {
        s[i - 1] == '\\' && !escaped(s, i - 1)
    }
}

/// Whether the character at `m` of `s` is `c` and not escaped.
pub open spec fn unescaped_is(s: Seq<char>, m: int, c: char) -> bool {
    0 <= m < s.len() && !escaped(s, m) && s[m] == c
}

/// Whether the character at `m` of `s` is an unescaped `{`, `}` or `,`: one that
/// brace expansion reads as structure, not as text.
pub open spec fn is_breaker(s: Seq<char>, m: int) -> bool {
    unescaped_is(s, m, '{') || unescaped_is(s, m, '}') || unescaped_is(s, m, ',')
}

/// Whether a run of text starts at `j`: at the start of `s` or after a breaker.
pub open spec fn segment_start(s: Seq<char>, j: int) -> bool {
    j == 0 || (0 < j && is_breaker(s, j - 1))
}

/// Whether no breaker stands at `j..q`.
pub open spec fn breaker_free(s: Seq<char>, j: int, q: int) -> bool {
    forall|m: int| j <= m < q ==> !#[trigger] is_breaker(s, m)
}

/// The bytes that the UTF-8 encoding of `c` takes beyond its first.
pub open spec fn utf8_extra(c: char) -> nat {
    if (c as u32) < 0x80 {
        0
    } else if (c as u32) < 0x800 {
        1
    } else if (c as u32) < 0x10000 {
        2
    } else {
        3
    }
}

/// The bytes that the UTF-8 encoding of `t` takes beyond one per character.
pub open spec fn extra_bytes(t: Seq<char>) -> nat
    decreases t.len(),
{
    if t.len() == 0 {
        0
    } else {
        extra_bytes(t.drop_last()) + utf8_extra(t.last())
    }
}

/// Whether the text at `j..q`, where it starts a run and holds no breaker, takes
/// no more extra bytes than the characters before it.
pub open spec fn segment_fits(s: Seq<char>, j: int, q: int) -> bool {
    segment_start(s, j) && breaker_free(s, j, q) ==> extra_bytes(s.subrange(j, q)) <= j
}

/// Whether every run of text between breakers fits (see `segment_fits`).
pub open spec fn segments_fit(s: Seq<char>) -> bool {
    forall|j: int, q: int| 0 <= j <= q <= s.len() ==> #[trigger] segment_fits(s, j, q)
}

/// The unescaped `{` of the first `k` characters of `s` less their unescaped `}`.
pub open spec fn unescaped_depth(s: Seq<char>, k: int) -> int
    decreases k,
{
    if k <= 0 {
        0
    } else {
        unescaped_depth(s, k - 1) + if unescaped_is(s, k - 1, '{') {
            1int
        } else if unescaped_is(s, k - 1, '}') {
            -1int
        } else {
            0int
        }
    }
}

/// Whether the unescaped braces of `s` are settled before any brace group is
/// read: `s` lacks unescaped `{` or unescaped `}`, or some prefix closes more
/// braces than it opens, or every `{` is closed.
pub open spec fn braces_settled(s: Seq<char>) -> bool {
    ||| !(exists|m: int| 0 <= m < s.len() && #[trigger] unescaped_is(s, m, '{'))
    ||| !(exists|m: int| 0 <= m < s.len() && #[trigger] unescaped_is(s, m, '}'))
    ||| (exists|k: int| 0 <= k <= s.len() && #[trigger] unescaped_depth(s, k) < 0)
    ||| unescaped_depth(s, s.len() as int) == 0
}

/// Whether `s` is text that `bracoxide::explode` is called on: every run of
/// text fits (`segments_fit`) and its braces are settled (`braces_settled`).
///
/// In bracoxide (`tokenizer.rs`, `parser.rs`) these are what keep its position
/// arithmetic from going below zero. Its tokenizer gathers the characters of a
/// run into buffers and, on flushing one at character index `i` before the end,
/// subtracts the buffer's length in bytes from `i`; the buffer holds characters
/// of the run that starts at `j` and ends before `i`, so its length is at most
/// `i - j` plus the run's extra bytes, which `segments_fit` bounds by `j`. The
/// tokenizer refuses text without an unescaped `{` or without an unescaped `}`;
/// its parser refuses text where a prefix closes more braces than it opens,
/// before reading any group; and where every `{` is closed, each group it reads
/// ends at a `}` after its `{`, so the positions that it takes one from are
/// after a `{` or a `,`. Some text outside this set does not underflow either,
/// such as `{a}{b` or a last run of many multi-byte characters; on others, such
/// as `é{a,b}` or `{a,}{`, a build with overflow checks panics.
pub open spec fn expandable(s: Seq<char>) -> bool {
    segments_fit(s) && braces_settled(s)
}

/// `bracoxide::explode`, on text where its positions cannot go below zero (see
/// `expandable`). Claimed: the result is `brace_expansion(s@)`, with its error
/// turned into `None`.
///
/// Not stated: a numeric range such as `{0..99999999999}` asks for that many
/// strings, and braces nested many thousands deep recurse as deep; memory or
/// stack may run out on such input.
#[verifier::external_body]
fn explode(s: &str) -> (r: Option<Vec<String>>)
    requires
        expandable(s@),
    ensures
        match r {
            Some(v) => brace_expansion(s@) == Some(string_views(v@)),
            None => brace_expansion(s@) is None,
        },
{
    bracoxide::explode(s).ok()
}

/// The bytes that the UTF-8 encoding of `c` takes beyond its first.
fn utf8_extra_of(c: char) -> (n: u8)
    ensures
        n == utf8_extra(c),
{
    if (c as u32) < 0x80 {
        0
    } else if (c as u32) < 0x800 {
        1
    } else if (c as u32) < 0x10000 {
        2
    } else {
        3
    }
}

/// Whether `s` is text that brace expansion is tried on.
pub fn is_expandable(s: &str) -> (b: bool)
    ensures
        b == expandable(s@),
{
    let c = chars_of(s);
    let n = c.len();
    let ghost sv = s@;
    let mut i: usize = 0;
    let mut esc = false;
    let mut depth: i128 = 0;
    let mut went_negative = false;
    let mut seen_open = false;
    let mut seen_close = false;
    let mut seg_start: usize = 0;
    let mut seg_extra: i128 = 0;
    assert(sv.subrange(0, 0).len() == 0);
    while i < n
        invariant
            c@ == sv,
            sv == s@,
            n == c.len(),
            i <= n,
            esc == escaped(sv, i as int),
            depth == unescaped_depth(sv, i as int),
            -(i as int) <= depth <= i as int,
            went_negative == exists|k: int| 0 <= k <= i && #[trigger] unescaped_depth(sv, k) < 0,
            seen_open == exists|m: int| 0 <= m < i && #[trigger] unescaped_is(sv, m, '{'),
            seen_close == exists|m: int| 0 <= m < i && #[trigger] unescaped_is(sv, m, '}'),
            seg_start <= i,
            segment_start(sv, seg_start as int),
            breaker_free(sv, seg_start as int, i as int),
            seg_extra == extra_bytes(sv.subrange(seg_start as int, i as int)),
            0 <= seg_extra <= seg_start,
            forall|j: int, q: int| 0 <= j <= q <= i ==> #[trigger] segment_fits(sv, j, q),
        decreases n - i,
    {
        let ch = c[i];
        let ghost old_start = seg_start as int;
        let ghost ii = i as int;
        assert(sv[ii] == ch);
        let open = !esc && ch == '{';
        let close = !esc && ch == '}';
        let breaker = open || close || (!esc && ch == ',');
        assert(open == unescaped_is(sv, ii, '{'));
        assert(close == unescaped_is(sv, ii, '}'));
        assert(breaker == is_breaker(sv, ii));
        if open {
            depth = depth + 1;
            seen_open = true;
        } else if close {
            depth = depth - 1;
            seen_close = true;
        }
        assert(depth == unescaped_depth(sv, ii + 1));
        if depth < 0 {
            went_negative = true;
        }
        if breaker {
            seg_start = i + 1;
            seg_extra = 0;
            assert(sv.subrange(ii + 1, ii + 1).len() == 0);
        } else {
            assert(sv.subrange(old_start, ii + 1).drop_last() =~= sv.subrange(old_start, ii));
            assert(sv.subrange(old_start, ii + 1).last() == ch);
            seg_extra = seg_extra + utf8_extra_of(ch) as i128;
            assert(seg_extra == extra_bytes(sv.subrange(old_start, ii + 1)));
            if seg_extra > seg_start as i128 {
                assert(breaker_free(sv, old_start, ii + 1));
                assert(!segment_fits(sv, old_start, ii + 1));
                return false;
            }
        }
        assert forall|j: int, q: int| 0 <= j <= q <= ii + 1 implies #[trigger] segment_fits(sv, j, q) by {
            if q == ii + 1 && segment_start(sv, j) && breaker_free(sv, j, q) {
                if breaker {
                    if j <= ii {
                        assert(!is_breaker(sv, ii));
                    }
                } else {
                    if j < old_start {
                        assert(is_breaker(sv, old_start - 1));
                        assert(!is_breaker(sv, old_start - 1));
                    } else if j > old_start {
                        assert(is_breaker(sv, j - 1));
                        if j - 1 < ii {
                            assert(!is_breaker(sv, j - 1));
                        }
                    }
                }
            }
        }
        esc = ch == '\\' && !esc;
        i = i + 1;
    }
    assert(sv.len() == n);
    !seen_open || !seen_close || went_negative || depth == 0
}

/// The number of times `c` occurs in `s`.
pub open spec fn count_char(s: Seq<char>, c: char) -> nat
    decreases s.len(),
{
    if s.len() == 0 {
        0
    } else {
        count_char(s.drop_last(), c) + if s.last() == c {
            1nat
        } else {
            0nat
        }
    }
}

/// An exclusion pattern completed to a pattern over entry paths: a bare
/// component gets `/**` (all its versions and entries), a component and version
/// get `/*` (all entries of that version); a pattern with two or more `/` stays.
pub open spec fn complete_pattern(p: Seq<char>) -> Seq<char> {
    if count_char(p, '/') == 0 {
        p + "/**"@
    } else if count_char(p, '/') == 1 {
        p + "/*"@
    } else {
        p
    }
}

fn count_slashes(p: &Vec<char>) -> (n: usize)
    ensures
        n == count_char(p@, '/'),
{
    let mut n: usize = 0;
    let mut i: usize = 0;
    while i < p.len()
        invariant
            i <= p.len(),
            n == count_char(p@.take(i as int), '/'),
            n <= i,
        decreases p.len() - i,
    {
        assert(p@.take(i + 1).drop_last() =~= p@.take(i as int));
        if p[i] == '/' {
            n = n + 1;
        }
        i = i + 1;
    }
    assert(p@.take(p.len() as int) =~= p@);
    n
}

/// An exclusion pattern completed to a pattern over entry paths.
pub fn complete_exclude_pattern(pattern: &str) -> (r: String)
    ensures
        r@ == complete_pattern(pattern@),
{
    let p = chars_of(pattern);
    let n = count_slashes(&p);
    if n == 0 {
        string_of(&concat_chars(&p, &chars_of("/**")))
    } else if n == 1 {
        string_of(&concat_chars(&p, &chars_of("/*")))
    } else {
        string_of(&p)
    }
}

/// The expansions of `item` as `expansion` gives them, or `item` alone where it
/// did not expand.
pub fn expansions_or_item(item: &String, expansion: Option<Vec<String>>) -> (r: Vec<String>)
    ensures
        string_views(r@) == match expansion {
            Some(v) => string_views(v@),
            None => seq![item@],
        },
{
    match expansion {
        Some(v) => v,
        None => {
            let mut v: Vec<String> = Vec::new();
            v.push(item.clone());
            assert(string_views(v@) =~= seq![item@]);
            v
        },
    }
}

/// What an item of the list stands for: the patterns it expands to, or `None`
/// where its braces are not expanded. An item without `{` stands for itself
/// (bracoxide refuses it); an `expandable` item for its brace expansions, or
/// for itself where bracoxide reports an error; any other item is refused.
pub open spec fn item_expansions(p: Seq<char>) -> Option<Seq<Seq<char>>> {
    if !p.contains('{') {
        Some(seq![p])
    } else if expandable(p) {
        Some(
            match brace_expansion(p) {
                Some(v) => v,
                None => seq![p],
            },
        )
    } else {
        None
    }
}

/// Whether `c` occurs in `v`.
fn contains_char(v: &Vec<char>, c: char) -> (b: bool)
    ensures
        b == v@.contains(c),
{
    let mut i: usize = 0;
    while i < v.len()
        invariant
            i <= v.len(),
            forall|k: int| 0 <= k < i ==> v@[k] != c,
        decreases v.len() - i,
    {
        if v[i] == c {
            assert(v@[i as int] == c);
            return true;
        }
        i = i + 1;
    }
    false
}

/// The completed patterns that `item` stands for, or `None` where its braces
/// are not expanded (see `item_expansions`).
pub fn item_patterns(item: &String) -> (r: Option<Vec<String>>)
    ensures
        r is None <==> item_expansions(item@) is None,
        r is Some ==> string_views(r->0@) == item_expansions(item@)->0.map_values(
            |p: Seq<char>| complete_pattern(p),
        ),
{
    let has_brace = contains_char(&chars_of(item.as_str()), '{');
    let expansion = if !has_brace {
        None
    } else if is_expandable(item.as_str()) {
        explode(item.as_str())
    } else {
        return None;
    };
    let expansions = expansions_or_item(item, expansion);
    assert(Some(string_views(expansions@)) == item_expansions(item@));
    let mut r: Vec<String> = Vec::new();
    let mut j: usize = 0;
    while j < expansions.len()
        invariant
            j <= expansions.len(),
            string_views(r@) == string_views(expansions@).take(j as int).map_values(
                |p: Seq<char>| complete_pattern(p),
            ),
        decreases expansions.len() - j,
    {
        let ghost before = r@;
        let completed = complete_exclude_pattern(expansions[j].as_str());
        r.push(completed);
        assert(string_views(expansions@).take(j + 1) =~= string_views(expansions@).take(j as int).push(
            expansions@[j as int]@,
        ));
        assert(string_views(r@) =~= string_views(before).push(complete_pattern(expansions@[j as int]@)));
        j = j + 1;
    }
    assert(string_views(expansions@).take(expansions.len() as int) =~= string_views(expansions@));
    Some(r)
}

/// The message for an item whose braces are not expanded.
pub open spec fn unexpanded_message(p: Seq<char>) -> Seq<char> {
    "Braces in pattern '"@ + p + "' cannot be expanded"@
}

/// The message for an item whose braces are not expanded.
pub fn unexpanded_pattern_message(item: &str) -> (m: String)
    ensures
        m@ == unexpanded_message(item@),
{
    let mut m = chars_of("Braces in pattern '");
    m = concat_chars(&m, &chars_of(item));
    m = concat_chars(&m, &chars_of("' cannot be expanded"));
    string_of(&m)
}

/// The message of a pattern that does not compile: the pattern and the glob
/// crate's own description of the problem.
pub open spec fn invalid_pattern_text(pattern: Seq<char>) -> Seq<char> {
    "Invalid pattern '"@ + pattern + "': "@ + glob_compile_error(pattern)->0
}

/// The message of a pattern that does not compile, given the glob crate's own
/// description of the problem.
pub fn invalid_pattern_message(pattern: &str, detail: &str) -> (m: String)
    ensures
        m@ == "Invalid pattern '"@ + pattern@ + "': "@ + detail@,
{
    let mut m = chars_of("Invalid pattern '");
    m = concat_chars(&m, &chars_of(pattern));
    m = concat_chars(&m, &chars_of("': "));
    m = concat_chars(&m, &chars_of(detail));
    string_of(&m)
}

/// The sources of the patterns among `texts` that compile, in order.
pub open spec fn accepted_patterns(texts: Seq<Seq<char>>) -> Seq<Seq<char>>
    decreases texts.len(),
{
    if texts.len() == 0 {
        Seq::empty()
    } else if glob_accepts(texts.last()) {
        accepted_patterns(texts.drop_last()).push(texts.last())
    } else {
        accepted_patterns(texts.drop_last())
    }
}

/// The patterns among `texts` that do not compile, in order.
pub open spec fn rejected_patterns(texts: Seq<Seq<char>>) -> Seq<Seq<char>>
    decreases texts.len(),
{
    if texts.len() == 0 {
        Seq::empty()
    } else if glob_accepts(texts.last()) {
        rejected_patterns(texts.drop_last())
    } else {
        rejected_patterns(texts.drop_last()).push(texts.last())
    }
}

/// The sources of a sequence of compiled patterns.
pub open spec fn pattern_sources(ps: Seq<GlobPattern>) -> Seq<Seq<char>> {
    ps.map_values(|p: GlobPattern| p.source())
}

/// The messages of the patterns among `texts` that do not compile, in order.
pub open spec fn rejection_messages(texts: Seq<Seq<char>>) -> Seq<Seq<char>> {
    rejected_patterns(texts).map_values(|t: Seq<char>| invalid_pattern_text(t))
}

/// The patterns of `texts` compiled, with a message for each one that does not
/// compile.
pub fn compile_patterns(texts: &Vec<String>) -> (r: (Vec<GlobPattern>, Vec<String>))
    ensures
        pattern_sources(r.0@) == accepted_patterns(string_views(texts@)),
        string_views(r.1@) == rejection_messages(string_views(texts@)),
{
    let mut patterns: Vec<GlobPattern> = Vec::new();
    let mut errors: Vec<String> = Vec::new();
    let mut i: usize = 0;
    assert(string_views(texts@).take(0) =~= Seq::<Seq<char>>::empty());
    assert(pattern_sources(patterns@) =~= Seq::<Seq<char>>::empty());
    assert(string_views(errors@) =~= Seq::<Seq<char>>::empty());
    while i < texts.len()
        invariant
            i <= texts.len(),
            pattern_sources(patterns@) == accepted_patterns(string_views(texts@).take(i as int)),
            string_views(errors@) == rejection_messages(string_views(texts@).take(i as int)),
        decreases texts.len() - i,
    {
        let ghost ts = string_views(texts@).take(i + 1);
        let ghost prev = string_views(texts@).take(i as int);
        assert(ts.drop_last() =~= prev);
        assert(ts.last() == texts@[i as int]@);
        let text = &texts[i];
        match compile_glob(text.as_str()) {
            Ok(g) => {
                let ghost before = patterns@;
                patterns.push(g);
                assert(pattern_sources(patterns@) =~= pattern_sources(before).push(text@));
                assert(rejected_patterns(ts) == rejected_patterns(prev));
            },
            Err(detail) => {
                let ghost before = errors@;
                let msg = invalid_pattern_message(text.as_str(), detail.as_str());
                errors.push(msg);
                assert(rejected_patterns(ts) == rejected_patterns(prev).push(text@));
                assert(rejection_messages(ts) =~= rejection_messages(prev).push(invalid_pattern_text(text@)));
                assert(string_views(errors@) =~= string_views(before).push(msg@));
            },
        }
        i = i + 1;
    }
    assert(string_views(texts@).take(texts.len() as int) == string_views(texts@));
    (patterns, errors)
}

/// The sources of the patterns that the item `p` gives and that compile, and the
/// messages it gives: one for each of its patterns that does not compile, or one
/// saying that its braces are not expanded.
pub open spec fn item_outcome(p: Seq<char>) -> (Seq<Seq<char>>, Seq<Seq<char>>) {
    match item_expansions(p) {
        Some(v) => {
            let texts = v.map_values(|e: Seq<char>| complete_pattern(e));
            (accepted_patterns(texts), rejection_messages(texts))
        },
        None => (Seq::empty(), seq![unexpanded_message(p)]),
    }
}

/// The outcomes of the items `items`, joined in order.
pub open spec fn exclusion_outcome(items: Seq<Seq<char>>) -> (Seq<Seq<char>>, Seq<Seq<char>>)
    decreases items.len(),
{
    if items.len() == 0 {
        (Seq::empty(), Seq::empty())
    } else {
        let prev = exclusion_outcome(items.drop_last());
        let cur = item_outcome(items.last());
        (prev.0 + cur.0, prev.1 + cur.1)
    }
}

/// The outcome of the `--exclude` value: that of its items.
pub open spec fn exclude_outcome(exclude: Option<Seq<char>>) -> (Seq<Seq<char>>, Seq<Seq<char>>) {
    match exclude {
        None => (Seq::empty(), Seq::empty()),
        Some(s) => exclusion_outcome(split_respecting_braces(s)),
    }
}

/// The compiled exclusion patterns of the `--exclude` value, with the messages
/// for its patterns that do not compile and for its items whose braces are not
/// expanded, in the order of the items.
pub fn build_exclude_patterns(exclude: Option<String>) -> (r: (Vec<GlobPattern>, Vec<String>))
    ensures
        pattern_sources(r.0@) == exclude_outcome(opt_view(exclude)).0,
        string_views(r.1@) == exclude_outcome(opt_view(exclude)).1,
{
    let ghost ex = opt_view(exclude);
    let items = split_string_respect_braces(exclude);
    let ghost iv = string_views(items@);
    proof {
        if ex is None {
            assert(iv =~= Seq::<Seq<char>>::empty());
        }
    }
    assert(exclusion_outcome(iv) == exclude_outcome(ex));
    let mut patterns: Vec<GlobPattern> = Vec::new();
    let mut errors: Vec<String> = Vec::new();
    let mut i: usize = 0;
    assert(iv.take(0) =~= Seq::<Seq<char>>::empty());
    assert(pattern_sources(patterns@) =~= Seq::<Seq<char>>::empty());
    assert(string_views(errors@) =~= Seq::<Seq<char>>::empty());
    while i < items.len()
        invariant
            iv == string_views(items@),
            i <= items.len(),
            pattern_sources(patterns@) == exclusion_outcome(iv.take(i as int)).0,
            string_views(errors@) == exclusion_outcome(iv.take(i as int)).1,
        decreases items.len() - i,
    {
        let item = &items[i];
        let ghost ts = iv.take(i + 1);
        assert(ts.drop_last() =~= iv.take(i as int));
        assert(ts.last() == item@);
        let ghost pb = patterns@;
        let ghost eb = errors@;
        match item_patterns(item) {
            Some(texts) => {
                let (mut ps, mut es) = compile_patterns(&texts);
                let ghost pv = ps@;
                let ghost ev = es@;
                patterns.append(&mut ps);
                errors.append(&mut es);
                assert(pattern_sources(patterns@) =~= pattern_sources(pb) + pattern_sources(pv));
                assert(string_views(errors@) =~= string_views(eb) + string_views(ev));
            },
            None => {
                let msg = unexpanded_pattern_message(item.as_str());
                errors.push(msg);
                assert(pattern_sources(patterns@) =~= pattern_sources(pb) + Seq::<Seq<char>>::empty());
                assert(string_views(errors@) =~= string_views(eb) + seq![msg@]);
            },
        }
        i = i + 1;
    }
    assert(iv.take(items.len() as int) =~= iv);
    (patterns, errors)
}

/// Whether one of `patterns` matches the entry path `relative_path`.
pub fn is_excluded(patterns: &Vec<GlobPattern>, relative_path: &str) -> (b: bool)
    ensures
        b == exists|i: int|
            0 <= i < patterns.len() && glob_matches(
                (#[trigger] patterns@[i]).source(),
                relative_path@,
            ),
{
    let mut i: usize = 0;
    while i < patterns.len()
        invariant
            i <= patterns.len(),
            forall|k: int|
                0 <= k < i ==> !glob_matches((#[trigger] patterns@[k]).source(), relative_path@),
        decreases patterns.len() - i,
    {
        if glob_pattern_matches(&patterns[i], relative_path) {
            return true;
        }
        i = i + 1;
    }
    false
}

} // verus!
