//! Unix path handling: how a path string splits into components (as
//! `std::path::Path::iter` yields them), how a component is pushed onto a path
//! (as `PathBuf::push` does it), where a configuration entry lives, and how a
//! file path under the configuration directory is read back as
//! `(component, version, entry)`.

use vstd::prelude::*;
use crate::text::{chars_of, concat_chars, opt_view, decimal, decimal_chars, parse_u64, parse_u64_chars, string_of};

verus! {

broadcast use vstd::string::group_string_axioms;

// ---------------------------------------------------------------------------
// The model
// ---------------------------------------------------------------------------

/// The pieces of `p` between `/` separators, empty pieces included
/// (`"/a//b"` has the pieces `""`, `"a"`, `""`, `"b"`).
pub open spec fn segments(p: Seq<char>) -> Seq<Seq<char>>
    decreases p.len(),
{
    if p.len() == 0 {
        seq![Seq::<char>::empty()]
    } else if p.last() == '/' {
        segments(p.drop_last()).push(Seq::<char>::empty())
    } else {
        let s = segments(p.drop_last());
        s.update(s.len() - 1, s.last().push(p.last()))
    }
}

/// A piece that `Path::iter` yields as a component of its own: not empty and
/// not `.`.
pub open spec fn is_normal_segment(q: Seq<char>) -> bool {
    q.len() > 0 && q != seq!['.']
}

/// The pieces of `segs` that are components, in order.
pub open spec fn normal_segments(segs: Seq<Seq<char>>) -> Seq<Seq<char>>
    decreases segs.len(),
{
    if segs.len() == 0 {
        Seq::empty()
    } else if is_normal_segment(segs.last()) {
        normal_segments(segs.drop_last()).push(segs.last())
    } else {
        normal_segments(segs.drop_last())
    }
}

/// Whether `p` is absolute.
pub open spec fn has_root(p: Seq<char>) -> bool {
    p.len() > 0 && p[0] == '/'
}

/// Whether `p` is a relative path that begins with the component `.`.
pub open spec fn starts_with_cur_dir(p: Seq<char>) -> bool {
    !has_root(p) && p.len() > 0 && p[0] == '.' && (p.len() == 1 || p[1] == '/')
}

/// The components of `p`, each as the string `Path::iter` yields for it: `/` for
/// the root, `.` for a leading current directory, then every piece between
/// separators that is neither empty nor `.`.
pub open spec fn path_components(p: Seq<char>) -> Seq<Seq<char>> {
    let head = if has_root(p) {
        seq![seq!['/']]
    } else if starts_with_cur_dir(p) {
        seq![seq!['.']]
    } else {
        Seq::<Seq<char>>::empty()
    };
    head + normal_segments(segments(p))
}

/// `base` with `part` pushed onto it, as `PathBuf::push` does on Unix: an absolute
/// `part` replaces `base`; otherwise a `/` goes between them unless `base` is
/// empty or already ends with one.
pub open spec fn path_push(base: Seq<char>, part: Seq<char>) -> Seq<char> {
    if part.len() > 0 && part[0] == '/' {
        part
    } else if base.len() > 0 && base.last() != '/' {
        base + seq!['/'] + part
    } else {
        base + part
    }
}

/// The name of the directory that holds version `version` of a component.
pub open spec fn version_dir(version: u64) -> Seq<char> {
    seq!['v'] + decimal(version as nat)
}

/// The file of entry `entry` of version `version` of `component`, under the
/// configuration directory `base`.
pub open spec fn configuration_path(
    base: Seq<char>,
    component: Seq<char>,
    version: u64,
    entry: Seq<char>,
) -> Seq<char> {
    path_push(path_push(path_push(base, component), version_dir(version)), entry)
}

/// The `(component, version, entry)` that a file path denotes: its last three
/// components, of which the middle one is `v` followed by a number. A path with
/// fewer than four components denotes nothing.
pub open spec fn configuration_of_path(p: Seq<char>) -> Option<(Seq<char>, u64, Seq<char>)> {
    let parts = path_components(p);
    let n = parts.len();
    if n < 4 {
        None
    } else {
        let v = parts[n - 2];
        if v.len() > 0 && v[0] == 'v' && parse_u64(v.drop_first()) is Some {
            Some((parts[n - 3], parse_u64(v.drop_first())->0, parts[n - 1]))
        } else {
            None
        }
    }
}

/// The views of a sequence of character vectors.
pub open spec fn char_vec_views(v: Seq<Vec<char>>) -> Seq<Seq<char>> {
    v.map_values(|x: Vec<char>| x@)
}

// ---------------------------------------------------------------------------
// Executable functions
// ---------------------------------------------------------------------------

fn is_normal_segment_exec(q: &Vec<char>) -> (b: bool)
    ensures
        b == is_normal_segment(q@),
{
    if q.len() == 0 {
        false
    } else if q.len() == 1 && q[0] == '.' {
        assert(q@ =~= seq!['.']);
        false
    } else {
        assert(q@.len() == 1 ==> q@[0] != '.');
        true
    }
}

proof fn lemma_segments_nonempty(p: Seq<char>)
    ensures
        segments(p).len() >= 1,
    decreases p.len(),
{
    if p.len() > 0 {
        lemma_segments_nonempty(p.drop_last());
    }
}

/// The components of the path `p`.
pub fn components_of(p: &Vec<char>) -> (parts: Vec<Vec<char>>)
    ensures
        char_vec_views(parts@) == path_components(p@),
{
    let n = p.len();
    let mut done: Vec<Vec<char>> = Vec::new();
    let mut cur: Vec<char> = Vec::new();
    let mut i: usize = 0;
    assert(p@.take(0) =~= Seq::<char>::empty());
    assert(char_vec_views(done@) =~= Seq::<Seq<char>>::empty());
    assert(segments(p@.take(0)).drop_last() =~= Seq::<Seq<char>>::empty());
    while i < n
        invariant
            n == p.len(),
            i <= n,
            segments(p@.take(i as int)).len() >= 1,
            char_vec_views(done@) == normal_segments(segments(p@.take(i as int)).drop_last()),
            cur@ == segments(p@.take(i as int)).last(),
        decreases n - i,
    {
        let c = p[i];
        let ghost prev = segments(p@.take(i as int));
        assert(p@.take(i + 1).drop_last() == p@.take(i as int));
        assert(p@.take(i + 1).last() == c);
        assert(prev.drop_last().push(prev.last()) == prev);
        if c == '/' {
            assert(segments(p@.take(i + 1)) == prev.push(Seq::<char>::empty()));
            assert(segments(p@.take(i + 1)).drop_last() == prev);
            if is_normal_segment_exec(&cur) {
                let ghost old_done = done@;
                done.push(cur);
                assert(char_vec_views(done@) =~= char_vec_views(old_done).push(prev.last()));
            }
            cur = Vec::new();
            assert(cur@ =~= Seq::<char>::empty());
        } else {
            let ghost next = prev.update(prev.len() - 1, prev.last().push(c));
            assert(segments(p@.take(i + 1)) == next);
            assert(next.drop_last() =~= prev.drop_last());
            cur.push(c);
        }
        i = i + 1;
    }
    assert(p@.take(n as int) == p@);
    let ghost segs = segments(p@);
    assert(segs.drop_last().push(segs.last()) == segs);
    if is_normal_segment_exec(&cur) {
        let ghost old_done = done@;
        done.push(cur);
        assert(char_vec_views(done@) =~= char_vec_views(old_done).push(segs.last()));
    }
    assert(char_vec_views(done@) == normal_segments(segs));
    let mut parts: Vec<Vec<char>> = Vec::new();
    if n > 0 && p[0] == '/' {
        let mut root: Vec<char> = Vec::new();
        root.push('/');
        parts.push(root);
        assert(char_vec_views(parts@) =~= seq![seq!['/']]);
    } else if n > 0 && p[0] == '.' && (n == 1 || p[1] == '/') {
        let mut dot: Vec<char> = Vec::new();
        dot.push('.');
        parts.push(dot);
        assert(char_vec_views(parts@) =~= seq![seq!['.']]);
    } else {
        assert(char_vec_views(parts@) =~= Seq::<Seq<char>>::empty());
    }
    let ghost head = char_vec_views(parts@);
    let mut k: usize = 0;
    while k < done.len()
        invariant
            k <= done.len(),
            char_vec_views(parts@) == head + char_vec_views(done@).take(k as int),
        decreases done.len() - k,
    {
        let ghost before = parts@;
        parts.push(done[k].clone());
        assert(char_vec_views(done@).take(k + 1) == char_vec_views(done@).take(k as int).push(
            done@[k as int]@,
        ));
        assert(char_vec_views(parts@) =~= char_vec_views(before).push(done@[k as int]@));
        k = k + 1;
    }
    assert(char_vec_views(done@).take(done.len() as int) == char_vec_views(done@));
    parts
}

/// `part` pushed onto `base` as a path.
pub fn push_path(base: &Vec<char>, part: &Vec<char>) -> (p: Vec<char>)
    ensures
        p@ == path_push(base@, part@),
{
    if part.len() > 0 && part[0] == '/' {
        return part.clone();
    }
    let mut p = base.clone();
    if base.len() > 0 && base[base.len() - 1] != '/' {
        p.push('/');
    }
    let ghost start = p@;
    let mut i: usize = 0;
    while i < part.len()
        invariant
            i <= part.len(),
            p@ == start + part@.take(i as int),
        decreases part.len() - i,
    {
        p.push(part[i]);
        i = i + 1;
        assert(part@.take(i as int) == part@.take(i - 1).push(part@[i - 1]));
    }
    assert(part@.take(part.len() as int) == part@);
    p
}

/// The name of the directory of a version: `v` and the number.
pub fn version_dir_chars(version: u64) -> (v: Vec<char>)
    ensures
        v@ == version_dir(version),
{
    let mut v: Vec<char> = Vec::new();
    v.push('v');
    let d = decimal_chars(version);
    let r = concat_chars(&v, &d);
    assert(v@ =~= seq!['v']);
    r
}

/// The file that holds entry `entry` of version `version` of `component`, under
/// the configuration directory `cosmic_folder`.
pub fn get_configuration_path(cosmic_folder: &str, component: &str, version: &u64, entry: &str) -> (
    path: String)
    ensures
        path@ == configuration_path(cosmic_folder@, component@, *version, entry@),
{
    let base = chars_of(cosmic_folder);
    let c = chars_of(component);
    let e = chars_of(entry);
    let v = version_dir_chars(*version);
    let p1 = push_path(&base, &c);
    let p2 = push_path(&p1, &v);
    let p3 = push_path(&p2, &e);
    string_of(&p3)
}

/// The `(component, version, entry)` that the file path `path` denotes, if any.
pub fn parse_configuration_path(path: &str) -> (r: Option<(String, u64, String)>)
    ensures
        match r {
            Some((c, v, e)) => configuration_of_path(path@) == Some((c@, v, e@)),
            None => configuration_of_path(path@) is None,
        },
{
    let p = chars_of(path);
    let parts = components_of(&p);
    let n = parts.len();
    let ghost views = char_vec_views(parts@);
    assert(views.len() == n);
    if n < 4 {
        return None;
    }
    let version_part = &parts[n - 2];
    assert(version_part@ == views[n - 2]);
    if version_part.len() == 0 || version_part[0] != 'v' {
        return None;
    }
    let mut digits: Vec<char> = Vec::new();
    let mut i: usize = 1;
    while i < version_part.len()
        invariant
            1 <= i <= version_part.len(),
            digits@ == version_part@.subrange(1, i as int),
        decreases version_part.len() - i,
    {
        digits.push(version_part[i]);
        i = i + 1;
    }
    assert(digits@ == version_part@.drop_first());
    match parse_u64_chars(&digits) {
        None => None,
        Some(version) => {
            let component = string_of(&parts[n - 3]);
            let entry = string_of(&parts[n - 1]);
            assert(component@ == views[n - 3]);
            assert(entry@ == views[n - 1]);
            Some((component, version, entry))
        },
    }
}

// ---------------------------------------------------------------------------
// Laws
// ---------------------------------------------------------------------------

/// A name that is one path component of its own: not empty, without `/`, and
/// not `.`.
pub open spec fn is_plain_name(q: Seq<char>) -> bool {
    &&& is_normal_segment(q)
    &&& forall|i: int| 0 <= i < q.len() ==> q[i] != '/'
}

proof fn lemma_segments_append(x: Seq<char>, y: Seq<char>)
    requires
        forall|i: int| 0 <= i < y.len() ==> y[i] != '/',
    ensures
        segments(x + y) == segments(x).update(
            segments(x).len() - 1,
            segments(x).last() + y,
        ),
    decreases y.len(),
{
    lemma_segments_nonempty(x);
    let s = segments(x);
    if y.len() == 0 {
        assert(x + y =~= x);
        assert(s.last() + y =~= s.last());
        assert(s.update(s.len() - 1, s.last() + y) =~= s);
    } else {
        let y0 = y.drop_last();
        lemma_segments_append(x, y0);
        assert((x + y).drop_last() =~= x + y0);
        assert((x + y).last() == y.last());
        let s0 = s.update(s.len() - 1, s.last() + y0);
        assert(segments(x + y0) == s0);
        assert((s.last() + y0).push(y.last()) =~= s.last() + y);
        assert(s0.update(s0.len() - 1, s0.last().push(y.last())) =~= s.update(
            s.len() - 1,
            s.last() + y,
        ));
    }
}

proof fn lemma_segments_slash(x: Seq<char>)
    ensures
        segments(x.push('/')) == segments(x).push(Seq::<char>::empty()),
{
    assert(x.push('/').drop_last() =~= x);
}

/// Pushing a plain name onto a path adds exactly that name as its last component.
pub proof fn lemma_components_push(base: Seq<char>, name: Seq<char>)
    requires
        is_plain_name(name),
    ensures
        path_components(path_push(base, name)) == path_components(base).push(name),
{
    lemma_segments_nonempty(base);
    let p = path_push(base, name);
    let s = segments(base);
    assert(name[0] != '/');
    if base.len() > 0 && base.last() != '/' {
        assert(p =~= base.push('/') + name);
        lemma_segments_slash(base);
        lemma_segments_append(base.push('/'), name);
        let s1 = s.push(Seq::<char>::empty());
        assert(s1.last() + name =~= name);
        assert(segments(p) =~= s.push(name));
        assert(s.push(name).drop_last() =~= s);
        assert(normal_segments(segments(p)) == normal_segments(s).push(name));
    } else {
        assert(p =~= base + name);
        lemma_segments_append(base, name);
        if base.len() == 0 {
            assert(s.last() =~= Seq::<char>::empty());
        } else {
            assert(base.drop_last().push('/') =~= base);
            lemma_segments_slash(base.drop_last());
            assert(s.last() =~= Seq::<char>::empty());
        }
        assert(s.last() + name =~= name);
        let s2 = s.update(s.len() - 1, name);
        assert(segments(p) == s2);
        assert(s2.drop_last() =~= s.drop_last());
        assert(s.drop_last().push(s.last()) =~= s);
        assert(normal_segments(s) == normal_segments(s.drop_last()));
        assert(normal_segments(s2) == normal_segments(s.drop_last()).push(name));
    }
    // The head of the component list is the same for `p` as for `base`.
    if base.len() == 0 {
        assert(p =~= name);
        assert(!has_root(p));
        assert(!starts_with_cur_dir(p)) by {
            if p.len() == 1 && p[0] == '.' {
                assert(name =~= seq!['.']);
            }
        }
    } else {
        assert(p[0] == base[0]);
        if base.len() >= 2 {
            assert(p[1] == base[1]);
        } else {
            assert(p.len() >= 2);
            if base.last() != '/' {
                assert(p[1] == '/');
            }
        }
    }
    let head_b = if has_root(base) {
        seq![seq!['/']]
    } else if starts_with_cur_dir(base) {
        seq![seq!['.']]
    } else {
        Seq::<Seq<char>>::empty()
    };
    assert(has_root(p) == has_root(base));
    assert(starts_with_cur_dir(p) == starts_with_cur_dir(base));
    assert(head_b + normal_segments(s).push(name) =~= (head_b + normal_segments(s)).push(name));
}

proof fn lemma_components_nonempty(base: Seq<char>)
    requires
        base.len() > 0,
    ensures
        path_components(base).len() >= 1,
{
    if !has_root(base) && !starts_with_cur_dir(base) {
        lemma_first_segment(base);
    }
}

proof fn lemma_first_segment(p: Seq<char>)
    requires
        p.len() > 0,
        p[0] != '/',
        !starts_with_cur_dir(p),
    ensures
        normal_segments(segments(p)).len() >= 1,
{
    let k: int = if p[0] == '.' {
        2
    } else {
        1
    };
    let y = p.take(k);
    assert forall|i: int| 0 <= i < y.len() implies y[i] != '/' by {
        if i == 1 {
            assert(p[1] != '/');
        }
    }
    let e = Seq::<char>::empty();
    lemma_segments_append(e, y);
    assert(e + y =~= y);
    assert(segments(e) == seq![e]);
    assert(seq![e].update(0, e + y) =~= seq![y]);
    assert(segments(y) == seq![y]);
    assert(is_normal_segment(y)) by {
        if y == seq!['.'] {
            assert(y.len() == 1);
            assert(y[0] == seq!['.'][0]);
        }
    }
    assert(seq![y].drop_last() =~= Seq::<Seq<char>>::empty());
    assert(seq![y].last() == y);
    assert(normal_segments(Seq::<Seq<char>>::empty()).len() == 0);
    assert(normal_segments(seq![y]) == normal_segments(Seq::<Seq<char>>::empty()).push(y));
    assert(normal_segments(seq![y]).len() == 1);
    lemma_normal_segments_grow_to(p, k);
}

proof fn lemma_normal_segments_grow_to(p: Seq<char>, k: int)
    requires
        0 <= k <= p.len(),
    ensures
        normal_segments(segments(p.take(k))).len() <= normal_segments(segments(p)).len(),
    decreases p.len() - k,
{
    if k < p.len() {
        lemma_normal_segments_grow_to(p, k + 1);
        lemma_normal_segments_grow(p.take(k), p[k]);
        assert(p.take(k).push(p[k]) =~= p.take(k + 1));
    } else {
        assert(p.take(k) =~= p);
    }
}

proof fn lemma_normal_segments_grow(q: Seq<char>, c: char)
    ensures
        normal_segments(segments(q.push(c))).len() >= normal_segments(segments(q)).len(),
{
    lemma_segments_nonempty(q);
    let s = segments(q);
    assert(q.push(c).drop_last() =~= q);
    if c == '/' {
        lemma_segments_slash(q);
        assert(s.push(Seq::<char>::empty()).drop_last() =~= s);
        assert(normal_segments(segments(q.push(c))) == normal_segments(s));
    } else {
        let s2 = s.update(s.len() - 1, s.last().push(c));
        assert(s2.drop_last() =~= s.drop_last());
        assert(s2.last() == s.last().push(c));
        assert(is_normal_segment(s.last()) ==> is_normal_segment(s.last().push(c))) by {
            if is_normal_segment(s.last()) && s.last().push(c) == seq!['.'] {
                assert(s.last().push(c).len() == 1);
            }
        }
    }
}

/// The name of a version directory is a plain name.
proof fn lemma_version_dir_plain(version: u64)
    ensures
        is_plain_name(version_dir(version)),
        version_dir(version).drop_first() == decimal(version as nat),
{
    let d = decimal(version as nat);
    crate::text::lemma_decimal_all_digits(version as nat);
    let v = version_dir(version);
    assert(v.drop_first() =~= d);
    assert forall|i: int| 0 <= i < v.len() implies v[i] != '/' by {
        if i > 0 {
            assert(v[i] == d[i - 1]);
            assert(crate::text::is_digit(d[i - 1]));
        }
    }
    assert(v.len() >= 2);
    assert(v != seq!['.']) by {
        assert(v.len() != seq!['.'].len());
    }
}

/// Reading back the path of a configuration entry gives the entry: for a
/// configuration directory that is not empty and a component and entry name that
/// are plain names, `parse_configuration_path` of `get_configuration_path` is the
/// triple they were made from.
pub proof fn lemma_configuration_path_roundtrip(
    base: Seq<char>,
    component: Seq<char>,
    version: u64,
    entry: Seq<char>,
)
    requires
        base.len() > 0,
        is_plain_name(component),
        is_plain_name(entry),
    ensures
        configuration_of_path(configuration_path(base, component, version, entry)) == Some(
            (component, version, entry),
        ),
{
    lemma_version_dir_plain(version);
    lemma_components_nonempty(base);
    let p1 = path_push(base, component);
    let p2 = path_push(p1, version_dir(version));
    lemma_components_push(base, component);
    lemma_components_push(p1, version_dir(version));
    lemma_components_push(p2, entry);
    let parts = path_components(path_push(p2, entry));
    let b = path_components(base);
    assert(parts == b.push(component).push(version_dir(version)).push(entry));
    let n = parts.len();
    assert(n == b.len() + 3);
    assert(parts[n - 3] == component);
    assert(parts[n - 2] == version_dir(version));
    assert(parts[n - 1] == entry);
    crate::text::lemma_parse_decimal(version);
}

// ---------------------------------------------------------------------------
// The configuration directory, relative paths and file names
// ---------------------------------------------------------------------------

/// The directory that holds the user's configuration: `$XDG_CONFIG_HOME` when it
/// is set, else `$HOME/.config`.
pub open spec fn config_home(xdg_config_home: Option<Seq<char>>, home: Option<Seq<char>>) -> Seq<
    char,
> {
    match xdg_config_home {
        Some(x) => x,
        None => home->0 + "/.config"@,
    }
}

/// The directory of the COSMIC configuration, given the values of
/// `XDG_CONFIG_HOME` and `HOME` (`None` where the variable is not set). `HOME`
/// is needed only when `XDG_CONFIG_HOME` is not set; a caller with neither has no
/// configuration directory, and `requires` leaves that case out.
pub fn get_cosmic_configurations(xdg_config_home: Option<String>, home: Option<String>) -> (dir:
    String)
    requires
        xdg_config_home is Some || home is Some,
    ensures
        dir@ == path_push(config_home(opt_view(xdg_config_home), opt_view(home)), "cosmic"@),
{
    let base = match (xdg_config_home, home) {
        (Some(x), _) => chars_of(x.as_str()),
        (None, Some(h)) => {
            let hc = chars_of(h.as_str());
            let suffix = chars_of("/.config");
            concat_chars(&hc, &suffix)
        },
        (None, None) => Vec::new(),
    };
    let cosmic = chars_of("cosmic");
    let p = push_path(&base, &cosmic);
    string_of(&p)
}

/// The path of an entry relative to the configuration directory:
/// `<component>/v<version>/<entry>`.
pub open spec fn relative_path(component: Seq<char>, version: u64, entry: Seq<char>) -> Seq<char> {
    component + seq!['/'] + version_dir(version) + seq!['/'] + entry
}

/// The path of an entry relative to the configuration directory.
pub fn relative_config_path(component: &str, version: &u64, entry: &str) -> (r: String)
    ensures
        r@ == relative_path(component@, *version, entry@),
{
    let c = chars_of(component);
    let e = chars_of(entry);
    let v = version_dir_chars(*version);
    let mut slash: Vec<char> = Vec::new();
    slash.push('/');
    let r1 = concat_chars(&c, &slash);
    let r2 = concat_chars(&r1, &v);
    let r3 = concat_chars(&r2, &slash);
    let r4 = concat_chars(&r3, &e);
    assert(slash@ =~= seq!['/']);
    string_of(&r4)
}

/// The file name of a path, as `Path::file_name` gives it: its last component,
/// unless that is the root, `.` or `..`.
pub open spec fn file_name(p: Seq<char>) -> Option<Seq<char>> {
    let c = path_components(p);
    if c.len() > 0 && c.last() != seq!['/'] && c.last() != seq!['.'] && c.last() != seq!['.', '.'] {
        Some(c.last())
    } else {
        None
    }
}

/// Whether the extension of `p`, as `Path::extension` gives it, is `json`: the
/// file name ends with `.json` and has something before that dot.
pub open spec fn is_json_path(p: Seq<char>) -> bool {
    match file_name(p) {
        Some(f) => f.len() >= 6 && f.subrange(f.len() - 5, f.len() as int) == seq![
            '.',
            'j',
            's',
            'o',
            'n',
        ],
        None => false,
    }
}

/// Whether the file `path` has the extension `json`.
pub fn has_json_extension(path: &str) -> (b: bool)
    ensures
        b == is_json_path(path@),
{
    let p = chars_of(path);
    let parts = components_of(&p);
    let n = parts.len();
    let ghost views = char_vec_views(parts@);
    if n == 0 {
        return false;
    }
    let last = &parts[n - 1];
    assert(last@ == views.last());
    let k = last.len();
    let is_root = k == 1 && last[0] == '/';
    let is_dot = k == 1 && last[0] == '.';
    let is_dot_dot = k == 2 && last[0] == '.' && last[1] == '.';
    proof {
        if k == 1 {
            assert(is_root == (last@ == seq!['/'])) by {
                if last@ == seq!['/'] {
                    assert(last@[0] == seq!['/'][0]);
                }
                if is_root {
                    assert(last@ =~= seq!['/']);
                }
            }
            assert(is_dot == (last@ == seq!['.'])) by {
                if last@ == seq!['.'] {
                    assert(last@[0] == seq!['.'][0]);
                }
                if is_dot {
                    assert(last@ =~= seq!['.']);
                }
            }
        } else {
            assert(last@ != seq!['/'] && last@ != seq!['.']) by {
                assert(seq!['/'].len() == 1 && seq!['.'].len() == 1);
            }
        }
        if k == 2 {
            assert(is_dot_dot == (last@ == seq!['.', '.'])) by {
                if last@ == seq!['.', '.'] {
                    assert(last@[0] == seq!['.', '.'][0]);
                    assert(last@[1] == seq!['.', '.'][1]);
                }
                if is_dot_dot {
                    assert(last@ =~= seq!['.', '.']);
                }
            }
        } else {
            assert(last@ != seq!['.', '.']) by {
                assert(seq!['.', '.'].len() == 2);
            }
        }
    }
    if is_root || is_dot || is_dot_dot {
        return false;
    }
    if k < 6 {
        return false;
    }
    let b = last[k - 5] == '.' && last[k - 4] == 'j' && last[k - 3] == 's' && last[k - 2] == 'o'
        && last[k - 1] == 'n';
    proof {
        let tail = last@.subrange(k - 5, k as int);
        let json = seq!['.', 'j', 's', 'o', 'n'];
        if b {
            assert(tail =~= json);
        } else {
            if tail == json {
                assert(tail[0] == json[0]);
                assert(tail[1] == json[1]);
                assert(tail[2] == json[2]);
                assert(tail[3] == json[3]);
                assert(tail[4] == json[4]);
            }
        }
    }
    b
}

/// A file named by some non-empty stem followed by `.json`, in any directory,
/// has the extension `json`.
pub proof fn lemma_json_file_name(dir: Seq<char>, stem: Seq<char>)
    requires
        stem.len() >= 1,
        forall|i: int| 0 <= i < stem.len() ==> stem[i] != '/',
    ensures
        is_json_path(path_push(dir, stem + seq!['.', 'j', 's', 'o', 'n'])),
        is_json_path(stem + seq!['.', 'j', 's', 'o', 'n']),
{
    let json = seq!['.', 'j', 's', 'o', 'n'];
    let name = stem + json;
    assert(name.len() == stem.len() + 5);
    assert(name != seq!['.']) by {
        assert(seq!['.'].len() == 1);
    }
    assert(name != seq!['.', '.']) by {
        assert(seq!['.', '.'].len() == 2);
    }
    assert(name != seq!['/']) by {
        assert(seq!['/'].len() == 1);
    }
    assert forall|i: int| 0 <= i < name.len() implies name[i] != '/' by {
        if i >= stem.len() {
            assert(name[i] == json[i - stem.len()]);
        }
    }
    assert(is_plain_name(name));
    assert(name.subrange(name.len() - 5, name.len() as int) =~= json);
    lemma_components_push(dir, name);
    lemma_components_push(Seq::<char>::empty(), name);
    let segs = seq![Seq::<char>::empty()];
    assert(segments(Seq::<char>::empty()) == segs);
    assert(segs.drop_last() =~= Seq::<Seq<char>>::empty());
    assert(!is_normal_segment(segs.last()));
    assert(normal_segments(segs) == normal_segments(Seq::<Seq<char>>::empty()));
    assert(path_components(Seq::<char>::empty()) =~= Seq::<Seq<char>>::empty());
    assert(path_push(Seq::<char>::empty(), name) =~= name);
}

proof fn lemma_push_plain_ends(base: Seq<char>, name: Seq<char>)
    requires
        is_plain_name(name),
    ensures
        path_push(base, name).len() > 0,
        path_push(base, name).last() != '/',
        path_push(base, name) == (if base.len() > 0 && base.last() != '/' {
            base + seq!['/']
        } else {
            base
        }) + name,
{
    assert(name[0] != '/');
    assert(name.last() == name[name.len() - 1]);
}

/// The file of an entry is its relative path pushed onto the configuration
/// directory, when the component and the entry are plain names.
pub proof fn lemma_configuration_path_is_relative(
    base: Seq<char>,
    component: Seq<char>,
    version: u64,
    entry: Seq<char>,
)
    requires
        is_plain_name(component),
        is_plain_name(entry),
    ensures
        configuration_path(base, component, version, entry) == path_push(
            base,
            relative_path(component, version, entry),
        ),
{
    lemma_version_dir_plain(version);
    let vd = version_dir(version);
    lemma_push_plain_ends(base, component);
    let p1 = path_push(base, component);
    lemma_push_plain_ends(p1, vd);
    let p2 = path_push(p1, vd);
    lemma_push_plain_ends(p2, entry);
    let head = if base.len() > 0 && base.last() != '/' {
        base + seq!['/']
    } else {
        base
    };
    let rel = relative_path(component, version, entry);
    assert(rel[0] == component[0]);
    assert(path_push(base, rel) == head + rel);
    assert(path_push(p2, entry) =~= head + rel);
}

} // verus!
