//! Character-level string helpers shared by the parsers.
//!
//! Text is handled as `Vec<char>` and spans `(start, end)` into it; the
//! specifications speak of `Seq<char>`, the view of `String` and `&str`.

use vstd::prelude::*;

verus! {

/// Whether `c` has the Unicode `White_Space` property, which is what
/// `char::is_whitespace` (and therefore `str::trim`) tests.
pub open spec fn is_ws(c: char) -> bool {
    let u = c as u32;
    ||| (0x9 <= u && u <= 0xd)
    ||| u == 0x20
    ||| u == 0x85
    ||| u == 0xa0
    ||| u == 0x1680
    ||| (0x2000 <= u && u <= 0x200a)
    ||| u == 0x2028
    ||| u == 0x2029
    ||| u == 0x202f
    ||| u == 0x205f
    ||| u == 0x3000
}

pub fn is_whitespace(c: char) -> (r: bool)
    ensures
        r == is_ws(c),
{
    let u: u32 = c as u32;
    (0x9 <= u && u <= 0xd) || u == 0x20 || u == 0x85 || u == 0xa0 || u == 0x1680 || (0x2000 <= u
        && u <= 0x200a) || u == 0x2028 || u == 0x2029 || u == 0x202f || u == 0x205f || u == 0x3000
}

/// `s` with leading whitespace removed.
pub open spec fn trim_start(s: Seq<char>) -> Seq<char>
    decreases s.len(),
{
    if s.len() > 0 && is_ws(s[0]) {
        trim_start(s.drop_first())
    } else {
        s
    }
}

/// `s` with trailing whitespace removed.
pub open spec fn trim_end(s: Seq<char>) -> Seq<char>
    decreases s.len(),
{
    if s.len() > 0 && is_ws(s.last()) {
        trim_end(s.drop_last())
    } else {
        s
    }
}

/// `s` with whitespace removed from both ends, as `str::trim` does.
pub open spec fn trim(s: Seq<char>) -> Seq<char> {
    trim_end(trim_start(s))
}

/// `s` without its leading run of `c`, as `str::trim_start_matches(c)` gives.
pub open spec fn strip_leading(s: Seq<char>, c: char) -> Seq<char>
    decreases s.len(),
{
    if s.len() > 0 && s[0] == c {
        strip_leading(s.drop_first(), c)
    } else {
        s
    }
}

/// `s` split at every occurrence of `d`, as `str::split(d)` gives: there is
/// always one more piece than there are separators.
pub open spec fn split_on(s: Seq<char>, d: char) -> Seq<Seq<char>>
    decreases s.len(),
{
    if s.len() == 0 {
        seq![Seq::<char>::empty()]
    } else {
        let rest = split_on(s.drop_last(), d);
        if s.last() == d {
            rest.push(Seq::<char>::empty())
        } else {
            rest.update(rest.len() - 1, rest.last().push(s.last()))
        }
    }
}

pub proof fn lemma_split_on_nonempty(s: Seq<char>, d: char)
    ensures
        split_on(s, d).len() >= 1,
    decreases s.len(),
{
    if s.len() > 0 {
        lemma_split_on_nonempty(s.drop_last(), d);
    }
}

/// Whether `sub` occurs in `s` at some position, as `str::contains` tests.
pub open spec fn contains_seq(s: Seq<char>, sub: Seq<char>) -> bool {
    exists|i: int| 0 <= i && i + sub.len() <= s.len() && #[trigger] s.subrange(i, i + sub.len()) == sub
}

/// ASCII lower-casing of one character, as `char::to_ascii_lowercase`.
pub open spec fn ascii_lower(c: char) -> char {
    if 'A' <= c && c <= 'Z' {
        ((c as u32) + 32) as char
    } else {
        c
    }
}

/// Equality up to ASCII case, as `str::eq_ignore_ascii_case` tests.
pub open spec fn eq_ignore_ascii_case(a: Seq<char>, b: Seq<char>) -> bool {
    a.len() == b.len() && forall|i: int| 0 <= i < a.len() ==> ascii_lower(#[trigger] a[i]) == ascii_lower(b[i])
}

/// `base` joined with `rel` the way `Path::join` does on Unix: an absolute
/// `rel` replaces `base`, otherwise a `/` is inserted unless `base` is empty
/// or already ends with one.
pub open spec fn join_path(base: Seq<char>, rel: Seq<char>) -> Seq<char> {
    if rel.len() > 0 && rel[0] == '/' {
        rel
    } else if base.len() > 0 && base.last() != '/' {
        base + seq!['/'] + rel
    } else {
        base + rel
    }
}

/// The named components of a path: the pieces between `/` separators, with
/// empty pieces and `.` pieces left out, as `Path::components` yields them.
pub open spec fn path_parts(p: Seq<char>) -> Seq<Seq<char>> {
    named_parts(split_on(p, '/'))
}

/// Whether a piece between separators names a path component.
pub open spec fn is_named(part: Seq<char>) -> bool {
    part.len() > 0 && part != seq!['.']
}

/// The pieces of `ps` that name components, in order.
pub open spec fn named_parts(ps: Seq<Seq<char>>) -> Seq<Seq<char>>
    decreases ps.len(),
{
    if ps.len() == 0 {
        ps
    } else {
        let sub = named_parts(ps.drop_last());
        if is_named(ps.last()) {
            sub.push(ps.last())
        } else {
            sub
        }
    }
}

/// What `Path::file_name` returns: the last component unless it is `..`.
pub open spec fn file_name(p: Seq<char>) -> Option<Seq<char>> {
    let parts = path_parts(p);
    if parts.len() == 0 || parts.last() == seq!['.', '.'] {
        None
    } else {
        Some(parts.last())
    }
}

/// What `Path::parent` followed by `file_name` returns: the component before
/// the last, unless there is none or it is `..`.
pub open spec fn parent_name(p: Seq<char>) -> Option<Seq<char>> {
    let parts = path_parts(p);
    if parts.len() < 2 || parts[parts.len() - 2] == seq!['.', '.'] {
        None
    } else {
        Some(parts[parts.len() - 2])
    }
}

/// Appends one character to a `String` (`String::push`).
#[verifier::external_body]
pub(crate) fn push_char(s: &mut String, c: char)
    ensures
        final(s)@ == old(s)@.push(c),
{
    s.push(c);
}

/// The characters of `s`, in order.
pub fn chars_of(s: &str) -> (r: Vec<char>)
    ensures
        r@ == s@,
{
    let mut v: Vec<char> = Vec::new();
    for c in it: s.chars()
        invariant
            v@ == it.seq().take(it.index() as int),
            it.seq() == s@,
    {
        v.push(c);
    }
    v
}

/// A `String` holding the characters `v[lo..hi]`.
pub fn string_of(v: &Vec<char>, lo: usize, hi: usize) -> (r: String)
    requires
        lo <= hi <= v.len(),
    ensures
        r@ == v@.subrange(lo as int, hi as int),
{
    let mut s = String::new();
    let mut i: usize = lo;
    while i < hi
        invariant
            lo <= i <= hi <= v.len(),
            s@ == v@.subrange(lo as int, i as int),
        decreases hi - i,
    {
        push_char(&mut s, v[i]);
        assert(v@.subrange(lo as int, i + 1) =~= v@.subrange(lo as int, i as int).push(v[i as int]));
        i += 1;
    }
    s
}

/// A `String` holding all of `v`.
pub fn string_of_all(v: &Vec<char>) -> (r: String)
    ensures
        r@ == v@,
{
    let r = string_of(v, 0, v.len());
    assert(v@.subrange(0, v@.len() as int) =~= v@);
    r
}

/// The span of `v[lo..hi]` that is left after trimming whitespace.
pub fn trim_span(v: &Vec<char>, lo: usize, hi: usize) -> (r: (usize, usize))
    requires
        lo <= hi <= v.len(),
    ensures
        lo <= r.0 <= r.1 <= hi,
        v@.subrange(r.0 as int, r.1 as int) == trim(v@.subrange(lo as int, hi as int)),
{
    let mut a: usize = lo;
    while a < hi && is_whitespace(v[a])
        invariant
            lo <= a <= hi <= v.len(),
            trim_start(v@.subrange(lo as int, hi as int)) == trim_start(
                v@.subrange(a as int, hi as int),
            ),
        decreases hi - a,
    {
        assert(v@.subrange(a as int, hi as int).drop_first() =~= v@.subrange(a + 1, hi as int));
        a += 1;
    }
    if a < hi {
        assert(v@.subrange(a as int, hi as int)[0] == v@[a as int]);
    }
    assert(trim_start(v@.subrange(lo as int, hi as int)) == v@.subrange(a as int, hi as int));
    let mut b: usize = hi;
    while b > a && is_whitespace(v[b - 1])
        invariant
            lo <= a <= b <= hi <= v.len(),
            trim_end(v@.subrange(a as int, hi as int)) == trim_end(v@.subrange(a as int, b as int)),
        decreases b - a,
    {
        assert(v@.subrange(a as int, b as int).drop_last() =~= v@.subrange(a as int, b - 1));
        b -= 1;
    }
    if b > a {
        assert(v@.subrange(a as int, b as int).last() == v@[b - 1]);
    }
    (a, b)
}

/// The span of `v[lo..hi]` left after dropping its leading run of `c`.
pub fn strip_leading_span(v: &Vec<char>, lo: usize, hi: usize, c: char) -> (r: usize)
    requires
        lo <= hi <= v.len(),
    ensures
        lo <= r <= hi,
        v@.subrange(r as int, hi as int) == strip_leading(v@.subrange(lo as int, hi as int), c),
{
    let mut a: usize = lo;
    while a < hi && v[a] == c
        invariant
            lo <= a <= hi <= v.len(),
            strip_leading(v@.subrange(lo as int, hi as int), c) == strip_leading(
                v@.subrange(a as int, hi as int),
                c,
            ),
        decreases hi - a,
    {
        assert(v@.subrange(a as int, hi as int).drop_first() =~= v@.subrange(a + 1, hi as int));
        a += 1;
    }
    if a < hi {
        assert(v@.subrange(a as int, hi as int)[0] == v@[a as int]);
    }
    a
}

/// Whether `v[lo..hi]` equals `w`.
pub fn span_eq(v: &Vec<char>, lo: usize, hi: usize, w: &Vec<char>) -> (r: bool)
    requires
        lo <= hi <= v.len(),
    ensures
        r == (v@.subrange(lo as int, hi as int) == w@),
{
    if hi - lo != w.len() {
        return false;
    }
    let mut i: usize = 0;
    while i < w.len()
        invariant
            lo <= hi <= v.len(),
            hi - lo == w.len(),
            i <= w.len(),
            forall|k: int| 0 <= k < i ==> v@[lo + k] == w@[k],
        decreases w.len() - i,
    {
        if v[lo + i] != w[i] {
            assert(v@.subrange(lo as int, hi as int)[i as int] != w@[i as int]);
            return false;
        }
        i += 1;
    }
    assert(v@.subrange(lo as int, hi as int) =~= w@);
    true
}

/// Whether `v[lo..hi]` equals `w` up to ASCII case.
pub fn span_eq_ignore_ascii_case(v: &Vec<char>, lo: usize, hi: usize, w: &Vec<char>) -> (r: bool)
    requires
        lo <= hi <= v.len(),
    ensures
        r == eq_ignore_ascii_case(v@.subrange(lo as int, hi as int), w@),
{
    if hi - lo != w.len() {
        return false;
    }
    let mut i: usize = 0;
    while i < w.len()
        invariant
            lo <= hi <= v.len(),
            hi - lo == w.len(),
            i <= w.len(),
            forall|k: int| 0 <= k < i ==> ascii_lower(v@[lo + k]) == ascii_lower(w@[k]),
        decreases w.len() - i,
    {
        let a = to_ascii_lower(v[lo + i]);
        let b = to_ascii_lower(w[i]);
        if a != b {
            assert(v@.subrange(lo as int, hi as int)[i as int] == v@[lo + i]);
            return false;
        }
        i += 1;
    }
    assert forall|k: int| 0 <= k < w@.len() implies ascii_lower(
        #[trigger] v@.subrange(lo as int, hi as int)[k],
    ) == ascii_lower(w@[k]) by {
        assert(v@.subrange(lo as int, hi as int)[k] == v@[lo + k]);
    }
    true
}

fn to_ascii_lower(c: char) -> (r: char)
    ensures
        r == ascii_lower(c),
{
    if 'A' <= c && c <= 'Z' {
        let u: u32 = (c as u32) + 32;
        assert(0x61 <= u <= 0x7a);
        char_from_ascii(u)
    } else {
        c
    }
}

fn char_from_ascii(u: u32) -> (r: char)
    requires
        u < 128,
    ensures
        r == u as char,
{
    let b: u8 = u as u8;
    b as char
}

/// Whether `s` occurs in `t` (`str::contains`).
pub fn contains(t: &Vec<char>, s: &Vec<char>) -> (r: bool)
    ensures
        r == contains_seq(t@, s@),
{
    if s.len() > t.len() {
        assert forall|i: int| 0 <= i && i + s@.len() <= t@.len() implies #[trigger] t@.subrange(
            i,
            i + s@.len(),
        ) != s@ by {}
        return false;
    }
    let last = t.len() - s.len();
    let mut i: usize = 0;
    while i <= last
        invariant
            last == t.len() - s.len(),
            s.len() <= t.len(),
            i <= last + 1,
            forall|j: int| 0 <= j < i ==> #[trigger] t@.subrange(j, j + s@.len()) != s@,
        decreases last + 1 - i,
    {
        if span_eq(t, i, i + s.len(), s) {
            return true;
        }
        if i == last {
            return false;
        }
        i += 1;
    }
    false
}

/// `base` joined with `rel` (`Path::join`).
pub fn join(base: &Vec<char>, rel: &Vec<char>) -> (r: Vec<char>)
    ensures
        r@ == join_path(base@, rel@),
{
    if rel.len() > 0 && rel[0] == '/' {
        return rel.clone();
    }
    let mut out = base.clone();
    if base.len() > 0 && base[base.len() - 1] != '/' {
        out.push('/');
    }
    let mut i: usize = 0;
    let ghost start = out@;
    while i < rel.len()
        invariant
            i <= rel.len(),
            out@ == start + rel@.take(i as int),
        decreases rel.len() - i,
    {
        out.push(rel[i]);
        assert(rel@.take(i + 1) =~= rel@.take(i as int).push(rel@[i as int]));
        i += 1;
    }
    assert(rel@.take(rel@.len() as int) =~= rel@);
    proof {
        if base@.len() > 0 && base@.last() != '/' {
            assert(base@.last() == base@[base@.len() - 1]);
        }
    }
    out
}

/// The spans of the pieces of `v` between occurrences of `d`.
pub fn split_spans(v: &Vec<char>, d: char) -> (r: Vec<(usize, usize)>)
    ensures
        r@.len() == split_on(v@, d).len(),
        forall|k: int|
            0 <= k < r@.len() ==> {
                &&& r@[k].0 <= r@[k].1 <= v@.len()
                &&& v@.subrange(#[trigger] r@[k].0 as int, r@[k].1 as int) == split_on(v@, d)[k]
            },
{
    let mut spans: Vec<(usize, usize)> = Vec::new();
    let mut start: usize = 0;
    let mut i: usize = 0;
    assert(v@.take(0) =~= Seq::<char>::empty());
    while i < v.len()
        invariant
            start <= i <= v.len(),
            split_on(v@.take(i as int), d).len() == spans@.len() + 1,
            split_on(v@.take(i as int), d).last() == v@.subrange(start as int, i as int),
            forall|k: int|
                0 <= k < spans@.len() ==> {
                    &&& spans@[k].0 <= spans@[k].1 <= v@.len()
                    &&& v@.subrange(#[trigger] spans@[k].0 as int, spans@[k].1 as int) == split_on(
                        v@.take(i as int),
                        d,
                    )[k]
                },
        decreases v.len() - i,
    {
        let ghost before = split_on(v@.take(i as int), d);
        assert(v@.take(i + 1).drop_last() =~= v@.take(i as int));
        assert(v@.take(i + 1).last() == v@[i as int]);
        if v[i] == d {
            spans.push((start, i));
            start = i + 1;
            assert(v@.subrange(start as int, i + 1) =~= Seq::<char>::empty());
        } else {
            assert(v@.subrange(start as int, i + 1) =~= v@.subrange(start as int, i as int).push(
                v@[i as int],
            ));
        }
        i += 1;
    }
    spans.push((start, i));
    assert(v@.take(v@.len() as int) =~= v@);
    spans
}

/// The spans of the named components of the path `p`.
pub fn path_part_spans(p: &Vec<char>) -> (r: Vec<(usize, usize)>)
    ensures
        r@.len() == path_parts(p@).len(),
        forall|k: int|
            0 <= k < r@.len() ==> {
                &&& r@[k].0 <= r@[k].1 <= p@.len()
                &&& p@.subrange(#[trigger] r@[k].0 as int, r@[k].1 as int) == path_parts(p@)[k]
            },
{
    let spans = split_spans(p, '/');
    let ghost pieces = split_on(p@, '/');
    let mut out: Vec<(usize, usize)> = Vec::new();
    let dot = vec!['.'];
    let mut i: usize = 0;
    let ghost mut np: Seq<Seq<char>> = named_parts(pieces.take(0));
    while i < spans.len()
        invariant
            i <= spans@.len() == pieces.len(),
            pieces == split_on(p@, '/'),
            dot@ == seq!['.'],
            forall|k: int|
                0 <= k < spans@.len() ==> {
                    &&& spans@[k].0 <= spans@[k].1 <= p@.len()
                    &&& p@.subrange(#[trigger] spans@[k].0 as int, spans@[k].1 as int) == pieces[k]
                },
            np == named_parts(pieces.take(i as int)),
            out@.len() == np.len(),
            forall|k: int|
                0 <= k < out@.len() ==> {
                    &&& out@[k].0 <= out@[k].1 <= p@.len()
                    &&& p@.subrange(#[trigger] out@[k].0 as int, out@[k].1 as int) == np[k]
                },
        decreases spans@.len() - i,
    {
        let (a, b) = spans[i];
        assert(pieces.take(i + 1).drop_last() =~= pieces.take(i as int));
        assert(pieces.take(i + 1).last() == pieces[i as int]);
        let is_dot = span_eq(p, a, b, &dot);
        let ghost before = out@;
        assert(p@.subrange(spans@[i as int].0 as int, spans@[i as int].1 as int) == pieces[i as int]);
        assert(is_named(pieces[i as int]) == (b > a && !is_dot));
        let ghost np_old = named_parts(pieces.take(i as int));
        let ghost np_new = named_parts(pieces.take(i + 1));
        assert(np_new == if is_named(pieces[i as int]) {
            np_old.push(pieces[i as int])
        } else {
            np_old
        });
        if b > a && !is_dot {
            out.push((a, b));
        }
        i += 1;
        assert(np_new == named_parts(pieces.take(i as int)));
        assert forall|k: int| 0 <= k < out@.len() implies {
            &&& out@[k].0 <= out@[k].1 <= p@.len()
            &&& p@.subrange(#[trigger] out@[k].0 as int, out@[k].1 as int) == np_new[k]
        } by {
            if k < before.len() {
                assert(out@[k] == before[k]);
                assert(np_new[k] == np_old[k]);
            } else {
                assert(out@[k] == (a, b));
                assert(np_new[k] == pieces[i - 1]);
            }
        }
        proof {
            np = np_new;
        }
    }
    assert(pieces.take(spans@.len() as int) =~= pieces);
    out
}

/// `Path::file_name` of `p`.
pub fn file_name_of(p: &Vec<char>) -> (r: Option<Vec<char>>)
    ensures
        match r {
            Some(v) => file_name(p@) == Some(v@),
            None => file_name(p@) is None,
        },
{
    let parts = path_part_spans(p);
    if parts.len() == 0 {
        return None;
    }
    let (a, b) = parts[parts.len() - 1];
    let dotdot = vec!['.', '.'];
    assert(dotdot@ =~= seq!['.', '.']);
    if span_eq(p, a, b, &dotdot) {
        None
    } else {
        let mut v: Vec<char> = Vec::new();
        let mut i: usize = a;
        while i < b
            invariant
                a <= i <= b <= p.len(),
                v@ == p@.subrange(a as int, i as int),
            decreases b - i,
        {
            v.push(p[i]);
            assert(p@.subrange(a as int, i + 1) =~= p@.subrange(a as int, i as int).push(p@[i as int]));
            i += 1;
        }
        Some(v)
    }
}

/// `Path::parent` followed by `file_name` of `p`, as a `String`.
pub fn parent_name_of(p: &Vec<char>) -> (r: Option<String>)
    ensures
        match r {
            Some(v) => parent_name(p@) == Some(v@),
            None => parent_name(p@) is None,
        },
{
    let parts = path_part_spans(p);
    if parts.len() < 2 {
        return None;
    }
    let (a, b) = parts[parts.len() - 2];
    let dotdot = vec!['.', '.'];
    assert(dotdot@ =~= seq!['.', '.']);
    if span_eq(p, a, b, &dotdot) {
        None
    } else {
        Some(string_of(p, a, b))
    }
}

/// Non-negative integers in decimal, as `format!("{}", n)` writes them.
pub open spec fn decimal(n: nat) -> Seq<char>
    decreases n,
{
    if n < 10 {
        seq![digit_char(n)]
    } else {
        decimal(n / 10).push(digit_char(n % 10))
    }
}

pub open spec fn digit_char(d: nat) -> char {
    ((d + 0x30) as u32) as char
}

/// `n` written in decimal.
pub fn decimal_string(n: u32) -> (r: Vec<char>)
    ensures
        r@ == decimal(n as nat),
    decreases n,
{
    if n < 10 {
        let c = char_from_ascii(n + 0x30);
        let mut v = Vec::new();
        v.push(c);
        assert(v@ =~= seq![digit_char(n as nat)]);
        v
    } else {
        let mut v = decimal_string(n / 10);
        let c = char_from_ascii(n % 10 + 0x30);
        v.push(c);
        v
    }
}

/// Whether `i` is the position of the first `c` in `s`.
pub open spec fn is_first(s: Seq<char>, c: char, i: int) -> bool {
    0 <= i < s.len() && s[i] == c && forall|j: int| 0 <= j < i ==> s[j] != c
}

/// `s` split around its first `c`, as `str::split_once(c)` gives.
pub open spec fn split_once(s: Seq<char>, c: char) -> Option<(Seq<char>, Seq<char>)> {
    if exists|i: int| is_first(s, c, i) {
        let i = choose|i: int| is_first(s, c, i);
        Some((s.take(i), s.skip(i + 1)))
    } else {
        None
    }
}

pub proof fn lemma_split_once_at(s: Seq<char>, c: char, i: int)
    requires
        is_first(s, c, i),
    ensures
        split_once(s, c) == Some((s.take(i), s.skip(i + 1))),
{
    let j = choose|j: int| is_first(s, c, j);
    assert(is_first(s, c, j));
    if j < i {
        assert(s[j] != c);
    } else if j > i {
        assert(s[i] != c);
    }
}

pub proof fn lemma_split_once_none(s: Seq<char>, c: char)
    requires
        forall|j: int| 0 <= j < s.len() ==> s[j] != c,
    ensures
        split_once(s, c) is None,
{
}

/// The position of the first `c` in `v[lo..hi]`, or `hi` when there is none.
pub fn find_char(v: &Vec<char>, lo: usize, hi: usize, c: char) -> (r: usize)
    requires
        lo <= hi <= v.len(),
    ensures
        lo <= r <= hi,
        forall|j: int| lo <= j < r ==> v@[j] != c,
        r < hi ==> v@[r as int] == c,
{
    let mut e: usize = lo;
    while e < hi && v[e] != c
        invariant
            lo <= e <= hi <= v.len(),
            forall|j: int| lo <= j < e ==> v@[j] != c,
        decreases hi - e,
    {
        e += 1;
    }
    e
}

} // verus!
