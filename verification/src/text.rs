//! Character-level text utilities with specifications that mirror the
//! behaviour of the corresponding `str` methods.

use vstd::prelude::*;

verus! {

/// The Unicode `White_Space` property, which `char::is_whitespace` tests.
pub open spec fn is_ws(c: char) -> bool {
    let u = c as u32;
    ||| 0x09 <= u <= 0x0D
    ||| u == 0x20
    ||| u == 0x85
    ||| u == 0xA0
    ||| u == 0x1680
    ||| 0x2000 <= u <= 0x200A
    ||| u == 0x2028
    ||| u == 0x2029
    ||| u == 0x202F
    ||| u == 0x205F
    ||| u == 0x3000
}

/// Tests a character for Unicode whitespace.
pub fn is_whitespace(c: char) -> (b: bool)
    ensures
        b == is_ws(c),
{
    let u = c as u32;
    (0x09 <= u && u <= 0x0D) || u == 0x20 || u == 0x85 || u == 0xA0 || u == 0x1680 || (0x2000
        <= u && u <= 0x200A) || u == 0x2028 || u == 0x2029 || u == 0x202F || u == 0x205F || u
        == 0x3000
}

/// Appends one character to a string.
#[verifier::external_body]
fn push_char(s: &mut String, c: char)
    ensures
        final(s)@ == old(s)@.push(c),
{
    s.push(c);
}

/// The characters of a string slice, in order.
pub fn chars_of(s: &str) -> (v: Vec<char>)
    ensures
        v@ == s@,
{
    let mut v: Vec<char> = Vec::new();
    for c in it: s.chars()
        invariant
            v@ == it.seq().take(it.index() as int),
    {
        v.push(c);
    }
    v
}

/// Builds a string from a sequence of characters.
pub fn string_of(v: &[char]) -> (s: String)
    ensures
        s@ == v@,
{
    let mut s = String::new();
    let mut i: usize = 0;
    while i < v.len()
        invariant
            i <= v@.len(),
            s@ == v@.take(i as int),
        decreases v@.len() - i,
    {
        push_char(&mut s, v[i]);
        i = i + 1;
        assert(v@.take(i as int) == v@.take((i - 1) as int).push(v@[i - 1]));
    }
    assert(v@.take(v@.len() as int) == v@);
    s
}

/// Index of the first occurrence of `c` in `s`, or `s.len()` when absent.
pub open spec fn find(s: Seq<char>, c: char) -> int
    decreases s.len(),
{
    if s.len() == 0 {
        0
    } else if s[0] == c {
        0
    } else {
        1 + find(s.drop_first(), c)
    }
}

/// Index of the first whitespace character of `s`, or `s.len()` when absent.
pub open spec fn find_ws(s: Seq<char>) -> int
    decreases s.len(),
{
    if s.len() == 0 {
        0
    } else if is_ws(s[0]) {
        0
    } else {
        1 + find_ws(s.drop_first())
    }
}

/// Number of leading whitespace characters.
pub open spec fn ws_prefix_len(s: Seq<char>) -> int
    decreases s.len(),
{
    if s.len() > 0 && is_ws(s[0]) {
        1 + ws_prefix_len(s.drop_first())
    } else {
        0
    }
}

/// Number of trailing whitespace characters.
pub open spec fn ws_suffix_len(s: Seq<char>) -> int
    decreases s.len(),
{
    if s.len() > 0 && is_ws(s.last()) {
        1 + ws_suffix_len(s.drop_last())
    } else {
        0
    }
}

/// `str::trim_start`.
pub open spec fn trim_start(s: Seq<char>) -> Seq<char> {
    s.skip(ws_prefix_len(s))
}

/// `str::trim_end`.
pub open spec fn trim_end(s: Seq<char>) -> Seq<char> {
    s.take(s.len() - ws_suffix_len(s))
}

/// `str::trim`.
pub open spec fn trim(s: Seq<char>) -> Seq<char> {
    trim_end(trim_start(s))
}

pub proof fn lemma_find_bounds(s: Seq<char>, c: char)
    ensures
        0 <= find(s, c) <= s.len(),
        forall|i: int| 0 <= i < find(s, c) ==> s[i] != c,
        find(s, c) < s.len() ==> s[find(s, c)] == c,
    decreases s.len(),
{
    if s.len() > 0 && s[0] != c {
        lemma_find_bounds(s.drop_first(), c);
        assert forall|i: int| 0 <= i < find(s, c) implies s[i] != c by {
            if i > 0 {
                assert(s[i] == s.drop_first()[i - 1]);
            }
        }
    }
}

pub proof fn lemma_find_ws_bounds(s: Seq<char>)
    ensures
        0 <= find_ws(s) <= s.len(),
        forall|i: int| 0 <= i < find_ws(s) ==> !is_ws(#[trigger] s[i]),
        find_ws(s) < s.len() ==> is_ws(s[find_ws(s)]),
    decreases s.len(),
{
    if s.len() > 0 && !is_ws(s[0]) {
        lemma_find_ws_bounds(s.drop_first());
        assert forall|i: int| 0 <= i < find_ws(s) implies !is_ws(#[trigger] s[i]) by {
            if i > 0 {
                assert(s[i] == s.drop_first()[i - 1]);
            }
        }
    }
}

pub proof fn lemma_ws_prefix_bounds(s: Seq<char>)
    ensures
        0 <= ws_prefix_len(s) <= s.len(),
        forall|i: int| 0 <= i < ws_prefix_len(s) ==> is_ws(#[trigger] s[i]),
        ws_prefix_len(s) < s.len() ==> !is_ws(s[ws_prefix_len(s)]),
    decreases s.len(),
{
    if s.len() > 0 && is_ws(s[0]) {
        lemma_ws_prefix_bounds(s.drop_first());
        assert forall|i: int| 0 <= i < ws_prefix_len(s) implies is_ws(#[trigger] s[i]) by {
            if i > 0 {
                assert(s[i] == s.drop_first()[i - 1]);
            }
        }
    }
}

pub proof fn lemma_ws_suffix_bounds(s: Seq<char>)
    ensures
        0 <= ws_suffix_len(s) <= s.len(),
        forall|i: int|
            s.len() - ws_suffix_len(s) <= i < s.len() ==> is_ws(#[trigger] s[i]),
        ws_suffix_len(s) < s.len() ==> !is_ws(s[s.len() - ws_suffix_len(s) - 1]),
    decreases s.len(),
{
    if s.len() > 0 && is_ws(s.last()) {
        lemma_ws_suffix_bounds(s.drop_last());
        assert forall|i: int|
            s.len() - ws_suffix_len(s) <= i < s.len() implies is_ws(#[trigger] s[i]) by {
            if i < s.len() - 1 {
                assert(s[i] == s.drop_last()[i]);
            }
        }
    }
}

/// Compares two character sequences for equality.
pub fn chars_eq(a: &[char], b: &[char]) -> (r: bool)
    ensures
        r == (a@ == b@),
{
    if a.len() != b.len() {
        return false;
    }
    let mut i: usize = 0;
    while i < a.len()
        invariant
            a@.len() == b@.len(),
            i <= a@.len(),
            forall|j: int| 0 <= j < i ==> a@[j] == b@[j],
        decreases a@.len() - i,
    {
        if a[i] != b[i] {
            return false;
        }
        i = i + 1;
    }
    assert(a@ =~= b@);
    true
}

/// Copies `v[start..end]` into a new vector.
pub fn copy_range(v: &[char], start: usize, end: usize) -> (r: Vec<char>)
    requires
        start <= end <= v@.len(),
    ensures
        r@ == v@.subrange(start as int, end as int),
{
    let mut r: Vec<char> = Vec::new();
    let mut i = start;
    while i < end
        invariant
            start <= i <= end <= v@.len(),
            r@ == v@.subrange(start as int, i as int),
        decreases end - i,
    {
        r.push(v[i]);
        i = i + 1;
        assert(r@ =~= v@.subrange(start as int, i as int));
    }
    r
}

/// Position of the first `c` in `v` at or after `from`, or `v.len()`.
pub fn find_from(v: &[char], from: usize, c: char) -> (k: usize)
    requires
        from <= v@.len(),
    ensures
        k == from + find(v@.skip(from as int), c),
{
    let mut k = from;
    while k < v.len() && v[k] != c
        invariant
            from <= k <= v@.len(),
            find(v@.skip(from as int), c) == (k - from) + find(v@.skip(k as int), c),
        decreases v@.len() - k,
    {
        assert(v@.skip(k as int).drop_first() =~= v@.skip(k + 1));
        k = k + 1;
    }
    k
}

/// `str::trim` on a character vector.
pub fn trim_chars(v: &[char]) -> (r: Vec<char>)
    ensures
        r@ == trim(v@),
{
    let mut a: usize = 0;
    assert(v@.skip(0) =~= v@);
    while a < v.len() && is_whitespace(v[a])
        invariant
            a <= v@.len(),
            ws_prefix_len(v@) == a + ws_prefix_len(v@.skip(a as int)),
        decreases v@.len() - a,
    {
        assert(v@.skip(a as int).drop_first() =~= v@.skip(a + 1));
        a = a + 1;
    }
    assert(ws_prefix_len(v@.skip(a as int)) == 0);
    let ghost t = trim_start(v@);
    assert(t =~= v@.subrange(a as int, v@.len() as int));
    let mut b: usize = v.len();
    while b > a && is_whitespace(v[b - 1])
        invariant
            a <= b <= v@.len(),
            t == v@.subrange(a as int, v@.len() as int),
            ws_suffix_len(t) == (v@.len() - b) + ws_suffix_len(v@.subrange(a as int, b as int)),
        decreases b,
    {
        assert(v@.subrange(a as int, b as int).drop_last() =~= v@.subrange(a as int, b - 1));
        b = b - 1;
    }
    assert(ws_suffix_len(v@.subrange(a as int, b as int)) == 0);
    let r = copy_range(v, a, b);
    assert(r@ =~= trim(v@));
    r
}

/// Drops one trailing carriage return.
pub open spec fn strip_cr(l: Seq<char>) -> Seq<char> {
    if l.len() > 0 && l.last() == '\r' {
        l.drop_last()
    } else {
        l
    }
}

/// `str::lines`: pieces separated by `\n`, each with one trailing `\r`
/// removed when it precedes the `\n`; a final empty piece is dropped.
pub open spec fn lines(s: Seq<char>) -> Seq<Seq<char>>
    decreases s.len(),
{
    if s.len() == 0 {
        seq![]
    } else if find(s, '\n') >= s.len() {
        seq![s]
    } else {
        proof {
            lemma_find_bounds(s, '\n');
        }
        seq![strip_cr(s.take(find(s, '\n')))] + lines(s.skip(find(s, '\n') + 1))
    }
}

/// `str::split_whitespace`.
pub open spec fn words(s: Seq<char>) -> Seq<Seq<char>>
    decreases s.len(),
{
    let t = trim_start(s);
    if t.len() == 0 {
        seq![]
    } else {
        proof {
            lemma_ws_prefix_bounds(s);
            lemma_find_ws_bounds(t);
            lemma_find_ws_bounds(t.drop_first());
        }
        seq![t.take(find_ws(t))] + words(t.skip(find_ws(t)))
    }
}

/// `str::split_once` with a single-character separator.
pub open spec fn split_once(s: Seq<char>, c: char) -> Option<(Seq<char>, Seq<char>)> {
    if find(s, c) < s.len() {
        Some((s.take(find(s, c)), s.skip(find(s, c) + 1)))
    } else {
        None
    }
}

/// Whether `s` contains `c`.
pub open spec fn has_char(s: Seq<char>, c: char) -> bool {
    exists|i: int| 0 <= i < s.len() && s[i] == c
}

pub proof fn lemma_find_has_char(s: Seq<char>, c: char)
    ensures
        (find(s, c) < s.len()) == has_char(s, c),
{
    lemma_find_bounds(s, c);
    if has_char(s, c) {
        let i = choose|i: int| 0 <= i < s.len() && s[i] == c;
        assert(find(s, c) <= i);
    }
}

pub proof fn lemma_words_skip_ws(s: Seq<char>)
    requires
        s.len() > 0,
        is_ws(s[0]),
    ensures
        words(s) == words(s.drop_first()),
{
    lemma_ws_prefix_bounds(s.drop_first());
    assert(ws_prefix_len(s) == 1 + ws_prefix_len(s.drop_first()));
    assert(trim_start(s) =~= trim_start(s.drop_first()));
}

/// Position of the first whitespace in `v` at or after `from`, or `v.len()`.
pub fn find_ws_from(v: &[char], from: usize) -> (k: usize)
    requires
        from <= v@.len(),
    ensures
        k == from + find_ws(v@.skip(from as int)),
{
    let mut k = from;
    while k < v.len() && !is_whitespace(v[k])
        invariant
            from <= k <= v@.len(),
            find_ws(v@.skip(from as int)) == (k - from) + find_ws(v@.skip(k as int)),
        decreases v@.len() - k,
    {
        assert(v@.skip(k as int).drop_first() =~= v@.skip(k + 1));
        k = k + 1;
    }
    k
}

/// `str::lines` on a character vector.
pub fn lines_of(v: &[char]) -> (r: Vec<Vec<char>>)
    ensures
        r.deep_view() == lines(v@),
{
    let mut out: Vec<Vec<char>> = Vec::new();
    let mut start: usize = 0;
    assert(v@.skip(0) =~= v@);
    while start < v.len()
        invariant
            start <= v@.len(),
            out.deep_view() + lines(v@.skip(start as int)) == lines(v@),
        decreases v@.len() - start,
    {
        let ghost rest = v@.skip(start as int);
        let k = find_from(v, start, '\n');
        proof {
            lemma_find_bounds(rest, '\n');
        }
        if k == v.len() {
            let piece = copy_range(v, start, k);
            assert(piece@ =~= rest);
            assert(lines(rest) == seq![rest]);
            let ghost before = out.deep_view();
            assert(piece.deep_view() =~= piece@);
            out.push(piece);
            assert(out.deep_view() =~= before.push(rest));
            assert(v@.skip(k as int) =~= Seq::<char>::empty());
            start = k;
            assert(out.deep_view() + lines(v@.skip(start as int)) =~= before + lines(rest));
        } else {
            let mut e = k;
            if e > start && v[e - 1] == '\r' {
                e = e - 1;
            }
            let piece = copy_range(v, start, e);
            assert(piece@ =~= strip_cr(rest.take(k - start)));
            assert(rest.skip(k - start + 1) =~= v@.skip(k + 1));
            let ghost before = out.deep_view();
            assert(piece.deep_view() =~= piece@);
            out.push(piece);
            assert(out.deep_view() =~= before.push(piece@));
            start = k + 1;
            assert(out.deep_view() + lines(v@.skip(start as int)) =~= before + lines(rest));
        }
    }
    assert(v@.skip(start as int) =~= Seq::<char>::empty());
    assert(out.deep_view() =~= out.deep_view() + lines(v@.skip(start as int)));
    out
}

/// `str::split_whitespace` on a character vector.
pub fn words_of(v: &[char]) -> (r: Vec<Vec<char>>)
    ensures
        r.deep_view() == words(v@),
{
    let mut out: Vec<Vec<char>> = Vec::new();
    let mut i: usize = 0;
    assert(v@.skip(0) =~= v@);
    while i < v.len()
        invariant
            i <= v@.len(),
            out.deep_view() + words(v@.skip(i as int)) == words(v@),
        decreases v@.len() - i,
    {
        let ghost rest = v@.skip(i as int);
        if is_whitespace(v[i]) {
            proof {
                lemma_words_skip_ws(rest);
                assert(rest.drop_first() =~= v@.skip(i + 1));
            }
            i = i + 1;
        } else {
            let j = find_ws_from(v, i);
            proof {
                lemma_find_ws_bounds(rest);
                assert(ws_prefix_len(rest) == 0);
                assert(trim_start(rest) =~= rest);
                assert(find_ws(rest) > 0);
                assert(rest.skip(j - i) =~= v@.skip(j as int));
            }
            let piece = copy_range(v, i, j);
            assert(piece@ =~= rest.take(j - i));
            let ghost before = out.deep_view();
            assert(piece.deep_view() =~= piece@);
            out.push(piece);
            assert(out.deep_view() =~= before.push(piece@));
            i = j;
            assert(out.deep_view() + words(v@.skip(i as int)) =~= before + words(rest));
        }
    }
    assert(v@.skip(i as int) =~= Seq::<char>::empty());
    assert(words(Seq::<char>::empty()) =~= Seq::<Seq<char>>::empty());
    assert(out.deep_view() =~= out.deep_view() + words(v@.skip(i as int)));
    out
}

/// `str::split_once` on a character vector.
pub fn split_once_chars(v: &[char], c: char) -> (r: Option<(Vec<char>, Vec<char>)>)
    ensures
        match r {
            Some((a, b)) => split_once(v@, c) == Some((a@, b@)),
            None => split_once(v@, c) is None,
        },
{
    assert(v@.skip(0) =~= v@);
    let k = find_from(v, 0, c);
    proof {
        lemma_find_bounds(v@, c);
    }
    if k < v.len() {
        let a = copy_range(v, 0, k);
        let b = copy_range(v, k + 1, v.len());
        assert(a@ =~= v@.take(k as int));
        assert(b@ =~= v@.skip(k + 1));
        Some((a, b))
    } else {
        None
    }
}

/// Whether `v` contains `c`.
pub fn contains_char(v: &[char], c: char) -> (r: bool)
    ensures
        r == has_char(v@, c),
{
    assert(v@.skip(0) =~= v@);
    let k = find_from(v, 0, c);
    proof {
        lemma_find_has_char(v@, c);
    }
    k < v.len()
}

/// Appends the characters of `v` to `out`.
pub fn extend_chars(out: &mut Vec<char>, v: &[char])
    ensures
        final(out)@ == old(out)@ + v@,
{
    let mut i: usize = 0;
    while i < v.len()
        invariant
            i <= v@.len(),
            out@ == old(out)@ + v@.take(i as int),
        decreases v@.len() - i,
    {
        out.push(v[i]);
        i = i + 1;
        assert(out@ =~= old(out)@ + v@.take(i as int));
    }
    assert(v@.take(v@.len() as int) =~= v@);
}

/// Concatenates two string slices.
pub fn concat(a: &str, b: &str) -> (r: String)
    ensures
        r@ == a@ + b@,
{
    let mut v = chars_of(a);
    let w = chars_of(b);
    extend_chars(&mut v, &w);
    string_of(&v)
}

pub proof fn lemma_find_prefix(t: Seq<char>, u: Seq<char>, c: char)
    requires
        find(t, c) < t.len(),
    ensures
        find(t + u, c) == find(t, c),
    decreases t.len(),
{
    if t[0] != c {
        assert((t + u).drop_first() =~= t.drop_first() + u);
        lemma_find_prefix(t.drop_first(), u, c);
    }
}

pub proof fn lemma_find_absent(t: Seq<char>, u: Seq<char>, c: char)
    requires
        find(t, c) == t.len(),
    ensures
        find(t + u, c) == t.len() + find(u, c),
    decreases t.len(),
{
    if t.len() == 0 {
        assert(t + u =~= u);
    } else {
        assert(t[0] != c);
        assert((t + u).drop_first() =~= t.drop_first() + u);
        lemma_find_absent(t.drop_first(), u, c);
    }
}

/// `lines` of a concatenation splits at a boundary that ends a line.
pub proof fn lemma_lines_concat(t: Seq<char>, u: Seq<char>)
    requires
        t.len() == 0 || t.last() == '\n',
    ensures
        lines(t + u) == lines(t) + lines(u),
    decreases t.len(),
{
    if t.len() == 0 {
        assert(t + u =~= u);
        assert(lines(t) =~= Seq::<Seq<char>>::empty());
        assert(lines(t) + lines(u) =~= lines(u));
    } else {
        lemma_find_has_char(t, '\n');
        assert(t[t.len() - 1] == '\n');
        lemma_find_bounds(t, '\n');
        let k = find(t, '\n');
        lemma_find_prefix(t, u, '\n');
        assert((t + u).take(k) =~= t.take(k));
        let rest = t.skip(k + 1);
        assert((t + u).skip(k + 1) =~= rest + u);
        if rest.len() > 0 {
            assert(rest.last() == t.last());
        }
        lemma_lines_concat(rest, u);
        assert(lines(t + u) =~= seq![strip_cr(t.take(k))] + (lines(rest) + lines(u)));
        assert(lines(t) =~= seq![strip_cr(t.take(k))] + lines(rest));
        assert(lines(t + u) =~= lines(t) + lines(u));
    }
}

/// A piece without `\n` followed by `\n` is one line.
pub proof fn lemma_lines_single(l: Seq<char>)
    requires
        !has_char(l, '\n'),
    ensures
        lines(l.push('\n')) == seq![strip_cr(l)],
{
    lemma_find_has_char(l, '\n');
    lemma_find_bounds(l, '\n');
    assert(l.push('\n') =~= l + seq!['\n']);
    lemma_find_absent(l, seq!['\n'], '\n');
    assert(find(seq!['\n'], '\n') == 0);
    let s = l.push('\n');
    assert(s.take(l.len() as int) =~= l);
    assert(s.skip(l.len() as int + 1) =~= Seq::<char>::empty());
    assert(lines(s) =~= seq![strip_cr(l)] + lines(Seq::<char>::empty()));
    assert(lines(Seq::<char>::empty()) =~= Seq::<Seq<char>>::empty());
    assert(lines(s) =~= seq![strip_cr(l)]);
}

proof fn lemma_wpl_concat(x: Seq<char>, y: Seq<char>)
    ensures
        ws_prefix_len(x) < x.len() ==> ws_prefix_len(x + y) == ws_prefix_len(x),
        ws_prefix_len(x) == x.len() ==> ws_prefix_len(x + y) == x.len() + ws_prefix_len(y),
    decreases x.len(),
{
    lemma_ws_prefix_bounds(x);
    if x.len() == 0 {
        assert(x + y =~= y);
    } else if is_ws(x[0]) {
        assert((x + y).drop_first() =~= x.drop_first() + y);
        lemma_wpl_concat(x.drop_first(), y);
    }
}

proof fn lemma_trim_end_push_ws(z: Seq<char>, c: char)
    requires
        is_ws(c),
    ensures
        trim_end(z.push(c)) == trim_end(z),
{
    lemma_ws_suffix_bounds(z);
    assert(z.push(c).drop_last() =~= z);
    assert(ws_suffix_len(z.push(c)) == 1 + ws_suffix_len(z));
    assert(trim_end(z.push(c)) =~= trim_end(z));
}

/// Dropping a trailing carriage return does not change the trimmed text.
pub proof fn lemma_trim_strip_cr(s: Seq<char>)
    ensures
        trim(strip_cr(s)) == trim(s),
{
    if s.len() > 0 && s.last() == '\r' {
        let x = s.drop_last();
        assert(s =~= x + seq!['\r']);
        assert(is_ws('\r'));
        lemma_wpl_concat(x, seq!['\r']);
        lemma_ws_prefix_bounds(x);
        if ws_prefix_len(x) < x.len() {
            assert(trim_start(s) =~= trim_start(x).push('\r'));
            lemma_trim_end_push_ws(trim_start(x), '\r');
        } else {
            assert(ws_prefix_len(seq!['\r']) == 1) by {
                assert(seq!['\r'][0] == '\r');
                assert(is_ws(seq!['\r'][0]));
                assert(seq!['\r'].drop_first() =~= Seq::<char>::empty());
                assert(ws_prefix_len(Seq::<char>::empty()) == 0);
            }
            assert(trim_start(s) =~= Seq::<char>::empty());
            assert(trim_start(x) =~= Seq::<char>::empty());
        }
    }
}

/// Ending an unterminated last line does not change the trimmed lines.
pub proof fn lemma_lines_push_newline(t: Seq<char>)
    requires
        t.len() > 0,
        t.last() != '\n',
    ensures
        lines(t.push('\n')).len() == lines(t).len(),
        forall|i: int|
            0 <= i < lines(t).len() ==> trim(#[trigger] lines(t.push('\n'))[i]) == trim(
                lines(t)[i],
            ),
    decreases t.len(),
{
    lemma_find_bounds(t, '\n');
    let k = find(t, '\n');
    let s = t.push('\n');
    assert(s =~= t + seq!['\n']);
    if k == t.len() {
        lemma_find_absent(t, seq!['\n'], '\n');
        assert(find(seq!['\n'], '\n') == 0);
        assert(s.take(k) =~= t);
        assert(s.skip(k + 1) =~= Seq::<char>::empty());
        assert(lines(s) =~= seq![strip_cr(t)] + lines(Seq::<char>::empty()));
        assert(lines(Seq::<char>::empty()) =~= Seq::<Seq<char>>::empty());
        assert(lines(s) =~= seq![strip_cr(t)]);
        assert(lines(t) =~= seq![t]);
        lemma_trim_strip_cr(t);
    } else {
        lemma_find_prefix(t, seq!['\n'], '\n');
        assert(k < t.len() - 1);
        let rest = t.skip(k + 1);
        assert(s.take(k) =~= t.take(k));
        assert(s.skip(k + 1) =~= rest.push('\n'));
        assert(rest.last() == t.last());
        lemma_lines_push_newline(rest);
        assert(lines(s) =~= seq![strip_cr(t.take(k))] + lines(rest.push('\n')));
        assert(lines(t) =~= seq![strip_cr(t.take(k))] + lines(rest));
        assert forall|i: int| 0 <= i < lines(t).len() implies trim(
            #[trigger] lines(s)[i],
        ) == trim(lines(t)[i]) by {
            if i > 0 {
                assert(lines(s)[i] == lines(rest.push('\n'))[i - 1]);
                assert(lines(t)[i] == lines(rest)[i - 1]);
            }
        }
    }
}

/// `t` is the piece of `s` that starts at `p`, with only whitespace before
/// and after it in `s`.
pub open spec fn ws_surrounded(s: Seq<char>, t: Seq<char>, p: int) -> bool {
    &&& 0 <= p
    &&& p + t.len() <= s.len()
    &&& t == s.subrange(p, p + t.len())
    &&& forall|i: int| 0 <= i < p ==> is_ws(#[trigger] s[i])
    &&& forall|i: int| p + t.len() <= i < s.len() ==> is_ws(#[trigger] s[i])
}

/// Trimming removes exactly the whitespace around a text: the result is a
/// contiguous piece of it with only whitespace before and after, and a
/// non-empty result starts and ends with a character that is not
/// whitespace.
pub proof fn trim_removes_surrounding_whitespace(s: Seq<char>)
    ensures
        exists|p: int| #[trigger] ws_surrounded(s, trim(s), p),
        trim(s).len() > 0 ==> !is_ws(trim(s)[0]) && !is_ws(trim(s).last()),
{
    let p = ws_prefix_len(s);
    lemma_ws_prefix_bounds(s);
    let t0 = trim_start(s);
    lemma_ws_suffix_bounds(t0);
    let q = ws_suffix_len(t0);
    let t = trim(s);
    assert(t == t0.take(t0.len() - q));
    assert(t =~= s.subrange(p, p + t.len()));
    assert forall|i: int| p + t.len() <= i < s.len() implies is_ws(#[trigger] s[i]) by {
        assert(s[i] == t0[i - p]);
    }
    assert(ws_surrounded(s, t, p));
    if t.len() > 0 {
        assert(t[0] == t0[0]);
        assert(t0[0] == s[p]);
        assert(t.last() == t0[t0.len() - q - 1]);
    }
}

proof fn lemma_find_ws_word(w: Seq<char>, rest: Seq<char>)
    requires
        forall|i: int| 0 <= i < w.len() ==> !is_ws(#[trigger] w[i]),
        rest.len() == 0 || is_ws(rest[0]),
    ensures
        find_ws(w + rest) == w.len(),
    decreases w.len(),
{
    if w.len() == 0 {
        assert(w + rest =~= rest);
    } else {
        assert((w + rest)[0] == w[0]);
        assert((w + rest).drop_first() =~= w.drop_first() + rest);
        assert forall|i: int| 0 <= i < w.drop_first().len() implies !is_ws(
            #[trigger] w.drop_first()[i],
        ) by {
            assert(w.drop_first()[i] == w[i + 1]);
        }
        lemma_find_ws_word(w.drop_first(), rest);
    }
}

/// The words of a text are its maximal runs of non-whitespace characters,
/// in order: there are none in an empty text, leading whitespace is skipped,
/// and a run of non-whitespace followed by whitespace (or the end) is the
/// first word.
pub proof fn words_are_the_runs_of_non_whitespace(c: char, w: Seq<char>, rest: Seq<char>)
    ensures
        words(Seq::<char>::empty()) == Seq::<Seq<char>>::empty(),
        is_ws(c) ==> words(seq![c] + rest) == words(rest),
        w.len() > 0 && (forall|i: int| 0 <= i < w.len() ==> !is_ws(#[trigger] w[i])) && (rest.len()
            == 0 || is_ws(rest[0])) ==> words(w + rest) == seq![w] + words(rest),
{
    assert(trim_start(Seq::<char>::empty()).len() == 0);
    if is_ws(c) {
        let s = seq![c] + rest;
        assert(s[0] == c);
        assert(s.drop_first() =~= rest);
        lemma_words_skip_ws(s);
    }
    if w.len() > 0 && (forall|i: int| 0 <= i < w.len() ==> !is_ws(#[trigger] w[i])) && (rest.len()
        == 0 || is_ws(rest[0])) {
        let s = w + rest;
        assert(s[0] == w[0]);
        assert(!is_ws(s[0]));
        assert(ws_prefix_len(s) == 0);
        assert(trim_start(s) =~= s);
        lemma_find_ws_word(w, rest);
        assert(s.take(w.len() as int) =~= w);
        assert(s.skip(w.len() as int) =~= rest);
    }
}

/// `lines` splits a text at each `\n`: an empty text has no lines, a piece
/// ended by `\n` is one line (without one trailing `\r`) followed by the
/// lines of the rest, and a final piece without `\n` is the last line.
pub proof fn lines_split_at_newlines(l: Seq<char>, rest: Seq<char>)
    ensures
        lines(Seq::<char>::empty()) == Seq::<Seq<char>>::empty(),
        !has_char(l, '\n') ==> lines(l.push('\n') + rest) == seq![strip_cr(l)] + lines(rest),
        !has_char(l, '\n') && l.len() > 0 ==> lines(l) == seq![l],
{
    if !has_char(l, '\n') {
        lemma_lines_concat(l.push('\n'), rest);
        lemma_lines_single(l);
        lemma_find_has_char(l, '\n');
        lemma_find_bounds(l, '\n');
    }
}

} // verus!
