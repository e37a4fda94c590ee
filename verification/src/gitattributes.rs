//! Maintenance of the filter and diff attribute lines in `.gitattributes`.

use vstd::prelude::*;
use crate::models::strings_view;
use crate::text::{
    chars_eq, chars_of, extend_chars, has_char, lemma_lines_concat, lemma_lines_push_newline,
    lemma_lines_single, lemma_trim_strip_cr, lines, strip_cr, lines_of, string_of, trim, trim_chars,
};

verus! {

/// The attribute line for one pattern: `!p` excludes `p` from the filter and
/// the diff driver, any other pattern is routed through both.
pub open spec fn attribute_line(pattern: Seq<char>) -> Seq<char> {
    if pattern.len() > 0 && pattern[0] == '!' {
        pattern.drop_first() + " !filter !diff"@
    } else {
        pattern + " filter=git-sshripped diff=git-sshripped"@
    }
}

/// Whether some line of `text`, trimmed, equals `line`.
pub open spec fn has_line(text: Seq<char>, line: Seq<char>) -> bool {
    exists|i: int| 0 <= i < lines(text).len() && trim(#[trigger] lines(text)[i]) == line
}

/// `text` with `line` appended on a line of its own.
pub open spec fn append_line(text: Seq<char>, line: Seq<char>) -> Seq<char> {
    let base = if text.len() > 0 && text.last() != '\n' {
        text.push('\n')
    } else {
        text
    };
    base + line + seq!['\n']
}

/// `text` after making sure the attribute line of `pattern` is present.
pub open spec fn add_attribute(text: Seq<char>, pattern: Seq<char>) -> Seq<char> {
    if has_line(text, attribute_line(pattern)) {
        text
    } else {
        append_line(text, attribute_line(pattern))
    }
}

/// `text` after adding the attribute lines of `patterns`, in order.
pub open spec fn install_attributes(text: Seq<char>, patterns: Seq<Seq<char>>) -> Seq<char>
    decreases patterns.len(),
{
    if patterns.len() == 0 {
        text
    } else {
        install_attributes(add_attribute(text, patterns[0]), patterns.drop_first())
    }
}

/// The attribute line of a pattern.
pub fn attribute_line_of(pattern: &[char]) -> (r: Vec<char>)
    ensures
        r@ == attribute_line(pattern@),
{
    if pattern.len() > 0 && pattern[0] == '!' {
        let mut r = crate::text::copy_range(pattern, 1, pattern.len());
        assert(r@ =~= pattern@.drop_first());
        let suffix = chars_of(" !filter !diff");
        extend_chars(&mut r, &suffix);
        r
    } else {
        let mut r: Vec<char> = Vec::new();
        extend_chars(&mut r, pattern);
        let suffix = chars_of(" filter=git-sshripped diff=git-sshripped");
        extend_chars(&mut r, &suffix);
        assert(r@ =~= attribute_line(pattern@));
        r
    }
}

proof fn lemma_char_vec_deep_view(v: Vec<char>)
    ensures
        v.deep_view() == v@,
{
    assert(v.deep_view() =~= v@);
}

/// Whether some line of `text`, trimmed, equals `line`.
pub fn text_has_line(text: &[char], line: &[char]) -> (r: bool)
    ensures
        r == has_line(text@, line@),
{
    let ls = lines_of(text);
    let mut i: usize = 0;
    while i < ls.len()
        invariant
            i <= ls@.len(),
            ls.deep_view() == lines(text@),
            forall|j: int| 0 <= j < i ==> trim(#[trigger] lines(text@)[j]) != line@,
        decreases ls@.len() - i,
    {
        proof {
            lemma_char_vec_deep_view(ls@[i as int]);
        }
        assert(ls@[i as int]@ == lines(text@)[i as int]);
        let t = trim_chars(ls[i].as_slice());
        if chars_eq(t.as_slice(), line) {
            return true;
        }
        i = i + 1;
    }
    false
}

/// Adds the filter and diff attribute lines of `patterns` to the text of a
/// `.gitattributes` file, skipping each line that is already present (a line
/// counts as present when some existing line equals it once trimmed).
pub fn install_gitattributes(existing: &str, patterns: &[String]) -> (r: String)
    ensures
        r@ == install_attributes(existing@, strings_view(patterns@)),
{
    let mut text = chars_of(existing);
    let mut i: usize = 0;
    let ghost ps = strings_view(patterns@);
    assert(ps.skip(0) =~= ps);
    while i < patterns.len()
        invariant
            i <= patterns@.len(),
            ps == strings_view(patterns@),
            install_attributes(existing@, ps) == install_attributes(text@, ps.skip(i as int)),
        decreases patterns@.len() - i,
    {
        let p = chars_of(patterns[i].as_str());
        let line = attribute_line_of(p.as_slice());
        let ghost before = text@;
        if !text_has_line(text.as_slice(), line.as_slice()) {
            if text.len() > 0 && text[text.len() - 1] != '\n' {
                text.push('\n');
            }
            extend_chars(&mut text, line.as_slice());
            text.push('\n');
        }
        assert(text@ =~= add_attribute(before, ps[i as int]));
        assert(ps.skip(i as int).drop_first() =~= ps.skip(i + 1));
        i = i + 1;
    }
    assert(ps.skip(i as int) =~= Seq::<Seq<char>>::empty());
    string_of(text.as_slice())
}

/// Whether the attribute line of `pattern` is one line that reads back as
/// itself once trimmed (it holds no `\n` and no leading or trailing
/// whitespace).
pub open spec fn is_plain_attribute_pattern(pattern: Seq<char>) -> bool {
    !has_char(attribute_line(pattern), '\n') && trim(attribute_line(pattern)) == attribute_line(
        pattern,
    )
}

proof fn lemma_append_line(text: Seq<char>, line: Seq<char>, l: Seq<char>)
    ensures
        has_line(text, l) ==> has_line(append_line(text, line), l),
        !has_char(line, '\n') && trim(line) == line ==> has_line(append_line(text, line), line),
{
    let base = if text.len() > 0 && text.last() != '\n' {
        text.push('\n')
    } else {
        text
    };
    if has_line(text, l) {
        let i = choose|i: int| 0 <= i < lines(text).len() && trim(#[trigger] lines(text)[i]) == l;
        if text.len() > 0 && text.last() != '\n' {
            lemma_lines_push_newline(text);
            assert(trim(lines(base)[i]) == l);
        }
        assert(0 <= i < lines(base).len() && trim(lines(base)[i]) == l);
    }
    assert(append_line(text, line) =~= base + line.push('\n'));
    if base.len() > 0 {
        assert(base.last() == '\n');
    }
    lemma_lines_concat(base, line.push('\n'));
    if has_line(text, l) {
        let i = choose|i: int| 0 <= i < lines(base).len() && trim(#[trigger] lines(base)[i]) == l;
        assert(lines(append_line(text, line))[i] == lines(base)[i]);
    }
    if !has_char(line, '\n') && trim(line) == line {
        lemma_lines_single(line);
        lemma_trim_strip_cr(line);
        let j = lines(base).len() as int;
        assert(lines(append_line(text, line))[j] == strip_cr(line));
    }
}

proof fn lemma_install_preserves(text: Seq<char>, patterns: Seq<Seq<char>>, l: Seq<char>)
    requires
        has_line(text, l),
    ensures
        has_line(install_attributes(text, patterns), l),
    decreases patterns.len(),
{
    if patterns.len() > 0 {
        lemma_append_line(text, attribute_line(patterns[0]), l);
        lemma_install_preserves(add_attribute(text, patterns[0]), patterns.drop_first(), l);
    }
}

/// After installing, the attribute line of every plain pattern is present.
pub proof fn install_gitattributes_adds_every_line(existing: Seq<char>, patterns: Seq<Seq<char>>)
    requires
        forall|i: int| 0 <= i < patterns.len() ==> is_plain_attribute_pattern(#[trigger] patterns[i]),
    ensures
        forall|i: int|
            0 <= i < patterns.len() ==> has_line(
                install_attributes(existing, patterns),
                attribute_line(#[trigger] patterns[i]),
            ),
    decreases patterns.len(),
{
    if patterns.len() > 0 {
        let first = patterns[0];
        let rest = patterns.drop_first();
        let next = add_attribute(existing, first);
        lemma_append_line(existing, attribute_line(first), attribute_line(first));
        assert(has_line(next, attribute_line(first)));
        lemma_install_preserves(next, rest, attribute_line(first));
        assert forall|i: int| 0 <= i < rest.len() implies is_plain_attribute_pattern(
            #[trigger] rest[i],
        ) by {
            assert(rest[i] == patterns[i + 1]);
        }
        install_gitattributes_adds_every_line(next, rest);
        assert forall|i: int| 0 <= i < patterns.len() implies has_line(
            install_attributes(existing, patterns),
            attribute_line(#[trigger] patterns[i]),
        ) by {
            if i > 0 {
                assert(patterns[i] == rest[i - 1]);
            }
        }
    }
}

proof fn lemma_install_when_present(text: Seq<char>, patterns: Seq<Seq<char>>)
    requires
        forall|i: int|
            0 <= i < patterns.len() ==> has_line(text, attribute_line(#[trigger] patterns[i])),
    ensures
        install_attributes(text, patterns) == text,
    decreases patterns.len(),
{
    if patterns.len() > 0 {
        assert(has_line(text, attribute_line(patterns[0])));
        let rest = patterns.drop_first();
        assert forall|i: int| 0 <= i < rest.len() implies has_line(
            text,
            attribute_line(#[trigger] rest[i]),
        ) by {
            assert(rest[i] == patterns[i + 1]);
        }
        lemma_install_when_present(text, rest);
    }
}

/// Installing the same plain patterns a second time changes nothing.
pub proof fn install_gitattributes_is_idempotent(existing: Seq<char>, patterns: Seq<Seq<char>>)
    requires
        forall|i: int| 0 <= i < patterns.len() ==> is_plain_attribute_pattern(#[trigger] patterns[i]),
    ensures
        install_attributes(install_attributes(existing, patterns), patterns)
            == install_attributes(existing, patterns),
{
    install_gitattributes_adds_every_line(existing, patterns);
    lemma_install_when_present(install_attributes(existing, patterns), patterns);
}

/// The existing text is kept, unchanged, at the start of the result.
pub proof fn install_gitattributes_keeps_existing_text(existing: Seq<char>, patterns: Seq<Seq<char>>)
    ensures
        existing.len() <= install_attributes(existing, patterns).len(),
        install_attributes(existing, patterns).take(existing.len() as int) == existing,
    decreases patterns.len(),
{
    if patterns.len() > 0 {
        let next = add_attribute(existing, patterns[0]);
        assert(next.take(existing.len() as int) =~= existing);
        install_gitattributes_keeps_existing_text(next, patterns.drop_first());
        let r = install_attributes(existing, patterns);
        assert(r.take(existing.len() as int) =~= r.take(next.len() as int).take(
            existing.len() as int,
        ));
    }
}

proof fn lemma_append_line_exact(text: Seq<char>, line: Seq<char>, m: Seq<char>)
    requires
        !has_char(line, '\n'),
        trim(line) == line,
    ensures
        has_line(append_line(text, line), m) == (has_line(text, m) || m == line),
{
    lemma_append_line(text, line, m);
    lemma_append_line(text, line, line);
    let base = if text.len() > 0 && text.last() != '\n' {
        text.push('\n')
    } else {
        text
    };
    let a = append_line(text, line);
    if has_line(a, m) {
        assert(a =~= base + line.push('\n'));
        if base.len() > 0 {
            assert(base.last() == '\n');
        }
        lemma_lines_concat(base, line.push('\n'));
        lemma_lines_single(line);
        lemma_trim_strip_cr(line);
        if text.len() > 0 && text.last() != '\n' {
            lemma_lines_push_newline(text);
        }
        let i = choose|i: int| 0 <= i < lines(a).len() && trim(#[trigger] lines(a)[i]) == m;
        if i < lines(base).len() {
            assert(lines(a)[i] == lines(base)[i]);
            if text.len() > 0 && text.last() != '\n' {
                assert(trim(lines(base)[i]) == trim(lines(text)[i]));
            }
            assert(0 <= i < lines(text).len() && trim(lines(text)[i]) == m);
        } else {
            assert(lines(a)[i] == strip_cr(line));
        }
    }
}

/// Each line of `ls` followed by `\n`, concatenated.
pub open spec fn line_block(ls: Seq<Seq<char>>) -> Seq<char>
    decreases ls.len(),
{
    if ls.len() == 0 {
        seq![]
    } else {
        line_block(ls.drop_last()) + ls.last() + seq!['\n']
    }
}

/// The attribute lines of `patterns` that `text` lacks, each once, in the
/// order of the first pattern that gives it.
pub open spec fn new_attribute_lines(text: Seq<char>, patterns: Seq<Seq<char>>) -> Seq<Seq<char>>
    decreases patterns.len(),
{
    if patterns.len() == 0 {
        seq![]
    } else {
        let prev = new_attribute_lines(text, patterns.drop_last());
        let l = attribute_line(patterns.last());
        if has_line(text, l) || prev.contains(l) {
            prev
        } else {
            prev.push(l)
        }
    }
}

/// `text` followed by the lines `ls`, with a `\n` in between when there are
/// lines to add and `text` does not already end a line.
pub open spec fn text_with_lines(text: Seq<char>, ls: Seq<Seq<char>>) -> Seq<char> {
    let sep = if ls.len() > 0 && text.len() > 0 && text.last() != '\n' {
        seq!['\n']
    } else {
        Seq::<char>::empty()
    };
    text + sep + line_block(ls)
}

proof fn lemma_text_with_lines_push(text: Seq<char>, ls: Seq<Seq<char>>, l: Seq<char>)
    ensures
        text_with_lines(text, ls.push(l)) == append_line(text_with_lines(text, ls), l),
{
    assert(ls.push(l).drop_last() =~= ls);
    if ls.len() == 0 {
        assert(line_block(ls) =~= Seq::<char>::empty());
        assert(text_with_lines(text, ls) =~= text);
        assert(text_with_lines(text, ls.push(l)) =~= append_line(text, l));
    } else {
        let t = text_with_lines(text, ls);
        assert(line_block(ls).last() == '\n');
        assert(t.last() == '\n');
        assert(text_with_lines(text, ls.push(l)) =~= t + l + seq!['\n']);
    }
}

proof fn lemma_text_with_lines_has(text: Seq<char>, ls: Seq<Seq<char>>, m: Seq<char>)
    requires
        forall|i: int|
            0 <= i < ls.len() ==> !has_char(#[trigger] ls[i], '\n') && trim(ls[i]) == ls[i],
    ensures
        has_line(text_with_lines(text, ls), m) == (has_line(text, m) || ls.contains(m)),
    decreases ls.len(),
{
    if ls.len() == 0 {
        assert(text_with_lines(text, ls) =~= text);
    } else {
        let prev = ls.drop_last();
        let l = ls.last();
        assert(prev.push(l) =~= ls);
        lemma_text_with_lines_has(text, prev, m);
        lemma_text_with_lines_push(text, prev, l);
        assert(!has_char(ls[ls.len() - 1], '\n'));
        lemma_append_line_exact(text_with_lines(text, prev), l, m);
        if ls.contains(m) && !prev.contains(m) {
            let k = choose|k: int| 0 <= k < ls.len() && ls[k] == m;
            if k < prev.len() {
                assert(prev[k] == m);
            }
        }
        if prev.contains(m) {
            let k = choose|k: int| 0 <= k < prev.len() && prev[k] == m;
            assert(ls[k] == m);
        }
    }
}

proof fn lemma_install_snoc(text: Seq<char>, patterns: Seq<Seq<char>>)
    requires
        patterns.len() > 0,
    ensures
        install_attributes(text, patterns) == add_attribute(
            install_attributes(text, patterns.drop_last()),
            patterns.last(),
        ),
    decreases patterns.len(),
{
    if patterns.len() > 1 {
        let rest = patterns.drop_first();
        lemma_install_snoc(add_attribute(text, patterns[0]), rest);
        assert(rest.drop_last() =~= patterns.drop_last().drop_first());
        assert(patterns.drop_last()[0] == patterns[0]);
        assert(rest.last() == patterns.last());
        assert(install_attributes(text, patterns.drop_last()) == install_attributes(
            add_attribute(text, patterns.drop_last()[0]),
            patterns.drop_last().drop_first(),
        ));
    } else {
        assert(patterns.drop_first() =~= Seq::<Seq<char>>::empty());
        assert(patterns.drop_last() =~= Seq::<Seq<char>>::empty());
        assert(patterns[0] == patterns.last());
        assert(install_attributes(add_attribute(text, patterns[0]), patterns.drop_first())
            == add_attribute(text, patterns[0]));
    }
}

proof fn lemma_new_lines_plain(text: Seq<char>, patterns: Seq<Seq<char>>)
    requires
        forall|i: int| 0 <= i < patterns.len() ==> is_plain_attribute_pattern(#[trigger] patterns[i]),
    ensures
        forall|i: int|
            0 <= i < new_attribute_lines(text, patterns).len() ==> !has_char(
                #[trigger] new_attribute_lines(text, patterns)[i],
                '\n',
            ) && trim(new_attribute_lines(text, patterns)[i]) == new_attribute_lines(
                text,
                patterns,
            )[i],
    decreases patterns.len(),
{
    if patterns.len() > 0 {
        let prefix = patterns.drop_last();
        assert forall|i: int| 0 <= i < prefix.len() implies is_plain_attribute_pattern(
            #[trigger] prefix[i],
        ) by {
            assert(prefix[i] == patterns[i]);
        }
        lemma_new_lines_plain(text, prefix);
        assert(is_plain_attribute_pattern(patterns[patterns.len() - 1]));
        let prev = new_attribute_lines(text, prefix);
        let l = attribute_line(patterns.last());
        let n = new_attribute_lines(text, patterns);
        assert forall|i: int| 0 <= i < n.len() implies !has_char(#[trigger] n[i], '\n') && trim(n[i])
            == n[i] by {
            if i < prev.len() {
                assert(n[i] == prev[i]);
            } else {
                assert(n[i] == l);
            }
        }
    }
}

/// The result of installing, in closed form: the existing text, then (after a
/// `\n` when the text does not end a line) each new attribute line once, in
/// order, each ending in `\n`. A line is new when no line of the existing text
/// equals it once trimmed and no earlier pattern gave it.
pub proof fn install_gitattributes_closed_form(existing: Seq<char>, patterns: Seq<Seq<char>>)
    requires
        forall|i: int| 0 <= i < patterns.len() ==> is_plain_attribute_pattern(#[trigger] patterns[i]),
    ensures
        install_attributes(existing, patterns) == text_with_lines(
            existing,
            new_attribute_lines(existing, patterns),
        ),
    decreases patterns.len(),
{
    if patterns.len() == 0 {
        assert(text_with_lines(existing, Seq::<Seq<char>>::empty()) =~= existing);
    } else {
        let prefix = patterns.drop_last();
        assert forall|i: int| 0 <= i < prefix.len() implies is_plain_attribute_pattern(
            #[trigger] prefix[i],
        ) by {
            assert(prefix[i] == patterns[i]);
        }
        install_gitattributes_closed_form(existing, prefix);
        lemma_install_snoc(existing, patterns);
        let prev = new_attribute_lines(existing, prefix);
        let l = attribute_line(patterns.last());
        lemma_new_lines_plain(existing, prefix);
        lemma_text_with_lines_has(existing, prev, l);
        if !(has_line(existing, l) || prev.contains(l)) {
            lemma_text_with_lines_push(existing, prev, l);
        }
    }
}

} // verus!
