//! The Git configuration that routes files through the git-sshripped filter
//! and diff drivers, and the shell quoting of the binary path inside it.

use vstd::prelude::*;
use crate::text::{chars_eq, chars_of, concat, is_whitespace, is_ws, string_of};

verus! {

/// Characters that a shell would interpret rather than keep literally:
/// whitespace, quotes and escapes, operators, expansions (`$`, `` ` ``, `!`),
/// comments, and the glob, brace and tilde characters `* ? [ ] { } ~`.
pub open spec fn needs_quoting(c: char) -> bool {
    is_ws(c) || c == '\'' || c == '"' || c == '\\' || c == '(' || c == ')' || c == '&' || c
        == ';' || c == '|' || c == '<' || c == '>' || c == '`' || c == '$' || c == '!' || c == '#'
        || c == '*' || c == '?' || c == '[' || c == ']' || c == '{' || c == '}' || c == '~'
}

/// Whether any character of `s` needs quoting.
pub open spec fn any_needs_quoting(s: Seq<char>) -> bool {
    exists|i: int| 0 <= i < s.len() && needs_quoting(s[i])
}

/// `s` with every `'` replaced by `'\''`.
pub open spec fn escape_single_quotes(s: Seq<char>) -> Seq<char>
    decreases s.len(),
{
    if s.len() == 0 {
        seq![]
    } else {
        (if s[0] == '\'' {
            seq!['\'', '\\', '\'', '\'']
        } else {
            seq![s[0]]
        }) + escape_single_quotes(s.drop_first())
    }
}

/// `s` unchanged when nothing in it needs quoting, otherwise wrapped in
/// single quotes with embedded single quotes written as `'\''`.
pub open spec fn shell_quoted(s: Seq<char>) -> Seq<char> {
    if any_needs_quoting(s) {
        seq!['\''] + escape_single_quotes(s) + seq!['\'']
    } else {
        s
    }
}

fn is_special(c: char) -> (r: bool)
    ensures
        r == needs_quoting(c),
{
    is_whitespace(c) || c == '\'' || c == '"' || c == '\\' || c == '(' || c == ')' || c == '&'
        || c == ';' || c == '|' || c == '<' || c == '>' || c == '`' || c == '$' || c == '!' || c
        == '#' || c == '*' || c == '?' || c == '[' || c == ']' || c == '{' || c == '}' || c == '~'
}

/// Shell-quotes a string so that a POSIX shell reads it back as one word
/// equal to the string (see `shell_quote_reads_back`).
pub fn shell_quote(s: &str) -> (r: String)
    ensures
        r@ == shell_quoted(s@),
{
    let v = chars_of(s);
    let mut i: usize = 0;
    let mut special = false;
    while i < v.len()
        invariant
            i <= v@.len(),
            special == exists|j: int| 0 <= j < i && needs_quoting(v@[j]),
        decreases v@.len() - i,
    {
        if is_special(v[i]) {
            special = true;
        }
        i = i + 1;
    }
    if !special {
        return string_of(v.as_slice());
    }
    let mut out: Vec<char> = Vec::new();
    out.push('\'');
    let mut k: usize = 0;
    assert(v@.skip(0) =~= v@);
    while k < v.len()
        invariant
            k <= v@.len(),
            seq!['\''] + escape_single_quotes(v@) == out@ + escape_single_quotes(v@.skip(k as int)),
        decreases v@.len() - k,
    {
        assert(v@.skip(k as int).drop_first() =~= v@.skip(k + 1));
        let ghost before = out@;
        if v[k] == '\'' {
            out.push('\'');
            out.push('\\');
            out.push('\'');
            out.push('\'');
        } else {
            out.push(v[k]);
        }
        assert(out@ + escape_single_quotes(v@.skip(k + 1)) =~= before + escape_single_quotes(
            v@.skip(k as int),
        ));
        k = k + 1;
    }
    assert(v@.skip(k as int) =~= Seq::<char>::empty());
    assert(escape_single_quotes(Seq::<char>::empty()) =~= Seq::<char>::empty());
    out.push('\'');
    assert(out@ =~= shell_quoted(v@));
    string_of(out.as_slice())
}

/// Prepends `c` to a successful reading.
pub open spec fn prepend(c: char, r: Option<Seq<char>>) -> Option<Seq<char>> {
    match r {
        Some(w) => Some(seq![c] + w),
        None => None,
    }
}

/// POSIX shell metacharacters: an unquoted blank or newline ends a word, and
/// `| & ; < > ( )` are control or redirection operators.
pub open spec fn shell_metachar(c: char) -> bool {
    c == ' ' || c == '\t' || c == '\n' || c == '|' || c == '&' || c == ';' || c == '<' || c == '>'
        || c == '(' || c == ')'
}

/// Characters that, unquoted, make a POSIX shell (or a common shell such as
/// bash) do more than keep them: parameter and command substitution (`$`,
/// `` ` ``), double quotes, pathname expansion (`* ? [ ]`), brace and tilde
/// expansion (`{ } ~`), comments (`#`) and history expansion (`!`).
pub open spec fn shell_expansion_char(c: char) -> bool {
    c == '$' || c == '`' || c == '"' || c == '*' || c == '?' || c == '[' || c == ']' || c == '{'
        || c == '}' || c == '~' || c == '#' || c == '!'
}

/// How a POSIX shell reads `t` as a single word outside quotes: `'` opens a
/// single-quoted span, `\` keeps the next character literally, and any other
/// character that the shell interprets (a separator, operator, expansion,
/// glob or tilde) makes the reading fail (`None`), since the word would not
/// come through literally.
pub open spec fn read_unquoted(t: Seq<char>) -> Option<Seq<char>>
    decreases t.len(), 1int,
{
    if t.len() == 0 {
        Some(seq![])
    } else if t[0] == '\'' {
        read_single_quoted(t.drop_first())
    } else if t[0] == '\\' {
        if t.len() >= 2 {
            prepend(t[1], read_unquoted(t.skip(2)))
        } else {
            None
        }
    } else if shell_metachar(t[0]) || shell_expansion_char(t[0]) {
        None
    } else {
        prepend(t[0], read_unquoted(t.drop_first()))
    }
}

/// How a POSIX shell reads `t` inside a single-quoted span: every character
/// up to the closing `'` is literal; an unclosed span fails.
pub open spec fn read_single_quoted(t: Seq<char>) -> Option<Seq<char>>
    decreases t.len(), 0int,
{
    if t.len() == 0 {
        None
    } else if t[0] == '\'' {
        read_unquoted(t.drop_first())
    } else {
        prepend(t[0], read_single_quoted(t.drop_first()))
    }
}

proof fn lemma_read_plain(s: Seq<char>)
    requires
        !any_needs_quoting(s),
    ensures
        read_unquoted(s) == Some(s),
    decreases s.len(),
{
    if s.len() > 0 {
        assert(!needs_quoting(s[0]));
        assert(is_ws(' ') && is_ws('\t') && is_ws('\n'));
        assert(!any_needs_quoting(s.drop_first())) by {
            if any_needs_quoting(s.drop_first()) {
                let j = choose|j: int|
                    0 <= j < s.drop_first().len() && needs_quoting(s.drop_first()[j]);
                assert(needs_quoting(s[j + 1]));
            }
        }
        lemma_read_plain(s.drop_first());
        assert(seq![s[0]] + s.drop_first() =~= s);
    }
}

proof fn lemma_read_escaped(s: Seq<char>, rest: Seq<char>)
    ensures
        read_single_quoted(escape_single_quotes(s) + rest) == match read_single_quoted(rest) {
            Some(w) => Some(s + w),
            None => None,
        },
    decreases s.len(),
{
    if s.len() == 0 {
        assert(escape_single_quotes(s) + rest =~= rest);
        match read_single_quoted(rest) {
            Some(w) => {
                assert(s + w =~= w);
            },
            None => {},
        }
    } else {
        let t = escape_single_quotes(s) + rest;
        let tail = escape_single_quotes(s.drop_first()) + rest;
        lemma_read_escaped(s.drop_first(), rest);
        if s[0] == '\'' {
            assert(t =~= seq!['\'', '\\', '\'', '\''] + tail);
            assert(t.drop_first() =~= seq!['\\', '\'', '\''] + tail);
            assert(t.drop_first().skip(2) =~= seq!['\''] + tail);
            assert((seq!['\''] + tail).drop_first() =~= tail);
            assert(read_unquoted(seq!['\''] + tail) == read_single_quoted(tail));
            assert(read_unquoted(t.drop_first()) == prepend('\'', read_unquoted(seq!['\''] + tail)));
        } else {
            assert(t =~= seq![s[0]] + tail);
            assert(t.drop_first() =~= tail);
        }
        match read_single_quoted(rest) {
            Some(w) => {
                assert(seq![s[0]] + (s.drop_first() + w) =~= s + w);
            },
            None => {},
        }
    }
}

/// A POSIX shell reads the quoted form of any string back as one word equal
/// to that string.
pub proof fn shell_quote_reads_back(s: Seq<char>)
    ensures
        read_unquoted(shell_quoted(s)) == Some(s),
{
    if any_needs_quoting(s) {
        let q = seq!['\''] + escape_single_quotes(s) + seq!['\''];
        assert(q.drop_first() =~= escape_single_quotes(s) + seq!['\'']);
        lemma_read_escaped(s, seq!['\'']);
        assert(seq!['\''].drop_first() =~= Seq::<char>::empty());
        assert(seq!['\''][0] == '\'');
        assert(read_unquoted(Seq::<char>::empty()) == Some(Seq::<char>::empty()));
        assert(read_single_quoted(seq!['\'']) == Some(Seq::<char>::empty()));
        assert(s + Seq::<char>::empty() =~= s);
    } else {
        lemma_read_plain(s);
    }
}

/// A string that holds a quote, a backslash, a shell metacharacter or a
/// character the shell would expand is always quoted: the result opens with
/// a single quote and ends with one.
pub proof fn shell_quote_quotes_shell_syntax(s: Seq<char>, i: int)
    requires
        0 <= i < s.len(),
        shell_metachar(s[i]) || shell_expansion_char(s[i]) || s[i] == '\'' || s[i] == '\\',
    ensures
        shell_quoted(s).len() >= 2,
        shell_quoted(s)[0] == '\'',
        shell_quoted(s).last() == '\'',
{
    assert(is_ws(' ') && is_ws('\t') && is_ws('\n'));
    assert(needs_quoting(s[i]));
    assert(any_needs_quoting(s));
}

/// One `git config` key and the value it should hold.
#[derive(Clone, Debug, PartialEq, Eq)]
pub struct GitConfigEntry {
    pub key: String,
    pub value: String,
}

/// Everything `install_git_filters` writes: the scope flag passed to
/// `git config`, the `extensions.worktreeConfig` setting that a linked
/// worktree needs first (written with `--local`), and the filter entries.
#[derive(Clone, Debug, PartialEq, Eq)]
pub struct GitFilterSettings {
    pub scope: String,
    pub worktree_extension: Option<GitConfigEntry>,
    pub entries: Vec<GitConfigEntry>,
}

/// The key and value text of each entry.
pub open spec fn entries_view(entries: Seq<GitConfigEntry>) -> Seq<(Seq<char>, Seq<char>)> {
    entries.map_values(|e: GitConfigEntry| (e.key@, e.value@))
}

/// The filter and diff driver entries for the binary at `bin`.
pub open spec fn filter_entries(bin: Seq<char>) -> Seq<(Seq<char>, Seq<char>)> {
    let q = shell_quoted(bin);
    seq![
        ("filter.git-sshripped.process"@, q + " filter-process"@),
        ("filter.git-sshripped.clean"@, q + " clean --path %f"@),
        ("filter.git-sshripped.smudge"@, q + " smudge --path %f"@),
        ("filter.git-sshripped.required"@, "true"@),
        ("diff.git-sshripped.textconv"@, q + " diff --path %f"@),
    ]
}

fn entry(key: &str, value: String) -> (e: GitConfigEntry)
    ensures
        e.key@ == key@,
        e.value@ == value@,
{
    GitConfigEntry { key: String::from_str(key), value }
}

/// The Git configuration for the filter and diff drivers: written to the
/// worktree layer (`--worktree`, after enabling `extensions.worktreeConfig`)
/// for a linked worktree, and to the shared local layer (`--local`)
/// otherwise.
pub fn git_filter_settings(bin: &str, linked_worktree: bool) -> (r: GitFilterSettings)
    ensures
        r.scope@ == (if linked_worktree {
            "--worktree"@
        } else {
            "--local"@
        }),
        linked_worktree ==> (r.worktree_extension matches Some(e) && e.key@
            == "extensions.worktreeConfig"@ && e.value@ == "true"@),
        !linked_worktree ==> r.worktree_extension is None,
        entries_view(r.entries@) == filter_entries(bin@),
{
    let quoted = shell_quote(bin);
    let q = quoted.as_str();
    let mut entries: Vec<GitConfigEntry> = Vec::new();
    entries.push(entry("filter.git-sshripped.process", concat(q, " filter-process")));
    entries.push(entry("filter.git-sshripped.clean", concat(q, " clean --path %f")));
    entries.push(entry("filter.git-sshripped.smudge", concat(q, " smudge --path %f")));
    entries.push(entry("filter.git-sshripped.required", String::from_str("true")));
    entries.push(entry("diff.git-sshripped.textconv", concat(q, " diff --path %f")));
    assert(entries_view(entries@) =~= filter_entries(bin@));
    if linked_worktree {
        GitFilterSettings {
            scope: String::from_str("--worktree"),
            worktree_extension: Some(
                entry("extensions.worktreeConfig", String::from_str("true")),
            ),
            entries,
        }
    } else {
        GitFilterSettings {
            scope: String::from_str("--local"),
            worktree_extension: None,
            entries,
        }
    }
}

/// Whether a key whose recorded value is `current` (`None` when unset)
/// must be written to hold `desired`: only when the two differ.
pub fn needs_config_write(current: Option<&str>, desired: &str) -> (r: bool)
    ensures
        r == !(current matches Some(c) && c@ == desired@),
{
    match current {
        Some(c) => {
            let a = chars_of(c);
            let b = chars_of(desired);
            !chars_eq(a.as_slice(), b.as_slice())
        },
        None => true,
    }
}

/// `s` without its trailing `\n` characters.
pub open spec fn trim_trailing_newlines(s: Seq<char>) -> Seq<char>
    decreases s.len(),
{
    if s.len() > 0 && s.last() == '\n' {
        trim_trailing_newlines(s.drop_last())
    } else {
        s
    }
}

/// The value that `git config --get` printed: its output without the
/// trailing newlines.
pub fn config_value_from_output(stdout: &str) -> (r: String)
    ensures
        r@ == trim_trailing_newlines(stdout@),
{
    let v = chars_of(stdout);
    let mut n = v.len();
    assert(v@.take(n as int) =~= v@);
    while n > 0 && v[n - 1] == '\n'
        invariant
            n <= v@.len(),
            trim_trailing_newlines(v@) == trim_trailing_newlines(v@.take(n as int)),
        decreases n,
    {
        assert(v@.take(n as int).drop_last() =~= v@.take(n - 1));
        n = n - 1;
    }
    let r = crate::text::copy_range(v.as_slice(), 0, n);
    assert(r@ =~= v@.take(n as int));
    string_of(r.as_slice())
}

} // verus!
