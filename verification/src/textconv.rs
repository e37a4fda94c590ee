//! Blob-hash to repository-path resolution for the textconv (diff) filter.
//!
//! The index maps a Git object id to the repository paths that hold it. It
//! is rebuilt from `git rev-list --objects --all` and `git ls-files -s`, and
//! cached in a line-based file whose first line records the `HEAD` it was
//! built for (`NONE` when there is no `HEAD`); every other line is
//! `<oid> <path>`.

use vstd::prelude::*;
use crate::models::strings_view;
use crate::recipient::opt_view;
use crate::paths::{join, join_path};
use crate::text::{
    chars_eq, chars_of, contains_char, extend_chars, find, has_char, lemma_find_absent,
    lemma_find_has_char, lemma_lines_concat, lemma_lines_single, lines, lines_of, split_once,
    split_once_chars, string_of, strip_cr, trim, trim_chars, words, words_of,
};

verus! {

/// Position of the first `o` in `keys`, or `keys.len()`.
pub open spec fn position(keys: Seq<Seq<char>>, o: Seq<char>) -> int
    decreases keys.len(),
{
    if keys.len() == 0 {
        0
    } else if keys[0] == o {
        0
    } else {
        1 + position(keys.drop_first(), o)
    }
}

pub proof fn lemma_position(keys: Seq<Seq<char>>, o: Seq<char>)
    ensures
        0 <= position(keys, o) <= keys.len(),
        position(keys, o) < keys.len() ==> keys[position(keys, o)] == o,
        forall|i: int| 0 <= i < position(keys, o) ==> keys[i] != o,
        (position(keys, o) < keys.len()) == keys.contains(o),
    decreases keys.len(),
{
    if keys.len() > 0 && keys[0] != o {
        lemma_position(keys.drop_first(), o);
        assert forall|i: int| 0 <= i < position(keys, o) implies keys[i] != o by {
            if i > 0 {
                assert(keys[i] == keys.drop_first()[i - 1]);
            }
        }
        if keys.contains(o) {
            let j = choose|j: int| 0 <= j < keys.len() && keys[j] == o;
            assert(keys.drop_first()[j - 1] == o);
        }
        if position(keys, o) < keys.len() {
            assert(keys[position(keys, o)] == keys.drop_first()[position(keys.drop_first(), o)]);
        }
    } else if keys.len() > 0 {
        assert(keys.contains(o)) by {
            assert(keys[0] == o);
        }
    }
}

/// The index after recording that `path` holds `oid`.
pub open spec fn map_add(
    m: Map<Seq<char>, Seq<Seq<char>>>,
    oid: Seq<char>,
    path: Seq<char>,
) -> Map<Seq<char>, Seq<Seq<char>>> {
    m.insert(
        oid,
        if m.contains_key(oid) {
            m[oid].push(path)
        } else {
            seq![path]
        },
    )
}

/// The index after recording each `(oid, path)` pair in order.
pub open spec fn add_all(
    m: Map<Seq<char>, Seq<Seq<char>>>,
    pairs: Seq<(Seq<char>, Seq<char>)>,
) -> Map<Seq<char>, Seq<Seq<char>>>
    decreases pairs.len(),
{
    if pairs.len() == 0 {
        m
    } else {
        map_add(add_all(m, pairs.drop_last()), pairs.last().0, pairs.last().1)
    }
}

/// The pair that a `<oid> <path>` line records (lines of `git rev-list
/// --objects` and of the cache): the text before and after the first space,
/// when both are non-empty.
pub open spec fn space_pair(line: Seq<char>) -> Option<(Seq<char>, Seq<char>)> {
    match split_once(line, ' ') {
        Some((oid, path)) => if oid.len() > 0 && path.len() > 0 {
            Some((oid, path))
        } else {
            None
        },
        None => None,
    }
}

/// The pair that a `<mode> <oid> <stage>\t<path>` line of `git ls-files -s`
/// records: the second word before the tab, and the text after it.
pub open spec fn ls_files_pair(line: Seq<char>) -> Option<(Seq<char>, Seq<char>)> {
    match split_once(line, '\t') {
        Some((meta, path)) => if words(meta).len() >= 2 && words(meta)[1].len() > 0 && path.len()
            > 0 {
            Some((words(meta)[1], path))
        } else {
            None
        },
        None => None,
    }
}

/// The pairs that `<oid> <path>` lines record, in order.
pub open spec fn space_pairs(ls: Seq<Seq<char>>) -> Seq<(Seq<char>, Seq<char>)>
    decreases ls.len(),
{
    if ls.len() == 0 {
        seq![]
    } else {
        match space_pair(ls.last()) {
            Some(p) => space_pairs(ls.drop_last()).push(p),
            None => space_pairs(ls.drop_last()),
        }
    }
}

/// The pairs that `git ls-files -s` lines record, in order.
pub open spec fn ls_files_pairs(ls: Seq<Seq<char>>) -> Seq<(Seq<char>, Seq<char>)>
    decreases ls.len(),
{
    if ls.len() == 0 {
        seq![]
    } else {
        match ls_files_pair(ls.last()) {
            Some(p) => ls_files_pairs(ls.drop_last()).push(p),
            None => ls_files_pairs(ls.drop_last()),
        }
    }
}

/// Object ids and the repository paths that hold each of them.
pub struct PathIndex {
    oids: Vec<String>,
    paths: Vec<Vec<String>>,
}

impl PathIndex {
    /// The object ids, in insertion order.
    pub closed spec fn keys(&self) -> Seq<Seq<char>> {
        strings_view(self.oids@)
    }

    /// The paths of each object id, in the same order.
    pub closed spec fn values(&self) -> Seq<Seq<Seq<char>>> {
        self.paths@.map_values(|ps: Vec<String>| strings_view(ps@))
    }

    /// Object ids are distinct and each holds at least one path.
    pub closed spec fn wf(&self) -> bool {
        &&& self.oids@.len() == self.paths@.len()
        &&& forall|i: int, j: int|
            0 <= i < j < self.oids@.len() ==> self.oids@[i]@ != self.oids@[j]@
        &&& forall|i: int| 0 <= i < self.paths@.len() ==> (#[trigger] self.paths@[i])@.len() > 0
    }

    /// The paths of each object id.
    pub closed spec fn view(&self) -> Map<Seq<char>, Seq<Seq<char>>> {
        Map::new(
            |o: Seq<char>| self.keys().contains(o),
            |o: Seq<char>| self.values()[position(self.keys(), o)],
        )
    }

    /// An empty index.
    pub fn new() -> (r: Self)
        ensures
            r.wf(),
            r@ == Map::<Seq<char>, Seq<Seq<char>>>::empty(),
            r.keys() == Seq::<Seq<char>>::empty(),
            r.values() == Seq::<Seq<Seq<char>>>::empty(),
    {
        let r = PathIndex { oids: Vec::new(), paths: Vec::new() };
        assert(r@ =~= Map::<Seq<char>, Seq<Seq<char>>>::empty());
        assert(r.keys() =~= Seq::<Seq<char>>::empty());
        assert(r.values() =~= Seq::<Seq<Seq<char>>>::empty());
        r
    }

    /// Position of `oid`, or the number of object ids.
    fn find(&self, oid: &str) -> (k: usize)
        requires
            self.wf(),
        ensures
            k == position(self.keys(), oid@),
    {
        let mut k: usize = 0;
        proof {
            lemma_position(self.keys(), oid@);
        }
        while k < self.oids.len()
            invariant
                self.wf(),
                k <= self.oids@.len(),
                forall|i: int| 0 <= i < k ==> self.keys()[i] != oid@,
            decreases self.oids@.len() - k,
        {
            let a = chars_of(self.oids[k].as_str());
            let b = chars_of(oid);
            if chars_eq(a.as_slice(), b.as_slice()) {
                proof {
                    lemma_position(self.keys(), oid@);
                    assert(self.keys()[k as int] == oid@);
                    let p = position(self.keys(), oid@);
                    if p < k {
                        assert(self.keys()[p] == oid@);
                    }
                }
                return k;
            }
            k = k + 1;
        }
        proof {
            lemma_position(self.keys(), oid@);
            let p = position(self.keys(), oid@);
            if p < k {
                assert(self.keys()[p] == oid@);
            }
        }
        k
    }

    proof fn lemma_view_at(&self, k: int)
        requires
            self.wf(),
            0 <= k < self.oids@.len(),
        ensures
            position(self.keys(), self.keys()[k]) == k,
            self@.contains_key(self.keys()[k]),
            self@[self.keys()[k]] == self.values()[k],
    {
        lemma_position(self.keys(), self.keys()[k]);
        let p = position(self.keys(), self.keys()[k]);
        if p < k {
            assert(self.oids@[p]@ == self.oids@[k]@);
        }
        assert(self.keys().contains(self.keys()[k]));
    }

    /// Records that `path` holds `oid`.
    pub fn add(&mut self, oid: String, path: String)
        requires
            old(self).wf(),
        ensures
            final(self).wf(),
            final(self)@ == map_add(old(self)@, oid@, path@),
    {
        let k = self.find(oid.as_str());
        let ghost old_keys = self.keys();
        proof {
            lemma_position(old_keys, oid@);
        }
        if k < self.oids.len() {
            let mut ps = self.paths.remove(k);
            let ghost old_ps = ps@;
            ps.push(path);
            let ghost new_ps = ps;
            self.paths.insert(k, ps);
            proof {
                assert(self.paths@ =~= old(self).paths@.update(k as int, new_ps));
                assert(strings_view(new_ps@) =~= strings_view(old_ps).push(path@));
                assert(self.keys() == old_keys);
                assert forall|i: int| 0 <= i < self.paths@.len() implies (#[trigger] self.paths@[
                    i
                ])@.len() > 0 by {
                    if i != k {
                        assert(self.paths@[i] == old(self).paths@[i]);
                    }
                }
                old(self).lemma_view_at(k as int);
                assert(self.values() =~= old(self).values().update(
                    k as int,
                    old(self).values()[k as int].push(path@),
                ));
                assert(self@ =~= map_add(old(self)@, oid@, path@)) by {
                    assert forall|o: Seq<char>| #[trigger] self@.contains_key(o) implies self@[o]
                        == map_add(old(self)@, oid@, path@)[o] by {
                        lemma_position(old_keys, o);
                    }
                }
            }
        } else {
            let mut ps: Vec<String> = Vec::new();
            ps.push(path);
            let ghost new_ps = ps;
            assert(strings_view(new_ps@) =~= seq![path@]);
            self.oids.push(oid);
            self.paths.push(ps);
            proof {
                assert(self.paths@ =~= old(self).paths@.push(new_ps));
                let n = old_keys.len() as int;
                assert(self.keys() =~= old_keys.push(oid@));
                assert(self.values() =~= old(self).values().push(seq![path@]));
                assert(!old_keys.contains(oid@));
                assert forall|i: int, j: int|
                    0 <= i < j < self.oids@.len() implies self.oids@[i]@ != self.oids@[j]@ by {
                    if j == n {
                        assert(old_keys[i] == self.oids@[i]@);
                    }
                }
                assert(self@ =~= map_add(old(self)@, oid@, path@)) by {
                    assert forall|o: Seq<char>| #[trigger] self@.contains_key(o) implies self@[o]
                        == map_add(old(self)@, oid@, path@)[o] by {
                        lemma_position(old_keys, o);
                        lemma_position(self.keys(), o);
                        if o != oid@ {
                            assert(position(self.keys(), o) == position(old_keys, o)) by {
                                lemma_position_push(old_keys, oid@, o);
                            }
                        } else {
                            lemma_position_push(old_keys, oid@, o);
                        }
                    }
                    assert forall|o: Seq<char>|
                        map_add(old(self)@, oid@, path@).contains_key(o) implies #[trigger] self@.contains_key(o) by {
                        if o != oid@ {
                            assert(old_keys.contains(o));
                            let j = choose|j: int| 0 <= j < old_keys.len() && old_keys[j] == o;
                            assert(self.keys()[j] == o);
                        } else {
                            assert(self.keys()[n] == o);
                        }
                    }
                }
            }
        }
    }

    /// The paths of `oid`, or none; consumes the index.
    pub fn take(self, oid: &str) -> (r: Vec<String>)
        requires
            self.wf(),
        ensures
            strings_view(r@) == (if self@.contains_key(oid@) {
                self@[oid@]
            } else {
                Seq::<Seq<char>>::empty()
            }),
    {
        let k = self.find(oid);
        proof {
            lemma_position(self.keys(), oid@);
        }
        if k < self.oids.len() {
            proof {
                self.lemma_view_at(k as int);
            }
            let mut paths = self.paths;
            let r = paths.remove(k);
            r
        } else {
            let r: Vec<String> = Vec::new();
            assert(strings_view(r@) =~= Seq::<Seq<char>>::empty());
            r
        }
    }
}

proof fn lemma_position_push(keys: Seq<Seq<char>>, x: Seq<char>, o: Seq<char>)
    requires
        !keys.contains(x),
    ensures
        o != x && keys.contains(o) ==> position(keys.push(x), o) == position(keys, o),
        o == x ==> position(keys.push(x), o) == keys.len(),
    decreases keys.len(),
{
    if keys.len() == 0 {
        assert(keys.push(x)[0] == x);
    } else {
        assert(keys.push(x).drop_first() =~= keys.drop_first().push(x));
        assert(keys.push(x)[0] == keys[0]);
        if keys[0] != o {
            assert(!keys.drop_first().contains(x)) by {
                if keys.drop_first().contains(x) {
                    let j = choose|j: int| 0 <= j < keys.drop_first().len() && keys.drop_first()[j] == x;
                    assert(keys[j + 1] == x);
                }
            }
            lemma_position_push(keys.drop_first(), x, o);
            if keys.contains(o) {
                let j = choose|j: int| 0 <= j < keys.len() && keys[j] == o;
                assert(keys.drop_first()[j - 1] == o);
            }
        } else if o == x {
            assert(keys[0] == x);
            assert(keys.contains(x));
        }
    }
}

fn space_pair_of(line: &[char]) -> (r: Option<(Vec<char>, Vec<char>)>)
    ensures
        match r {
            Some((a, b)) => space_pair(line@) == Some((a@, b@)),
            None => space_pair(line@) is None,
        },
{
    match split_once_chars(line, ' ') {
        Some((a, b)) => {
            if a.len() > 0 && b.len() > 0 {
                Some((a, b))
            } else {
                None
            }
        },
        None => None,
    }
}

fn ls_files_pair_of(line: &[char]) -> (r: Option<(Vec<char>, Vec<char>)>)
    ensures
        match r {
            Some((a, b)) => ls_files_pair(line@) == Some((a@, b@)),
            None => ls_files_pair(line@) is None,
        },
{
    match split_once_chars(line, '\t') {
        Some((meta, path)) => {
            let parts = words_of(meta.as_slice());
            if parts.len() >= 2 && parts[1].len() > 0 && path.len() > 0 {
                assert(parts@[1]@ =~= parts.deep_view()[1]);
                let oid = crate::text::copy_range(parts[1].as_slice(), 0, parts[1].len());
                assert(oid@ =~= parts@[1]@);
                Some((oid, path))
            } else {
                proof {
                    if parts@.len() >= 2 {
                        assert(parts@[1]@ =~= parts.deep_view()[1]);
                    }
                }
                None
            }
        },
        None => None,
    }
}

/// Records the pairs of `ls[from..]`, read as `<oid> <path>` lines.
fn add_space_lines(index: &mut PathIndex, ls: &Vec<Vec<char>>, from: usize)
    requires
        old(index).wf(),
        from <= ls@.len(),
    ensures
        final(index).wf(),
        final(index)@ == add_all(old(index)@, space_pairs(ls.deep_view().skip(from as int))),
{
    let ghost all = ls.deep_view().skip(from as int);
    let mut i = from;
    assert(all.take(0) =~= Seq::<Seq<char>>::empty());
    while i < ls.len()
        invariant
            from <= i <= ls@.len(),
            all == ls.deep_view().skip(from as int),
            index.wf(),
            index@ == add_all(old(index)@, space_pairs(all.take(i - from))),
        decreases ls@.len() - i,
    {
        assert(all.take(i - from + 1).drop_last() =~= all.take(i - from));
        assert(ls@[i as int].deep_view() =~= ls@[i as int]@);
        assert(all.take(i - from + 1).last() == ls@[i as int]@);
        let ghost prev = space_pairs(all.take(i - from));
        match space_pair_of(ls[i].as_slice()) {
            Some((a, b)) => {
                assert(space_pairs(all.take(i - from + 1)) == prev.push((a@, b@)));
                assert(prev.push((a@, b@)).drop_last() =~= prev);
                index.add(string_of(a.as_slice()), string_of(b.as_slice()));
            },
            None => {
                assert(space_pairs(all.take(i - from + 1)) == prev);
            },
        }
        i = i + 1;
    }
    assert(all.take(i - from) =~= all);
}

/// Records the `<oid> <path>` lines of `git rev-list --objects --all`
/// output (lines without a path name commits and are skipped).
pub fn parse_rev_list_into(text: &str, index: &mut PathIndex)
    requires
        old(index).wf(),
    ensures
        final(index).wf(),
        final(index)@ == add_all(old(index)@, space_pairs(lines(text@))),
{
    let v = chars_of(text);
    let ls = lines_of(v.as_slice());
    assert(ls.deep_view().skip(0) =~= lines(text@));
    add_space_lines(index, &ls, 0);
}

/// Records the `<mode> <oid> <stage>\t<path>` lines of `git ls-files -s`
/// output.
pub fn parse_ls_files_into(text: &str, index: &mut PathIndex)
    requires
        old(index).wf(),
    ensures
        final(index).wf(),
        final(index)@ == add_all(old(index)@, ls_files_pairs(lines(text@))),
{
    let v = chars_of(text);
    let ls = lines_of(v.as_slice());
    let ghost all = lines(text@);
    let mut i: usize = 0;
    assert(all.take(0) =~= Seq::<Seq<char>>::empty());
    while i < ls.len()
        invariant
            i <= ls@.len(),
            ls.deep_view() == all,
            index.wf(),
            index@ == add_all(old(index)@, ls_files_pairs(all.take(i as int))),
        decreases ls@.len() - i,
    {
        assert(all.take(i + 1).drop_last() =~= all.take(i as int));
        assert(ls@[i as int].deep_view() =~= ls@[i as int]@);
        let ghost prev = ls_files_pairs(all.take(i as int));
        match ls_files_pair_of(ls[i].as_slice()) {
            Some((a, b)) => {
                assert(ls_files_pairs(all.take(i + 1)) == prev.push((a@, b@)));
                assert(prev.push((a@, b@)).drop_last() =~= prev);
                index.add(string_of(a.as_slice()), string_of(b.as_slice()));
            },
            None => {
                assert(ls_files_pairs(all.take(i + 1)) == prev);
            },
        }
        i = i + 1;
    }
    assert(all.take(i as int) =~= all);
}

/// The first line of a cache built for `head`.
pub open spec fn head_line(head: Option<Seq<char>>) -> Seq<char> {
    match head {
        Some(h) => h,
        None => "NONE"@,
    }
}

/// The index a cache file holds when it was built for `head`: `None` when
/// the file is empty or its first line names another `HEAD`.
pub open spec fn loaded_cache(text: Seq<char>, head: Option<Seq<char>>) -> Option<
    Map<Seq<char>, Seq<Seq<char>>>,
> {
    let ls = lines(text);
    if ls.len() == 0 || ls[0] != head_line(head) {
        None
    } else {
        Some(add_all(Map::empty(), space_pairs(ls.drop_first())))
    }
}

/// Reads a cache file (`None` when it could not be read as text) built for
/// `expected_head`; a cache built for another `HEAD` is not used.
pub fn load_cache(text: Option<&str>, expected_head: Option<&str>) -> (r: Option<PathIndex>)
    ensures
        text is None ==> r is None,
        text matches Some(t) ==> match r {
            Some(ix) => ix.wf() && loaded_cache(t@, opt_view(expected_head)) == Some(ix@),
            None => loaded_cache(t@, opt_view(expected_head)) is None,
        },
{
    let t = match text {
        Some(t) => t,
        None => return None,
    };
    let v = chars_of(t);
    let ls = lines_of(v.as_slice());
    if ls.len() == 0 {
        return None;
    }
    let expected = match expected_head {
        Some(h) => chars_of(h),
        None => chars_of("NONE"),
    };
    assert(ls@[0].deep_view() =~= ls@[0]@);
    if !chars_eq(ls[0].as_slice(), expected.as_slice()) {
        return None;
    }
    let mut index = PathIndex::new();
    add_space_lines(&mut index, &ls, 1);
    assert(ls.deep_view().skip(1) =~= lines(t@).drop_first());
    Some(index)
}

/// Text of lines, each followed by `\n`.
pub open spec fn join_lines(xs: Seq<Seq<char>>) -> Seq<char>
    decreases xs.len(),
{
    if xs.len() == 0 {
        seq![]
    } else {
        join_lines(xs.drop_last()) + xs.last() + seq!['\n']
    }
}

/// The cache lines of one object id: `<oid> <path>` for each path, leaving
/// out those that hold a `\n`.
pub open spec fn entry_lines(oid: Seq<char>, ps: Seq<Seq<char>>) -> Seq<Seq<char>>
    decreases ps.len(),
{
    if ps.len() == 0 {
        seq![]
    } else {
        entry_lines(oid, ps.drop_last()) + if has_char(oid, '\n') || has_char(ps.last(), '\n') {
            Seq::<Seq<char>>::empty()
        } else {
            seq![oid + seq![' '] + ps.last()]
        }
    }
}

/// The cache lines of all object ids, in order.
pub open spec fn index_lines(keys: Seq<Seq<char>>, vals: Seq<Seq<Seq<char>>>) -> Seq<Seq<char>>
    decreases keys.len(),
{
    if keys.len() == 0 || vals.len() == 0 {
        seq![]
    } else {
        index_lines(keys.drop_last(), vals.drop_last()) + entry_lines(keys.last(), vals.last())
    }
}

impl PathIndex {
    /// The cache file text of this index for `head`.
    pub closed spec fn cache_text(&self, head: Option<Seq<char>>) -> Seq<char> {
        join_lines(seq![head_line(head)] + index_lines(self.keys(), self.values()))
    }
}

proof fn lemma_join_lines_push(xs: Seq<Seq<char>>, x: Seq<char>)
    ensures
        join_lines(xs.push(x)) == join_lines(xs) + x + seq!['\n'],
{
    assert(xs.push(x).drop_last() =~= xs);
}

/// The cache file text for `index` built at `head`.
pub fn render_cache(index: &PathIndex, head: Option<&str>) -> (r: String)
    requires
        index.wf(),
    ensures
        r@ == index.cache_text(opt_view(head)),
{
    let h = match head {
        Some(h) => chars_of(h),
        None => chars_of("NONE"),
    };
    let mut out: Vec<char> = Vec::new();
    extend_chars(&mut out, h.as_slice());
    out.push('\n');
    let ghost keys = index.keys();
    let ghost vals = index.values();
    let ghost mut acc: Seq<Seq<char>> = seq![h@];
    proof {
        lemma_join_lines_push(Seq::<Seq<char>>::empty(), h@);
        assert(seq![h@] =~= Seq::<Seq<char>>::empty().push(h@));
        assert(keys.take(0) =~= Seq::<Seq<char>>::empty());
        assert(acc =~= seq![h@] + index_lines(keys.take(0), vals.take(0)));
    }
    let mut k: usize = 0;
    while k < index.oids.len()
        invariant
            index.wf(),
            keys == index.keys(),
            vals == index.values(),
            k <= index.oids@.len(),
            h@ == head_line(opt_view(head)),
            out@ == join_lines(acc),
            acc == seq![h@] + index_lines(keys.take(k as int), vals.take(k as int)),
        decreases index.oids@.len() - k,
    {
        let oid = chars_of(index.oids[k].as_str());
        let oid_nl = contains_char(oid.as_slice(), '\n');
        let ps = &index.paths[k];
        let ghost base = acc;
        let mut j: usize = 0;
        assert(vals[k as int].take(0) =~= Seq::<Seq<char>>::empty());
        assert(base =~= base + entry_lines(keys[k as int], vals[k as int].take(0)));
        while j < ps.len()
            invariant
                index.wf(),
                keys == index.keys(),
                vals == index.values(),
                k < index.oids@.len(),
                ps == index.paths@[k as int],
                oid@ == keys[k as int],
                oid_nl == has_char(oid@, '\n'),
                j <= ps@.len(),
                out@ == join_lines(acc),
                acc == base + entry_lines(keys[k as int], vals[k as int].take(j as int)),
            decreases ps@.len() - j,
        {
            let p = chars_of(ps[j].as_str());
            assert(vals[k as int].take(j + 1).drop_last() =~= vals[k as int].take(j as int));
            assert(vals[k as int][j as int] == p@);
            if !oid_nl && !contains_char(p.as_slice(), '\n') {
                let ghost line = oid@ + seq![' '] + p@;
                extend_chars(&mut out, oid.as_slice());
                out.push(' ');
                extend_chars(&mut out, p.as_slice());
                out.push('\n');
                proof {
                    lemma_join_lines_push(acc, line);
                    assert(out@ =~= join_lines(acc) + line + seq!['\n']);
                    acc = acc.push(line);
                    assert(acc =~= base + entry_lines(keys[k as int], vals[k as int].take(j + 1)));
                }
            } else {
                assert(acc =~= base + entry_lines(keys[k as int], vals[k as int].take(j + 1)));
            }
            j = j + 1;
        }
        proof {
            assert(vals[k as int].take(j as int) =~= vals[k as int]);
            assert(keys.take(k + 1).drop_last() =~= keys.take(k as int));
            assert(vals.take(k + 1).drop_last() =~= vals.take(k as int));
            assert(acc =~= seq![h@] + index_lines(keys.take(k + 1), vals.take(k + 1)));
        }
        k = k + 1;
    }
    proof {
        assert(keys.take(k as int) =~= keys);
        assert(vals.take(k as int) =~= vals);
    }
    string_of(out.as_slice())
}

/// An object id that the cache format can hold.
pub open spec fn is_cacheable_oid(o: Seq<char>) -> bool {
    o.len() > 0 && !has_char(o, ' ') && !has_char(o, '\n')
}

/// A path that the cache format can hold.
pub open spec fn is_cacheable_path(p: Seq<char>) -> bool {
    p.len() > 0 && !has_char(p, '\n') && p.last() != '\r'
}

/// A first line that reads back unchanged.
pub open spec fn is_cacheable_line(l: Seq<char>) -> bool {
    !has_char(l, '\n') && !(l.len() > 0 && l.last() == '\r')
}

/// One `(oid, path)` pair per path, in order.
pub open spec fn entry_pairs(oid: Seq<char>, ps: Seq<Seq<char>>) -> Seq<(Seq<char>, Seq<char>)>
    decreases ps.len(),
{
    if ps.len() == 0 {
        seq![]
    } else {
        entry_pairs(oid, ps.drop_last()).push((oid, ps.last()))
    }
}

/// The pairs of all object ids, in order.
pub open spec fn flat_pairs(keys: Seq<Seq<char>>, vals: Seq<Seq<Seq<char>>>) -> Seq<
    (Seq<char>, Seq<char>),
>
    decreases keys.len(),
{
    if keys.len() == 0 || vals.len() == 0 {
        seq![]
    } else {
        flat_pairs(keys.drop_last(), vals.drop_last()) + entry_pairs(keys.last(), vals.last())
    }
}

proof fn lemma_lines_join(xs: Seq<Seq<char>>)
    requires
        forall|i: int| 0 <= i < xs.len() ==> is_cacheable_line(#[trigger] xs[i]),
    ensures
        lines(join_lines(xs)) == xs,
    decreases xs.len(),
{
    if xs.len() == 0 {
        assert(lines(Seq::<char>::empty()) =~= Seq::<Seq<char>>::empty());
    } else {
        let ys = xs.drop_last();
        let x = xs.last();
        assert forall|i: int| 0 <= i < ys.len() implies is_cacheable_line(#[trigger] ys[i]) by {
            assert(ys[i] == xs[i]);
        }
        lemma_lines_join(ys);
        let j = join_lines(ys);
        if ys.len() > 0 {
            assert(j.last() == '\n');
        }
        assert(join_lines(xs) =~= j + x.push('\n'));
        lemma_lines_concat(j, x.push('\n'));
        assert(is_cacheable_line(xs[xs.len() - 1]));
        lemma_lines_single(x);
        assert(strip_cr(x) == x);
        assert(lines(join_lines(xs)) =~= xs);
    }
}

proof fn lemma_space_pairs_concat(a: Seq<Seq<char>>, b: Seq<Seq<char>>)
    ensures
        space_pairs(a + b) == space_pairs(a) + space_pairs(b),
    decreases b.len(),
{
    if b.len() == 0 {
        assert(a + b =~= a);
        assert(space_pairs(a) + space_pairs(b) =~= space_pairs(a));
    } else {
        assert((a + b).drop_last() =~= a + b.drop_last());
        assert((a + b).last() == b.last());
        lemma_space_pairs_concat(a, b.drop_last());
        match space_pair(b.last()) {
            Some(p) => {
                assert(space_pairs(a) + space_pairs(b.drop_last()).push(p) =~= (space_pairs(a)
                    + space_pairs(b.drop_last())).push(p));
            },
            None => {},
        }
    }
}

proof fn lemma_space_pair_line(oid: Seq<char>, p: Seq<char>)
    requires
        is_cacheable_oid(oid),
        p.len() > 0,
    ensures
        space_pair(oid + seq![' '] + p) == Some((oid, p)),
{
    let l = oid + seq![' '] + p;
    lemma_find_has_char(oid, ' ');
    crate::text::lemma_find_bounds(oid, ' ');
    assert(l =~= oid + (seq![' '] + p));
    lemma_find_absent(oid, seq![' '] + p, ' ');
    assert((seq![' '] + p)[0] == ' ');
    assert(find(seq![' '] + p, ' ') == 0);
    assert(l.take(oid.len() as int) =~= oid);
    assert(l.skip(oid.len() as int + 1) =~= p);
}

proof fn lemma_entry_lines_pairs(oid: Seq<char>, ps: Seq<Seq<char>>)
    requires
        is_cacheable_oid(oid),
        forall|i: int| 0 <= i < ps.len() ==> is_cacheable_path(#[trigger] ps[i]),
    ensures
        space_pairs(entry_lines(oid, ps)) == entry_pairs(oid, ps),
        forall|i: int|
            0 <= i < entry_lines(oid, ps).len() ==> is_cacheable_line(
                #[trigger] entry_lines(oid, ps)[i],
            ),
    decreases ps.len(),
{
    if ps.len() == 0 {
        assert(space_pairs(Seq::<Seq<char>>::empty()) =~= Seq::<(Seq<char>, Seq<char>)>::empty());
    } else {
        let rest = ps.drop_last();
        let p = ps.last();
        assert forall|i: int| 0 <= i < rest.len() implies is_cacheable_path(#[trigger] rest[i]) by {
            assert(rest[i] == ps[i]);
        }
        lemma_entry_lines_pairs(oid, rest);
        assert(is_cacheable_path(ps[ps.len() - 1]));
        let line = oid + seq![' '] + p;
        assert(entry_lines(oid, ps) == entry_lines(oid, rest) + seq![line]);
        lemma_space_pairs_concat(entry_lines(oid, rest), seq![line]);
        lemma_space_pair_line(oid, p);
        assert(seq![line].drop_last() =~= Seq::<Seq<char>>::empty());
        assert(space_pairs(Seq::<Seq<char>>::empty()) =~= Seq::<(Seq<char>, Seq<char>)>::empty());
        assert(space_pairs(seq![line]) =~= seq![(oid, p)]);
        assert(entry_pairs(oid, ps) =~= entry_pairs(oid, rest) + seq![(oid, p)]);
        assert forall|i: int| 0 <= i < entry_lines(oid, ps).len() implies is_cacheable_line(
            #[trigger] entry_lines(oid, ps)[i],
        ) by {
            if i < entry_lines(oid, rest).len() {
                assert(entry_lines(oid, ps)[i] == entry_lines(oid, rest)[i]);
            } else {
                assert(entry_lines(oid, ps)[i] == line);
                lemma_find_has_char(oid, '\n');
                lemma_find_has_char(p, '\n');
                assert(!has_char(line, '\n')) by {
                    if has_char(line, '\n') {
                        let k = choose|k: int| 0 <= k < line.len() && line[k] == '\n';
                        if k < oid.len() {
                            assert(oid[k] == '\n');
                        } else if k > oid.len() {
                            assert(p[k - oid.len() - 1] == '\n');
                        }
                    }
                }
                assert(line.last() == p.last());
            }
        }
    }
}

proof fn lemma_add_all_concat(
    m: Map<Seq<char>, Seq<Seq<char>>>,
    a: Seq<(Seq<char>, Seq<char>)>,
    b: Seq<(Seq<char>, Seq<char>)>,
)
    ensures
        add_all(m, a + b) == add_all(add_all(m, a), b),
    decreases b.len(),
{
    if b.len() == 0 {
        assert(a + b =~= a);
    } else {
        assert((a + b).drop_last() =~= a + b.drop_last());
        assert((a + b).last() == b.last());
        lemma_add_all_concat(m, a, b.drop_last());
    }
}

proof fn lemma_add_entry(m: Map<Seq<char>, Seq<Seq<char>>>, oid: Seq<char>, ps: Seq<Seq<char>>)
    requires
        !m.contains_key(oid),
        ps.len() > 0,
    ensures
        add_all(m, entry_pairs(oid, ps)) == m.insert(oid, ps),
    decreases ps.len(),
{
    let ep = entry_pairs(oid, ps);
    assert(ep == entry_pairs(oid, ps.drop_last()).push((oid, ps.last())));
    assert(ep.drop_last() =~= entry_pairs(oid, ps.drop_last()));
    assert(ep.last() == (oid, ps.last()));
    assert(add_all(m, ep) == map_add(add_all(m, ep.drop_last()), oid, ps.last()));
    if ps.len() == 1 {
        assert(entry_pairs(oid, ps.drop_last()) =~= Seq::<(Seq<char>, Seq<char>)>::empty());
        assert(seq![ps.last()] =~= ps);
        assert(add_all(m, ep) =~= m.insert(oid, ps));
    } else {
        lemma_add_entry(m, oid, ps.drop_last());
        assert(ps.drop_last().push(ps.last()) =~= ps);
        assert(add_all(m, ep) =~= m.insert(oid, ps));
    }
}

proof fn lemma_index_pairs(keys: Seq<Seq<char>>, vals: Seq<Seq<Seq<char>>>)
    requires
        keys.len() == vals.len(),
        forall|k: int| 0 <= k < keys.len() ==> is_cacheable_oid(#[trigger] keys[k]),
        forall|k: int, i: int|
            0 <= k < vals.len() && 0 <= i < vals[k].len() ==> is_cacheable_path(
                #[trigger] vals[k][i],
            ),
    ensures
        space_pairs(index_lines(keys, vals)) == flat_pairs(keys, vals),
        forall|i: int|
            0 <= i < index_lines(keys, vals).len() ==> is_cacheable_line(
                #[trigger] index_lines(keys, vals)[i],
            ),
    decreases keys.len(),
{
    if keys.len() == 0 {
        assert(space_pairs(Seq::<Seq<char>>::empty()) =~= Seq::<(Seq<char>, Seq<char>)>::empty());
    } else {
        let ks = keys.drop_last();
        let vs = vals.drop_last();
        assert forall|k: int| 0 <= k < ks.len() implies is_cacheable_oid(#[trigger] ks[k]) by {
            assert(ks[k] == keys[k]);
        }
        assert forall|k: int, i: int| 0 <= k < vs.len() && 0 <= i < vs[k].len() implies is_cacheable_path(
            #[trigger] vs[k][i],
        ) by {
            assert(vs[k] == vals[k]);
        }
        lemma_index_pairs(ks, vs);
        let last = vals.last();
        assert(is_cacheable_oid(keys[keys.len() - 1]));
        assert forall|i: int| 0 <= i < last.len() implies is_cacheable_path(#[trigger] last[i]) by {
            assert(last[i] == vals[vals.len() - 1][i]);
        }
        lemma_entry_lines_pairs(keys.last(), last);
        lemma_space_pairs_concat(index_lines(ks, vs), entry_lines(keys.last(), last));
        let il = index_lines(keys, vals);
        assert forall|i: int| 0 <= i < il.len() implies is_cacheable_line(#[trigger] il[i]) by {
            if i < index_lines(ks, vs).len() {
                assert(il[i] == index_lines(ks, vs)[i]);
            } else {
                assert(il[i] == entry_lines(keys.last(), last)[i - index_lines(ks, vs).len()]);
            }
        }
    }
}

/// The index of the first `k` object ids.
pub open spec fn prefix_map(keys: Seq<Seq<char>>, vals: Seq<Seq<Seq<char>>>, k: int) -> Map<
    Seq<char>,
    Seq<Seq<char>>,
> {
    Map::new(|o: Seq<char>| keys.take(k).contains(o), |o: Seq<char>| vals[position(keys, o)])
}

proof fn lemma_prefix_maps(keys: Seq<Seq<char>>, vals: Seq<Seq<Seq<char>>>, k: int)
    requires
        keys.len() == vals.len(),
        0 <= k <= keys.len(),
        forall|i: int, j: int| 0 <= i < j < keys.len() ==> keys[i] != keys[j],
        forall|i: int| 0 <= i < vals.len() ==> (#[trigger] vals[i]).len() > 0,
    ensures
        add_all(Map::empty(), flat_pairs(keys.take(k), vals.take(k))) == prefix_map(keys, vals, k),
    decreases k,
{
    if k == 0 {
        assert(flat_pairs(keys.take(0), vals.take(0)) =~= Seq::<(Seq<char>, Seq<char>)>::empty());
        assert(prefix_map(keys, vals, 0) =~= Map::<Seq<char>, Seq<Seq<char>>>::empty());
    } else {
        lemma_prefix_maps(keys, vals, k - 1);
        let kt = keys.take(k);
        let prev = keys.take(k - 1);
        let vt = vals.take(k);
        assert(kt.drop_last() =~= keys.take(k - 1));
        assert(vt.drop_last() =~= vals.take(k - 1));
        let m = prefix_map(keys, vals, k - 1);
        let o = keys[k - 1];
        lemma_add_all_concat(
            Map::empty(),
            flat_pairs(keys.take(k - 1), vals.take(k - 1)),
            entry_pairs(o, vals[k - 1]),
        );
        assert(!m.contains_key(o)) by {
            if prev.contains(o) {
                let j = choose|j: int| 0 <= j < prev.len() && prev[j] == o;
                assert(keys[j] == keys[k - 1]);
            }
        }
        lemma_add_entry(m, o, vals[k - 1]);
        lemma_position(keys, o);
        assert(position(keys, o) == k - 1) by {
            let p = position(keys, o);
            if p < k - 1 {
                assert(keys[p] == keys[k - 1]);
            }
        }
        assert(m.insert(o, vals[k - 1]) =~= prefix_map(keys, vals, k)) by {
            assert forall|x: Seq<char>| #[trigger] kt.contains(x) implies prev.contains(x) || x
                == o by {
                let j = choose|j: int| 0 <= j < kt.len() && kt[j] == x;
                if j < k - 1 {
                    assert(prev[j] == x);
                }
            }
            assert forall|x: Seq<char>| #[trigger] prev.contains(x) implies kt.contains(x) by {
                let j = choose|j: int| 0 <= j < prev.len() && prev[j] == x;
                assert(kt[j] == x);
            }
            assert(kt[k - 1] == o);
        }
    }
}

/// A cache written for `head` reads back, at that `head`, as the index it
/// was written from, provided every object id and path fits the line format
/// (object ids without spaces, neither with a `\n`, paths not ending in
/// `\r`, all non-empty).
pub proof fn cache_round_trip(index: PathIndex, head: Option<Seq<char>>)
    requires
        index.wf(),
        is_cacheable_line(head_line(head)),
        forall|o: Seq<char>| #[trigger] index@.contains_key(o) ==> is_cacheable_oid(o),
        forall|o: Seq<char>, i: int|
            index@.contains_key(o) && 0 <= i < index@[o].len() ==> is_cacheable_path(
                #[trigger] index@[o][i],
            ),
    ensures
        loaded_cache(index.cache_text(head), head) == Some(index@),
{
    let keys = index.keys();
    let vals = index.values();
    assert forall|k: int| 0 <= k < keys.len() implies is_cacheable_oid(#[trigger] keys[k]) by {
        index.lemma_view_at(k);
    }
    assert forall|k: int, i: int| 0 <= k < vals.len() && 0 <= i < vals[k].len() implies is_cacheable_path(
        #[trigger] vals[k][i],
    ) by {
        index.lemma_view_at(k);
        assert(index@[keys[k]][i] == vals[k][i]);
    }
    lemma_index_pairs(keys, vals);
    let ls = seq![head_line(head)] + index_lines(keys, vals);
    assert forall|i: int| 0 <= i < ls.len() implies is_cacheable_line(#[trigger] ls[i]) by {
        if i > 0 {
            assert(ls[i] == index_lines(keys, vals)[i - 1]);
        }
    }
    lemma_lines_join(ls);
    assert(ls.drop_first() =~= index_lines(keys, vals));
    assert forall|i: int, j: int| 0 <= i < j < keys.len() implies keys[i] != keys[j] by {
        assert(keys[i] == index.oids@[i]@ && keys[j] == index.oids@[j]@);
    }
    assert forall|i: int| 0 <= i < vals.len() implies (#[trigger] vals[i]).len() > 0 by {
        assert(vals[i] == strings_view(index.paths@[i]@));
    }
    lemma_prefix_maps(keys, vals, keys.len() as int);
    assert(keys.take(keys.len() as int) =~= keys);
    assert(vals.take(vals.len() as int) =~= vals);
    assert(prefix_map(keys, vals, keys.len() as int) =~= index@);
}

/// A cache written for one `HEAD` is not used once `HEAD` has moved.
pub proof fn stale_cache_is_ignored(index: PathIndex, written_for: Option<Seq<char>>, current: Option<Seq<char>>)
    requires
        index.wf(),
        is_cacheable_line(head_line(written_for)),
        head_line(written_for) != head_line(current),
    ensures
        loaded_cache(index.cache_text(written_for), current) is None,
{
    let ls = seq![head_line(written_for)] + index_lines(index.keys(), index.values());
    assert(ls =~= seq![head_line(written_for)] + ls.drop_first());
    lemma_join_lines_first(head_line(written_for), ls.drop_first());
}

proof fn lemma_join_lines_first(h: Seq<char>, rest: Seq<Seq<char>>)
    requires
        is_cacheable_line(h),
    ensures
        lines(join_lines(seq![h] + rest)).len() > 0,
        lines(join_lines(seq![h] + rest))[0] == h,
    decreases rest.len(),
{
    if rest.len() == 0 {
        assert(seq![h] + rest =~= seq![h]);
        lemma_lines_join(seq![h]);
    } else {
        let xs = seq![h] + rest;
        assert(xs.drop_last() =~= seq![h] + rest.drop_last());
        lemma_join_lines_first(h, rest.drop_last());
        let j = join_lines(seq![h] + rest.drop_last());
        assert(j.last() == '\n');
        lemma_lines_concat(j, rest.last().push('\n'));
        assert(join_lines(xs) =~= j + rest.last().push('\n'));
    }
}

/// When `HEAD` has moved since the cache was written, resolution does not
/// answer from the cache: it rebuilds the index from Git, answers from the
/// rebuilt index, and writes the cache back, now keyed by the current `HEAD`.
pub proof fn moved_head_rebuilds_cache(
    blob: Seq<char>,
    head: Option<Seq<char>>,
    cache_path: Seq<char>,
    cached: PathIndex,
    written_for: Option<Seq<char>>,
    text: String,
    s2: StateView,
    a2: ResolveAction,
    rev_list: Option<String>,
    ls_files: Option<String>,
    s3: StateView,
    a3: ResolveAction,
)
    requires
        cached.wf(),
        is_cacheable_line(head_line(written_for)),
        head_line(written_for) != head_line(head),
        text@ == cached.cache_text(written_for),
        resolve_transition(
            StateView::ReadingCache { blob, head, cache_path },
            ResolveEvent::CacheContents(Some(text)),
            s2,
            a2,
        ),
        resolve_transition(s2, ResolveEvent::Rebuilt { rev_list, ls_files }, s3, a3),
    ensures
        s2 == (StateView::Rebuilding { blob, head, cache_path: Some(cache_path) }),
        a2 == ResolveAction::Rebuild,
        s3 == StateView::Done,
        a3 matches ResolveAction::Finish { cache_write: Some((p, t)), paths: ps } && p@ == cache_path
            && strings_view(ps@) == lookup(
            rebuilt_index(opt_string_view(rev_list), opt_string_view(ls_files)),
            blob,
        ) && exists|ix: PathIndex|
            ix.wf() && ix@ == rebuilt_index(opt_string_view(rev_list), opt_string_view(ls_files))
                && t@ == ix.cache_text(head),
{
    stale_cache_is_ignored(cached, written_for, head);
    assert(opt_string_view(Some(text)) == Some(text@));
}

/// The value a Git command printed: its trimmed output, when that is not
/// empty (`None` also stands for a failed command or non-UTF-8 output).
pub open spec fn output_value(out: Option<Seq<char>>) -> Option<Seq<char>> {
    match out {
        Some(t) => if trim(t).len() > 0 {
            Some(trim(t))
        } else {
            None
        },
        None => None,
    }
}

/// The trimmed, non-empty output of a Git command.
pub fn git_output_value(stdout: Option<&str>) -> (r: Option<String>)
    ensures
        opt_string_view(r) == output_value(opt_view(stdout)),
{
    match stdout {
        Some(t) => {
            let v = chars_of(t);
            let tv = trim_chars(v.as_slice());
            if tv.len() > 0 {
                Some(string_of(tv.as_slice()))
            } else {
                None
            }
        },
        None => None,
    }
}

/// The text of an optional owned string.
pub open spec fn opt_string_view(o: Option<String>) -> Option<Seq<char>> {
    match o {
        Some(s) => Some(s@),
        None => None,
    }
}

/// `<git-dir>/git-sshripped/textconv-paths.cache`.
pub open spec fn cache_path_of(git_dir: Seq<char>) -> Seq<char> {
    join(join(git_dir, "git-sshripped"@), "textconv-paths.cache"@)
}

/// The cache file inside a Git directory.
pub fn cache_file_path(git_dir: &str) -> (r: String)
    ensures
        r@ == cache_path_of(git_dir@),
{
    let a = join_path(git_dir, "git-sshripped");
    join_path(a.as_str(), "textconv-paths.cache")
}

/// The paths recorded for `oid`, or none.
pub open spec fn lookup(m: Map<Seq<char>, Seq<Seq<char>>>, oid: Seq<char>) -> Seq<Seq<char>> {
    if m.contains_key(oid) {
        m[oid]
    } else {
        seq![]
    }
}

/// The index rebuilt from the output of `git rev-list --objects --all`
/// and `git ls-files -s` (each `None` when the command gave nothing usable).
pub open spec fn rebuilt_index(rev_list: Option<Seq<char>>, ls_files: Option<Seq<char>>) -> Map<
    Seq<char>,
    Seq<Seq<char>>,
> {
    let m1 = match rev_list {
        Some(t) => add_all(Map::empty(), space_pairs(lines(t))),
        None => Map::empty(),
    };
    match ls_files {
        Some(t) => add_all(m1, ls_files_pairs(lines(t))),
        None => m1,
    }
}

/// Where a resolution stands.
#[derive(Clone, Debug, PartialEq, Eq)]
pub enum ResolveState {
    /// Waiting for `git hash-object --stdin` on the content.
    HashingBlob { repo_root: String },
    /// Waiting for `git rev-parse HEAD`.
    ReadingHead { repo_root: String, blob: String },
    /// Waiting for `git rev-parse --git-dir`.
    LocatingGitDir { repo_root: String, blob: String, head: Option<String> },
    /// Waiting for the contents of the cache file.
    ReadingCache { blob: String, head: Option<String>, cache_path: String },
    /// Waiting for `git rev-list --objects --all` and `git ls-files -s`.
    Rebuilding { blob: String, head: Option<String>, cache_path: Option<String> },
    /// Finished.
    Done,
}

/// What the outside world reported.
#[derive(Clone, Debug, PartialEq, Eq)]
pub enum ResolveEvent {
    /// Output of `git hash-object --stdin`, if it succeeded with UTF-8 output.
    BlobHash(Option<String>),
    /// Output of `git rev-parse HEAD`, likewise.
    Head(Option<String>),
    /// Output of `git rev-parse --git-dir`, likewise.
    GitDir(Option<String>),
    /// Contents of the cache file, if it could be read as text.
    CacheContents(Option<String>),
    /// Outputs of `git rev-list --objects --all` and `git ls-files -s`.
    Rebuilt { rev_list: Option<String>, ls_files: Option<String> },
}

/// What to do next.
#[derive(Clone, Debug, PartialEq, Eq)]
pub enum ResolveAction {
    HashBlob,
    ReadHead,
    LocateGitDir,
    ReadCache { path: String },
    Rebuild,
    /// Write `cache_write.1` to the file `cache_write.0` (best effort; a
    /// failure is ignored), then answer `paths`.
    Finish { cache_write: Option<(String, String)>, paths: Vec<String> },
}

/// The text of a resolution state.
pub enum StateView {
    HashingBlob { repo_root: Seq<char> },
    ReadingHead { repo_root: Seq<char>, blob: Seq<char> },
    LocatingGitDir { repo_root: Seq<char>, blob: Seq<char>, head: Option<Seq<char>> },
    ReadingCache { blob: Seq<char>, head: Option<Seq<char>>, cache_path: Seq<char> },
    Rebuilding { blob: Seq<char>, head: Option<Seq<char>>, cache_path: Option<Seq<char>> },
    Done,
}

impl View for ResolveState {
    type V = StateView;

    open spec fn view(&self) -> StateView {
        match self {
            ResolveState::HashingBlob { repo_root } => StateView::HashingBlob {
                repo_root: repo_root@,
            },
            ResolveState::ReadingHead { repo_root, blob } => StateView::ReadingHead {
                repo_root: repo_root@,
                blob: blob@,
            },
            ResolveState::LocatingGitDir { repo_root, blob, head } => StateView::LocatingGitDir {
                repo_root: repo_root@,
                blob: blob@,
                head: opt_string_view(*head),
            },
            ResolveState::ReadingCache { blob, head, cache_path } => StateView::ReadingCache {
                blob: blob@,
                head: opt_string_view(*head),
                cache_path: cache_path@,
            },
            ResolveState::Rebuilding { blob, head, cache_path } => StateView::Rebuilding {
                blob: blob@,
                head: opt_string_view(*head),
                cache_path: opt_string_view(*cache_path),
            },
            ResolveState::Done => StateView::Done,
        }
    }
}

/// Whether `a` finishes with `paths` and no cache write.
pub open spec fn finishes_with(a: ResolveAction, paths: Seq<Seq<char>>) -> bool {
    a matches ResolveAction::Finish { cache_write: None, paths: ps } && strings_view(ps@) == paths
}

/// The step from `s` on event `e` to `s2` with action `a`.
pub open spec fn resolve_transition(
    s: StateView,
    e: ResolveEvent,
    s2: StateView,
    a: ResolveAction,
) -> bool {
    match (s, e) {
        (StateView::HashingBlob { repo_root }, ResolveEvent::BlobHash(out)) => match output_value(
            opt_string_view(out),
        ) {
            Some(blob) => s2 == StateView::ReadingHead { repo_root, blob } && a
                == ResolveAction::ReadHead,
            None => s2 == StateView::Done && finishes_with(a, seq![]),
        },
        (StateView::ReadingHead { repo_root, blob }, ResolveEvent::Head(out)) => s2
            == StateView::LocatingGitDir { repo_root, blob, head: output_value(opt_string_view(out)) }
            && a == ResolveAction::LocateGitDir,
        (StateView::LocatingGitDir { repo_root, blob, head }, ResolveEvent::GitDir(out)) => match output_value(
            opt_string_view(out),
        ) {
            Some(dir) => {
                let path = cache_path_of(join(repo_root, dir));
                &&& s2 == StateView::ReadingCache { blob, head, cache_path: path }
                &&& a matches ResolveAction::ReadCache { path: p } && p@ == path
            },
            None => s2 == StateView::Rebuilding { blob, head, cache_path: None } && a
                == ResolveAction::Rebuild,
        },
        (StateView::ReadingCache { blob, head, cache_path }, ResolveEvent::CacheContents(text)) => {
            let hit = match opt_string_view(text) {
                Some(t) => match loaded_cache(t, head) {
                    Some(m) => m.contains_key(blob),
                    None => false,
                },
                None => false,
            };
            if hit {
                s2 == StateView::Done && finishes_with(
                    a,
                    loaded_cache(opt_string_view(text)->Some_0, head)->Some_0[blob],
                )
            } else {
                s2 == StateView::Rebuilding { blob, head, cache_path: Some(cache_path) } && a
                    == ResolveAction::Rebuild
            }
        },
        (
            StateView::Rebuilding { blob, head, cache_path },
            ResolveEvent::Rebuilt { rev_list, ls_files },
        ) => {
            let m = rebuilt_index(opt_string_view(rev_list), opt_string_view(ls_files));
            &&& s2 == StateView::Done
            &&& a matches ResolveAction::Finish { cache_write: w, paths: ps }
            &&& strings_view(ps@) == lookup(m, blob)
            &&& match cache_path {
                None => w is None,
                Some(cp) => w matches Some((p, t)) && p@ == cp && exists|ix: PathIndex|
                    ix.wf() && ix@ == m && t@ == ix.cache_text(head),
            }
        },
        _ => s2 == StateView::Done && finishes_with(a, seq![]),
    }
}

/// Starts resolving the repository paths of some content.
pub fn resolve_start(repo_root: &str) -> (r: (ResolveState, ResolveAction))
    ensures
        r.0@ == (StateView::HashingBlob { repo_root: repo_root@ }),
        r.1 == ResolveAction::HashBlob,
{
    (ResolveState::HashingBlob { repo_root: String::from_str(repo_root) }, ResolveAction::HashBlob)
}

fn finish_empty() -> (a: ResolveAction)
    ensures
        finishes_with(a, seq![]),
{
    let paths: Vec<String> = Vec::new();
    assert(strings_view(paths@) =~= Seq::<Seq<char>>::empty());
    ResolveAction::Finish { cache_write: None, paths }
}

fn clone_opt(o: &Option<String>) -> (r: Option<String>)
    ensures
        opt_string_view(r) == opt_string_view(*o),
{
    match o {
        Some(s) => Some(s.clone()),
        None => None,
    }
}

fn as_opt_str(o: &Option<String>) -> (r: Option<&str>)
    ensures
        opt_view(r) == opt_string_view(*o),
{
    match o {
        Some(s) => Some(s.as_str()),
        None => None,
    }
}

/// One step of a resolution: the next state and the next thing to do,
/// given what the last action reported. A cached answer is used only when
/// the cache was written for the current `HEAD` and knows the blob; any
/// other outcome rebuilds the index, writes it back to the cache when the
/// Git directory is known, and answers from it. Every failure ends in an
/// empty answer.
pub fn resolve_step(state: ResolveState, event: ResolveEvent) -> (r: (ResolveState, ResolveAction))
    ensures
        resolve_transition(state@, event, r.0@, r.1),
{
    match (state, event) {
        (ResolveState::HashingBlob { repo_root }, ResolveEvent::BlobHash(out)) => {
            match git_output_value(as_opt_str(&out)) {
                Some(blob) => (ResolveState::ReadingHead { repo_root, blob }, ResolveAction::ReadHead),
                None => (ResolveState::Done, finish_empty()),
            }
        },
        (ResolveState::ReadingHead { repo_root, blob }, ResolveEvent::Head(out)) => {
            let head = git_output_value(as_opt_str(&out));
            (ResolveState::LocatingGitDir { repo_root, blob, head }, ResolveAction::LocateGitDir)
        },
        (ResolveState::LocatingGitDir { repo_root, blob, head }, ResolveEvent::GitDir(out)) => {
            match git_output_value(as_opt_str(&out)) {
                Some(dir) => {
                    let git_dir = join_path(repo_root.as_str(), dir.as_str());
                    let path = cache_file_path(git_dir.as_str());
                    let p2 = path.clone();
                    (
                        ResolveState::ReadingCache { blob, head, cache_path: path },
                        ResolveAction::ReadCache { path: p2 },
                    )
                },
                None => (
                    ResolveState::Rebuilding { blob, head, cache_path: None },
                    ResolveAction::Rebuild,
                ),
            }
        },
        (ResolveState::ReadingCache { blob, head, cache_path }, ResolveEvent::CacheContents(text)) => {
            let loaded = load_cache(as_opt_str(&text), as_opt_str(&head));
            match loaded {
                Some(ix) => {
                    let k = ix.find(blob.as_str());
                    if k < ix.oids.len() {
                        proof {
                            lemma_position(ix.keys(), blob@);
                            ix.lemma_view_at(k as int);
                        }
                        let paths = ix.take(blob.as_str());
                        return (
                            ResolveState::Done,
                            ResolveAction::Finish { cache_write: None, paths },
                        );
                    }
                    proof {
                        lemma_position(ix.keys(), blob@);
                    }
                },
                None => {},
            }
            (
                ResolveState::Rebuilding { blob, head, cache_path: Some(cache_path) },
                ResolveAction::Rebuild,
            )
        },
        (
            ResolveState::Rebuilding { blob, head, cache_path },
            ResolveEvent::Rebuilt { rev_list, ls_files },
        ) => {
            let mut index = PathIndex::new();
            match &rev_list {
                Some(t) => parse_rev_list_into(t.as_str(), &mut index),
                None => {},
            }
            match &ls_files {
                Some(t) => parse_ls_files_into(t.as_str(), &mut index),
                None => {},
            }
            let ghost m = index@;
            let write = match cache_path {
                Some(p) => {
                    let text = render_cache(&index, as_opt_str(&head));
                    Some((p, text))
                },
                None => None,
            };
            let ghost ix_witness = index;
            let paths = index.take(blob.as_str());
            (ResolveState::Done, ResolveAction::Finish { cache_write: write, paths })
        },
        _ => (ResolveState::Done, finish_empty()),
    }
}

} // verus!
