//! Paths as character sequences, joined the way `Path::join` joins them on
//! Unix: an absolute component replaces the base, otherwise one `/` is
//! placed between base and component unless the base is empty or already
//! ends with `/`.

use vstd::prelude::*;
use crate::text::{chars_of, extend_chars, string_of};

verus! {

/// Whether a path component starts at the file-system root.
pub open spec fn is_absolute(p: Seq<char>) -> bool {
    p.len() > 0 && p[0] == '/'
}

/// `base.join(p)` on Unix.
pub open spec fn join(base: Seq<char>, p: Seq<char>) -> Seq<char> {
    if is_absolute(p) {
        p
    } else if base.len() == 0 {
        p
    } else if base.last() == '/' {
        base + p
    } else {
        base + seq!['/'] + p
    }
}

/// Joins a component onto a base path.
pub fn join_path(base: &str, p: &str) -> (r: String)
    ensures
        r@ == join(base@, p@),
{
    let bv = chars_of(base);
    let pv = chars_of(p);
    if pv.len() > 0 && pv[0] == '/' {
        return string_of(&pv);
    }
    if bv.len() == 0 {
        return string_of(&pv);
    }
    let mut out = bv;
    if out[out.len() - 1] != '/' {
        out.push('/');
    }
    extend_chars(&mut out, &pv);
    string_of(&out)
}

/// Joining a relative component keeps the base as a proper prefix.
pub proof fn lemma_join_relative(base: Seq<char>, p: Seq<char>)
    requires
        !is_absolute(p),
    ensures
        base.len() <= join(base, p).len(),
        join(base, p).take(base.len() as int) == base,
        base.len() > 0 && base.last() != '/' ==> join(base, p) == base + seq!['/'] + p,
{
    assert(join(base, p).take(base.len() as int) =~= base);
}

/// Joining onto a fixed base is injective on relative components.
pub proof fn lemma_join_injective(base: Seq<char>, p: Seq<char>, q: Seq<char>)
    requires
        !is_absolute(p),
        !is_absolute(q),
    ensures
        (join(base, p) == join(base, q)) == (p == q),
{
    if join(base, p) == join(base, q) {
        if base.len() == 0 {
        } else if base.last() == '/' {
            assert(p =~= join(base, p).skip(base.len() as int));
            assert(q =~= join(base, q).skip(base.len() as int));
        } else {
            assert(p =~= join(base, p).skip(base.len() as int + 1));
            assert(q =~= join(base, q).skip(base.len() as int + 1));
        }
    }
}

} // verus!
