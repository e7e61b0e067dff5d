//! How a key's name is derived from a source path, and how the fallback
//! `key<N>` names are generated.
//!
//! Paths are plain character strings; `/` separates components and the last
//! `.` of the final component, when it does not open that component, starts
//! the extension.

use vstd::prelude::*;
use vstd::string::StrSliceExecFns;

use crate::strutil::{dec_digits, str_chars};

verus! {

/// Where the final path component begins: just after the last `/`, or 0.
pub open spec fn file_name_start(p: Seq<char>) -> int
    decreases p.len(),
{
    if p.len() == 0 {
        0
    } else if p.last() == '/' {
        p.len() as int
    } else {
        file_name_start(p.drop_last())
    }
}

/// The index of the last `.` that follows the last `/`, or -1 if the final
/// component holds no `.`.
pub open spec fn last_dot(p: Seq<char>) -> int
    decreases p.len(),
{
    if p.len() == 0 {
        -1
    } else if p.last() == '.' {
        p.len() - 1
    } else if p.last() == '/' {
        -1
    } else {
        last_dot(p.drop_last())
    }
}

/// Where the extension of the final component begins (the `.`), or the
/// length of `p` when there is none. A `.` opening the component does not
/// start an extension.
pub open spec fn stem_end(p: Seq<char>) -> int {
    if last_dot(p) > file_name_start(p) {
        last_dot(p)
    } else {
        p.len() as int
    }
}

/// `p` with the extension of its final component removed.
pub open spec fn strip_ext(p: Seq<char>) -> Seq<char> {
    p.take(stem_end(p))
}

/// The stem of the final component of `p`: the component without its
/// extension, or nothing when the component is empty.
pub open spec fn file_stem(p: Seq<char>) -> Option<Seq<char>> {
    if file_name_start(p) < p.len() {
        Some(p.subrange(file_name_start(p), stem_end(p)))
    } else {
        None
    }
}

pub proof fn lemma_file_name_start_bounds(p: Seq<char>)
    ensures
        0 <= file_name_start(p) <= p.len(),
    decreases p.len(),
{
    if p.len() > 0 && p.last() != '/' {
        lemma_file_name_start_bounds(p.drop_last());
    }
}

pub proof fn lemma_last_dot_bounds(p: Seq<char>)
    ensures
        -1 <= last_dot(p) < p.len(),
        last_dot(p) >= 0 ==> p[last_dot(p)] == '.',
    decreases p.len(),
{
    if p.len() > 0 && p.last() != '.' && p.last() != '/' {
        lemma_last_dot_bounds(p.drop_last());
    }
}

/// Where the final component of `p.take(i)` begins, for a scan that has
/// seen no `/` at or beyond `i`.
proof fn lemma_file_name_start_step(p: Seq<char>, i: int)
    requires
        0 < i <= p.len(),
        p[i - 1] != '/',
    ensures
        file_name_start(p.take(i)) == file_name_start(p.take(i - 1)),
{
    assert(p.take(i).last() == p[i - 1]);
    assert(p.take(i).drop_last() =~= p.take(i - 1));
}

proof fn lemma_last_dot_step(p: Seq<char>, i: int)
    requires
        0 < i <= p.len(),
        p[i - 1] != '/',
        p[i - 1] != '.',
    ensures
        last_dot(p.take(i)) == last_dot(p.take(i - 1)),
{
    assert(p.take(i).last() == p[i - 1]);
    assert(p.take(i).drop_last() =~= p.take(i - 1));
}

/// Where the final component of `p` begins.
pub fn scan_file_name_start(p: &Vec<char>) -> (r: usize)
    ensures
        r == file_name_start(p@),
{
    proof {
        assert(p@.take(p@.len() as int) =~= p@);
    }
    let mut i: usize = p.len();
    while i > 0
        invariant
            i <= p@.len(),
            file_name_start(p@) == file_name_start(p@.take(i as int)),
        decreases i,
    {
        if p[i - 1] == '/' {
            proof {
                assert(p@.take(i as int).last() == p@[i - 1]);
            }
            return i;
        }
        proof {
            lemma_file_name_start_step(p@, i as int);
        }
        i = i - 1;
    }
    0
}

/// The index just past the last `.` of the final component, or 0 when it
/// has none: `scan_last_dot(p) - 1` is `last_dot(p@)` when positive.
pub fn scan_stem_end(p: &Vec<char>) -> (r: usize)
    ensures
        r == stem_end(p@),
{
    proof {
        assert(p@.take(p@.len() as int) =~= p@);
        lemma_last_dot_bounds(p@);
        lemma_file_name_start_bounds(p@);
    }
    let name_start = scan_file_name_start(p);
    let mut i: usize = p.len();
    while i > 0
        invariant
            i <= p@.len(),
            name_start == file_name_start(p@),
            last_dot(p@) == last_dot(p@.take(i as int)),
        decreases i,
    {
        let c = p[i - 1];
        proof {
            assert(p@.take(i as int).last() == p@[i - 1]);
        }
        if c == '.' {
            if i - 1 > name_start {
                return i - 1;
            } else {
                return p.len();
            }
        }
        if c == '/' {
            return p.len();
        }
        proof {
            lemma_last_dot_step(p@, i as int);
        }
        i = i - 1;
    }
    p.len()
}

/// The fallback name for index `n`.
pub open spec fn keyname(n: nat) -> Seq<char> {
    seq!['k', 'e', 'y'] + dec_digits(n)
}

/// Fallback names are distinct for distinct indices.
pub proof fn lemma_keyname_injective(m: nat, n: nat)
    requires
        keyname(m) == keyname(n),
    ensures
        m == n,
{
    assert(keyname(m).skip(3) =~= dec_digits(m));
    assert(keyname(n).skip(3) =~= dec_digits(n));
    crate::strutil::lemma_dec_digits_injective(m, n);
}

/// The fallback name for index `n`, as characters.
pub fn keyname_chars(n: u128) -> (r: Vec<char>)
    ensures
        r@ == keyname(n as nat),
{
    let mut r: Vec<char> = Vec::new();
    r.push('k');
    r.push('e');
    r.push('y');
    let d = crate::strutil::dec_chars(n);
    let nd = d.len();
    let mut i: usize = 0;
    while i < nd
        invariant
            nd == d@.len(),
            i <= nd,
            d@ == dec_digits(n as nat),
            r@ == seq!['k', 'e', 'y'] + d@.take(i as int),
        decreases nd - i,
    {
        r.push(d[i]);
        i = i + 1;
        proof {
            assert(r@ =~= seq!['k', 'e', 'y'] + d@.take(i as int));
        }
    }
    proof {
        assert(r@ =~= keyname(n as nat));
    }
    r
}

} // verus!
