//! Text ordering helpers.
//!
//! Paths are compared lexicographically by character. Since UTF-8 preserves
//! code-point order, this is the same order `str`'s byte-wise comparison
//! gives, which the hardlink collapse relies on to pick one canonical name
//! per inode.

use vstd::prelude::*;
use vstd::string::StrSliceExecFns;

verus! {

broadcast use vstd::utf8::char_u32_cast, vstd::utf8::char_is_scalar;

/// Lexicographic order on character sequences: `a` is at most `b`.
pub open spec fn str_le(a: Seq<char>, b: Seq<char>) -> bool
    decreases a.len(),
{
    if a.len() == 0 {
        true
    } else if b.len() == 0 {
        false
    } else if (a[0] as u32) < (b[0] as u32) {
        true
    } else if (a[0] as u32) > (b[0] as u32) {
        false
    } else {
        str_le(a.skip(1), b.skip(1))
    }
}

/// The order is reflexive.
pub proof fn lemma_str_le_refl(a: Seq<char>)
    ensures
        str_le(a, a),
    decreases a.len(),
{
    if a.len() > 0 {
        lemma_str_le_refl(a.skip(1));
    }
}

/// The order is antisymmetric: sequences below each other are equal.
pub proof fn lemma_str_le_antisym(a: Seq<char>, b: Seq<char>)
    requires
        str_le(a, b),
        str_le(b, a),
    ensures
        a == b,
    decreases a.len(),
{
    if a.len() == 0 {
        assert(b.len() == 0);
        assert(a =~= b);
    } else {
        assert(b.len() > 0);
        vstd::utf8::char_u32_cast(a[0], a[0] as u32);
        vstd::utf8::char_u32_cast(b[0], b[0] as u32);
        assert(!((a[0] as u32) > (b[0] as u32)));
        assert(!((b[0] as u32) > (a[0] as u32)));
        assert(a[0] == b[0]);
        lemma_str_le_antisym(a.skip(1), b.skip(1));
        assert(a.len() == b.len());
        assert forall|i: int| 0 <= i < a.len() implies a[i] == b[i] by {
            if i > 0 {
                assert(a.skip(1)[i - 1] == a[i]);
                assert(b.skip(1)[i - 1] == b[i]);
            }
        }
        assert(a =~= b);
    }
}

/// Decides `str_le` on string slices.
pub fn str_le_exec(a: &str, b: &str) -> (r: bool)
    ensures
        r == str_le(a@, b@),
{
    let alen = a.unicode_len();
    let blen = b.unicode_len();
    let mut i: usize = 0;
    proof {
        assert(a@.skip(0) =~= a@);
        assert(b@.skip(0) =~= b@);
    }
    loop
        invariant
            i <= alen,
            i <= blen,
            alen == a@.len(),
            blen == b@.len(),
            str_le(a@, b@) == str_le(a@.skip(i as int), b@.skip(i as int)),
        ensures
            i == alen || i == blen,
            str_le(a@, b@) == (if i == alen {
                true
            } else {
                false
            }),
        decreases alen - i,
    {
        if i == alen {
            proof {
                assert(a@.skip(i as int).len() == 0);
            }
            break ;
        }
        if i == blen {
            proof {
                assert(b@.skip(i as int).len() == 0);
                assert(a@.skip(i as int).len() > 0);
            }
            break ;
        }
        let ca = a.get_char(i);
        let cb = b.get_char(i);
        proof {
            assert(a@.skip(i as int)[0] == a@[i as int]);
            assert(b@.skip(i as int)[0] == b@[i as int]);
            assert(a@.skip(i as int).skip(1) =~= a@.skip(i + 1));
            assert(b@.skip(i as int).skip(1) =~= b@.skip(i + 1));
        }
        if (ca as u32) < (cb as u32) {
            proof {
                assert(str_le(a@.skip(i as int), b@.skip(i as int)));
            }
            return true;
        }
        if (ca as u32) > (cb as u32) {
            proof {
                assert(!str_le(a@.skip(i as int), b@.skip(i as int)));
            }
            return false;
        }
        i = i + 1;
    }
    // One string is a prefix of the other: the shorter comes first.
    i == alen
}

/// Decides equality of two string slices by their characters.
pub fn str_eq_exec(a: &str, b: &str) -> (r: bool)
    ensures
        r == (a@ == b@),
{
    let le1 = str_le_exec(a, b);
    let le2 = str_le_exec(b, a);
    proof {
        if le1 && le2 {
            lemma_str_le_antisym(a@, b@);
        }
        if a@ == b@ {
            lemma_str_le_refl(a@);
        }
    }
    le1 && le2
}

/// The least element of a non-empty list of strings under `str_le`.
pub open spec fn min_str_of(xs: Seq<String>) -> Seq<char>
    decreases xs.len(),
{
    if xs.len() <= 1 {
        xs[0]@
    } else {
        let m = min_str_of(xs.skip(1));
        if str_le(xs[0]@, m) {
            xs[0]@
        } else {
            m
        }
    }
}

/// Finds the least string of a non-empty list.
pub fn min_str_exec(xs: &Vec<String>) -> (r: &String)
    requires
        xs@.len() >= 1,
    ensures
        r@ == min_str_of(xs@),
{
    // Walk from the tail, mirroring the recursive definition.
    let mut i: usize = xs.len() - 1;
    let mut bi: usize = xs.len() - 1;
    loop
        invariant
            xs@.len() >= 1,
            bi < xs@.len(),
            i < xs@.len(),
            xs@[bi as int]@ == min_str_of(xs@.skip(i as int)),
        ensures
            i == 0,
            bi < xs@.len(),
            xs@[bi as int]@ == min_str_of(xs@.skip(0)),
        decreases i,
    {
        if i == 0 {
            break ;
        }
        let j = i - 1;
        proof {
            assert(xs@.skip(j as int)[0] == xs@[j as int]);
            assert(xs@.skip(j as int).skip(1) =~= xs@.skip(j + 1));
            assert(xs@.skip(j as int).len() == xs@.len() - j >= 2);
        }
        if str_le_exec(xs[j].as_str(), xs[bi].as_str()) {
            bi = j;
        }
        i = j;
    }
    proof {
        assert(xs@.skip(0) =~= xs@);
    }
    &xs[bi]
}

} // verus!
