//! The path model: paths are strings whose components are separated by
//! single `/` characters, with no leading or trailing separator expected.
//! The spec functions here define how a path is split into its first
//! component and the rest, how one path is recognised as a component-wise
//! prefix of another, and how two relative paths are joined.

use vstd::prelude::*;

verus! {

/// True when `s` contains no `/` separator at all.
pub open spec fn no_sep(s: Seq<char>) -> bool {
    forall|i: int| 0 <= i < s.len() ==> s[i] != '/'
}

/// True when `i` is the length of the first component of `v`: everything
/// before `i` is separator-free, and `i` is either the end of the path or
/// the position of the first separator.
pub open spec fn head_split(v: Seq<char>, i: int) -> bool {
    &&& 0 <= i <= v.len()
    &&& no_sep(v.take(i))
    &&& (i == v.len() || v[i] == '/')
}

/// The length of the first component of `v` (the whole of `v` when it
/// holds no separator). Well-defined because exactly one index satisfies
/// `head_split` (see `lemma_head_split`).
pub open spec fn head_len(v: Seq<char>) -> int {
    choose|i: int| head_split(v, i)
}

/// The first component of `v`.
pub open spec fn head_of(v: Seq<char>) -> Seq<char> {
    v.take(head_len(v))
}

/// What remains of `v` after its first component and the separator that
/// follows it; empty when the first component is the whole path.
pub open spec fn rest_of(v: Seq<char>) -> Seq<char> {
    if head_len(v) == v.len() {
        Seq::empty()
    } else {
        v.skip(head_len(v) + 1)
    }
}

/// `a` joined with the relative suffix `b`: `a` alone when `b` is empty,
/// else `a`, a separator, and `b`.
pub open spec fn joined(a: Seq<char>, b: Seq<char>) -> Seq<char> {
    if b.len() == 0 {
        a
    } else {
        a + seq!['/'] + b
    }
}

/// Component-wise prefix test: `p` is equal to `root`, or extends `root`
/// at a component boundary (the character right after `root` is `/`).
pub open spec fn root_matches(root: Seq<char>, p: Seq<char>) -> bool {
    ||| p == root
    ||| (root.len() < p.len() && p.take(root.len() as int) == root && p[root.len() as int] == '/')
}

/// The suffix of `p` beyond a matching `root` and the separator after it;
/// empty when `p` is the root itself (with or without a trailing separator).
pub open spec fn suffix_after(root: Seq<char>, p: Seq<char>) -> Seq<char> {
    if p.len() <= root.len() + 1 {
        Seq::empty()
    } else {
        p.skip(root.len() as int + 1)
    }
}

/// Some index satisfies `head_split`, and no two distinct indices do:
/// the first component of a path is well-defined.
pub proof fn lemma_head_split(v: Seq<char>)
    ensures
        head_split(v, head_len(v)),
        forall|i: int| head_split(v, i) ==> i == head_len(v),
    decreases v.len(),
{
    if v.len() == 0 {
        assert(head_split(v, 0));
    } else if v[0] == '/' {
        assert(head_split(v, 0));
    } else {
        lemma_head_split(v.skip(1));
        let j = head_len(v.skip(1));
        assert(head_split(v.skip(1), j));
        assert forall|k: int| 0 <= k < j + 1 implies #[trigger] v.take(j + 1)[k] != '/' by {
            if k > 0 {
                assert(v.skip(1).take(j)[k - 1] != '/');
                assert(v.skip(1).take(j)[k - 1] == v[k]);
            }
        }
        if j + 1 < v.len() {
            assert(v[j + 1] == v.skip(1)[j]);
        }
        assert(head_split(v, j + 1));
    }
    let h = choose|i: int| head_split(v, i);
    assert(head_split(v, h));
    assert forall|i: int| head_split(v, i) implies i == h by {
        lemma_head_split_unique(v, i, h);
    }
}

/// Two indices that both split off the first component are equal.
proof fn lemma_head_split_unique(v: Seq<char>, i: int, j: int)
    requires
        head_split(v, i),
        head_split(v, j),
    ensures
        i == j,
{
    if i < j {
        assert(v[i] == '/');
        assert(v.take(j)[i] == v[i]);
        assert(false);
    }
    if j < i {
        assert(v[j] == '/');
        assert(v.take(i)[j] == v[j]);
        assert(false);
    }
}

/// The length of the first component of `s`, found by scanning for the
/// first separator.
pub fn find_head_len(s: &str) -> (i: usize)
    ensures
        i as int == head_len(s@),
        head_split(s@, i as int),
{
    let n = s.unicode_len();
    let mut i: usize = 0;
    while i < n
        invariant
            0 <= i <= n,
            n == s@.len(),
            forall|j: int| 0 <= j < i ==> s@[j] != '/',
        decreases n - i,
    {
        if s.get_char(i) == '/' {
            proof {
                assert(forall|j: int| 0 <= j < i ==> s@.take(i as int)[j] == s@[j]);
                assert(head_split(s@, i as int));
                lemma_head_split(s@);
            }
            return i;
        }
        i = i + 1;
    }
    proof {
        assert(forall|j: int| 0 <= j < n ==> s@.take(n as int)[j] == s@[j]);
        assert(head_split(s@, n as int));
        lemma_head_split(s@);
    }
    n
}

/// String equality by character-wise comparison.
pub fn str_eq(a: &str, b: &str) -> (r: bool)
    ensures
        r == (a@ == b@),
{
    let an = a.unicode_len();
    let bn = b.unicode_len();
    if an != bn {
        return false;
    }
    let mut i: usize = 0;
    while i < an
        invariant
            0 <= i <= an,
            an == a@.len(),
            an == b@.len(),
            forall|j: int| 0 <= j < i ==> a@[j] == b@[j],
        decreases an - i,
    {
        if a.get_char(i) != b.get_char(i) {
            return false;
        }
        i = i + 1;
    }
    proof {
        assert(a@ =~= b@);
    }
    true
}

/// Component-wise prefix test between concrete strings; decides
/// `root_matches` exactly.
pub fn match_root(root: &str, p: &str) -> (r: bool)
    ensures
        r == root_matches(root@, p@),
{
    let rn = root.unicode_len();
    let pn = p.unicode_len();
    if pn < rn {
        return false;
    }
    let mut i: usize = 0;
    while i < rn
        invariant
            0 <= i <= rn,
            rn == root@.len(),
            pn == p@.len(),
            rn <= pn,
            forall|j: int| 0 <= j < i ==> p@[j] == root@[j],
        decreases rn - i,
    {
        if root.get_char(i) != p.get_char(i) {
            proof {
                assert(p@ != root@);
                assert(p@.take(rn as int)[i as int] == p@[i as int]);
            }
            return false;
        }
        i = i + 1;
    }
    proof {
        assert(p@.take(rn as int) =~= root@);
    }
    if pn == rn {
        proof {
            assert(p@ =~= root@);
        }
        true
    } else {
        p.get_char(rn) == '/'
    }
}

/// Joins `a` and the relative suffix `b` with a `/` separator, following
/// `joined`.
pub fn join_path(a: &str, b: &str) -> (r: String)
    ensures
        r@ == joined(a@, b@),
{
    if b.unicode_len() == 0 {
        proof {
            assert(b@ =~= Seq::<char>::empty());
        }
        a.to_owned()
    } else {
        let mut r = a.to_owned();
        r.append("/");
        r.append(b);
        proof {
            reveal_strlit("/");
            assert(("/")@ =~= seq!['/']);
            assert(r@ =~= a@ + seq!['/'] + b@);
        }
        r
    }
}

} // verus!
