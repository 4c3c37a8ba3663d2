//! General laws of the registry and the translators, proved once and for
//! all over the spec-level model that the exec contracts use.

use vstd::prelude::*;

use crate::paths::head_of;
use crate::paths::head_split;
use crate::paths::joined;
use crate::paths::lemma_head_split;
use crate::paths::no_sep;
use crate::paths::rest_of;
use crate::paths::suffix_after;
use crate::vfs::best_upto;
use crate::vfs::chosen_at;
use crate::vfs::lemma_best_upto;
use crate::vfs::lemma_map_of_index;
use crate::vfs::map_of;
use crate::vfs::matches_at;
use crate::vfs::rtv_spec;
use crate::vfs::unique_names;
use crate::vfs::vtr_spec;

verus! {

/// No-trailing-component identity: when `name` is bound to `root` and is
/// a single component, translating the bare virtual path `name` yields
/// `root` exactly, with no trailing separator artifact.
pub proof fn lemma_no_trailing_identity(
    m: Map<Seq<char>, Seq<char>>,
    name: Seq<char>,
    root: Seq<char>,
)
    requires
        no_sep(name),
        m.contains_key(name),
        m[name] == root,
    ensures
        vtr_spec(m, name) == Some(root),
{
    lemma_head_split(name);
    assert(name.take(name.len() as int) =~= name);
    assert(head_split(name, name.len() as int));
    assert(head_of(name) =~= name);
}

/// Unmounted miss: a real path that no mounted root matches, and a
/// virtual path whose leading component names no mount, both fail to
/// translate.
pub proof fn lemma_unmounted_miss(es: Seq<(Seq<char>, Seq<char>)>, p: Seq<char>, v: Seq<char>)
    requires
        forall|k: int| !matches_at(es, p, k),
        !map_of(es).contains_key(head_of(v)),
    ensures
        rtv_spec(es, p) is None,
        vtr_spec(map_of(es), v) is None,
{
    lemma_best_upto(es, p, es.len() as int);
    match best_upto(es, p, es.len() as int) {
        Option::None => {},
        Option::Some(b) => {
            assert(matches_at(es, p, b));
        },
    }
}

/// Overwrite semantics: binding `x` to `root_a` and then to `root_b`
/// leaves the registry exactly as if `x` had only ever been bound to
/// `root_b`, and `x` resolves to `root_b`.
pub proof fn lemma_overwrite_last_wins(
    m: Map<Seq<char>, Seq<char>>,
    x: Seq<char>,
    root_a: Seq<char>,
    root_b: Seq<char>,
)
    ensures
        m.insert(x, root_a).insert(x, root_b) == m.insert(x, root_b),
        m.insert(x, root_a).insert(x, root_b).contains_key(x),
        m.insert(x, root_a).insert(x, root_b)[x] == root_b,
{
    assert(m.insert(x, root_a).insert(x, root_b) =~= m.insert(x, root_b));
}

/// With unique names there is at most one binding per name: two indices
/// holding the same name are the same index.
pub proof fn lemma_unique_binding(es: Seq<(Seq<char>, Seq<char>)>, i: int, j: int)
    requires
        unique_names(es),
        0 <= i < es.len(),
        0 <= j < es.len(),
        es[i].0 == es[j].0,
    ensures
        i == j,
{
}

/// The real→virtual tie-break rule is deterministic: whenever some
/// mounted root matches, translation selects a binding, that binding is
/// the one `chosen_at` describes (longest matching root, earliest
/// mounted on a length tie), and only one binding fits that description.
pub proof fn lemma_tie_break(es: Seq<(Seq<char>, Seq<char>)>, p: Seq<char>)
    requires
        exists|k: int| matches_at(es, p, k),
    ensures
        best_upto(es, p, es.len() as int) is Some,
        forall|k: int| best_upto(es, p, es.len() as int) == Some(k) ==> #[trigger] chosen_at(
            es,
            p,
            k,
        ),
        forall|k1: int, k2: int|
            #[trigger] chosen_at(es, p, k1) && #[trigger] chosen_at(es, p, k2) ==> k1 == k2,
{
    lemma_best_upto(es, p, es.len() as int);
    match best_upto(es, p, es.len() as int) {
        Option::None => {
            let k = choose|k: int| matches_at(es, p, k);
            assert(!matches_at(es, p, k));
        },
        Option::Some(b) => {
            assert(chosen_at(es, p, b));
        },
    }
    assert forall|k1: int, k2: int|
        #[trigger] chosen_at(es, p, k1) && #[trigger] chosen_at(es, p, k2) implies k1 == k2 by {
        assert(matches_at(es, p, k1));
        assert(matches_at(es, p, k2));
        assert(es[k1].1.len() <= es[k2].1.len());
        assert(es[k2].1.len() <= es[k1].1.len());
    }
}

/// Round-trip: for a mounted pair `(root, name)` whose name is a single
/// component, and any relative suffix `s` (including the empty one),
/// real→virtual maps `root/s` to `name/s` and virtual→real maps `name/s`
/// back to `root/s`, provided no other binding's root matches `root/s`.
/// Each translation therefore undoes the other on such paths.
pub proof fn lemma_round_trip(
    es: Seq<(Seq<char>, Seq<char>)>,
    name: Seq<char>,
    root: Seq<char>,
    s: Seq<char>,
)
    requires
        unique_names(es),
        no_sep(name),
        exists|i: int| 0 <= i < es.len() && #[trigger] es[i] == (name, root),
        forall|k: int| #[trigger] matches_at(es, joined(root, s), k) ==> es[k] == (name, root),
    ensures
        rtv_spec(es, joined(root, s)) == Some(joined(name, s)),
        vtr_spec(map_of(es), joined(name, s)) == Some(joined(root, s)),
{
    let p = joined(root, s);
    let i = choose|i: int| 0 <= i < es.len() && #[trigger] es[i] == (name, root);
    lemma_map_of_index(es, i);

    // The mounted pair itself matches `root/s`.
    if s.len() == 0 {
        assert(p == root);
    } else {
        assert(p.take(root.len() as int) =~= root);
        assert(p[root.len() as int] == '/');
    }
    assert(matches_at(es, p, i));

    // Real→virtual picks a binding equal to (name, root) and strips the
    // root, leaving exactly `s`.
    lemma_best_upto(es, p, es.len() as int);
    match best_upto(es, p, es.len() as int) {
        Option::None => {
            assert(!matches_at(es, p, i));
        },
        Option::Some(b) => {
            assert(matches_at(es, p, b));
            assert(es[b] == (name, root));
            if s.len() == 0 {
                assert(suffix_after(root, p) =~= s);
            } else {
                assert(p.len() == root.len() + 1 + s.len());
                assert(p.skip(root.len() as int + 1) =~= s);
            }
            assert(rtv_spec(es, p) == Some(joined(name, s)));
        },
    }

    // Virtual→real splits `name/s` at the first separator, which sits
    // right after `name`, and rebinds the head to `root`.
    let v = joined(name, s);
    if s.len() == 0 {
        lemma_no_trailing_identity(map_of(es), name, root);
    } else {
        assert(v.take(name.len() as int) =~= name);
        assert(v[name.len() as int] == '/');
        assert(head_split(v, name.len() as int));
        lemma_head_split(v);
        assert(head_of(v) =~= name);
        assert(rest_of(v) =~= s);
    }
}

} // verus!
