//! The mount registry and the two path translators.
//!
//! A registry holds bindings from virtual root names to real root paths.
//! Names are unique keys: mounting a name that is already bound replaces
//! its root (last write wins) and keeps its position. Translation scans
//! the bindings; when several mounted roots are prefixes of a real path,
//! the longest root wins, and among roots of equal length the one mounted
//! earliest wins, so translation is deterministic.

use vstd::prelude::*;

use crate::paths::find_head_len;
use crate::paths::head_of;
use crate::paths::join_path;
use crate::paths::joined;
use crate::paths::match_root;
use crate::paths::rest_of;
use crate::paths::root_matches;
use crate::paths::str_eq;
use crate::paths::suffix_after;

verus! {

/// The typed failure of both translation directions: the supplied path is
/// not under, and not equal to, any mounted root (real→virtual), or its
/// leading component names no mount (virtual→real).
#[derive(Clone, Copy, Debug, PartialEq, Eq, Structural)]
pub enum VfsError {
    NoMatch,
}

/// One mount record: a real root location and the virtual root name bound
/// to it. Immutable once loaded.
#[derive(Clone, Debug)]
pub struct MountPoint {
    pub source: String,
    pub name: String,
}

/// The spec-level shape of one binding: the pair (name, real root).
pub open spec fn entry_view(mp: MountPoint) -> (Seq<char>, Seq<char>) {
    (mp.name@, mp.source@)
}

/// No two bindings share a name.
pub open spec fn unique_names(es: Seq<(Seq<char>, Seq<char>)>) -> bool {
    forall|i: int, j: int| 0 <= i < j < es.len() ==> es[i].0 != es[j].0
}

/// The name→root mapping that a sequence of bindings denotes; a later
/// binding for the same name shadows an earlier one.
pub open spec fn map_of(es: Seq<(Seq<char>, Seq<char>)>) -> Map<Seq<char>, Seq<char>>
    decreases es.len(),
{
    if es.len() == 0 {
        Map::empty()
    } else {
        map_of(es.drop_last()).insert(es.last().0, es.last().1)
    }
}

/// The binding at index `k` matches the real path `p`: its root is `p`
/// itself or a component-wise prefix of `p`.
pub open spec fn matches_at(es: Seq<(Seq<char>, Seq<char>)>, p: Seq<char>, k: int) -> bool {
    0 <= k < es.len() && root_matches(es[k].1, p)
}

/// The index that real→virtual translation picks among the first `n`
/// bindings: the first one whose root is longest among all that match
/// `p`, or `None` when none of the first `n` matches.
pub open spec fn best_upto(es: Seq<(Seq<char>, Seq<char>)>, p: Seq<char>, n: int) -> Option<int>
    decreases n,
{
    if n <= 0 {
        None
    } else {
        let prev = best_upto(es, p, n - 1);
        if matches_at(es, p, n - 1) {
            match prev {
                Option::None => Some(n - 1),
                Option::Some(b) => if es[n - 1].1.len() > es[b].1.len() {
                    Some(n - 1)
                } else {
                    Some(b)
                },
            }
        } else {
            prev
        }
    }
}

/// `k` is the binding that the documented tie-break rule selects for `p`:
/// it matches, no matching root is longer than its root, and among
/// matching roots of the same length it comes first.
pub open spec fn chosen_at(es: Seq<(Seq<char>, Seq<char>)>, p: Seq<char>, k: int) -> bool {
    &&& matches_at(es, p, k)
    &&& forall|j: int| #[trigger] matches_at(es, p, j) ==> es[j].1.len() <= es[k].1.len()
    &&& forall|j: int| #[trigger] matches_at(es, p, j) && es[j].1.len() == es[k].1.len() ==> k <= j
}

/// What real→virtual translation returns over the bindings `es` for the
/// real path `p`: `None` when no root matches, else the selected mount's
/// name joined with the suffix of `p` beyond that mount's root.
pub open spec fn rtv_spec(es: Seq<(Seq<char>, Seq<char>)>, p: Seq<char>) -> Option<Seq<char>> {
    match best_upto(es, p, es.len() as int) {
        Option::None => None,
        Option::Some(k) => Some(joined(es[k].0, suffix_after(es[k].1, p))),
    }
}

/// What virtual→real translation returns over the mapping `m` for the
/// virtual path `v`: `None` when the leading component of `v` names no
/// mount, else that mount's root joined with the remainder of `v`.
pub open spec fn vtr_spec(m: Map<Seq<char>, Seq<char>>, v: Seq<char>) -> Option<Seq<char>> {
    if m.contains_key(head_of(v)) {
        Some(joined(m[head_of(v)], rest_of(v)))
    } else {
        None
    }
}

/// The name→root mapping built by mounting each record in order.
pub open spec fn registry_of(rs: Seq<MountPoint>) -> Map<Seq<char>, Seq<char>>
    decreases rs.len(),
{
    if rs.len() == 0 {
        Map::empty()
    } else {
        registry_of(rs.drop_last()).insert(rs.last().name@, rs.last().source@)
    }
}

/// `best_upto` selects exactly the binding that `chosen_at` describes,
/// restricted to the first `n` bindings, and returns `None` exactly when
/// none of them matches.
pub proof fn lemma_best_upto(es: Seq<(Seq<char>, Seq<char>)>, p: Seq<char>, n: int)
    requires
        0 <= n <= es.len(),
    ensures
        match best_upto(es, p, n) {
            Option::None => forall|k: int| 0 <= k < n ==> !matches_at(es, p, k),
            Option::Some(b) => {
                &&& 0 <= b < n
                &&& matches_at(es, p, b)
                &&& forall|j: int| 0 <= j < n && #[trigger] matches_at(es, p, j) ==> es[j].1.len()
                    <= es[b].1.len()
                &&& forall|j: int|
                    0 <= j < n && #[trigger] matches_at(es, p, j) && es[j].1.len()
                        == es[b].1.len() ==> b <= j
            },
        },
    decreases n,
{
    if n > 0 {
        lemma_best_upto(es, p, n - 1);
    }
}

/// Membership in the denoted mapping is exactly having a binding with
/// that name.
pub proof fn lemma_map_of_contains(es: Seq<(Seq<char>, Seq<char>)>, x: Seq<char>)
    ensures
        map_of(es).contains_key(x) <==> exists|k: int|
            0 <= k < es.len() && (#[trigger] es[k]).0 == x,
    decreases es.len(),
{
    if es.len() > 0 {
        let dl = es.drop_last();
        lemma_map_of_contains(dl, x);
        assert(forall|k: int| 0 <= k < dl.len() ==> dl[k] == es[k]);
        if map_of(es).contains_key(x) {
            if x == es.last().0 {
                assert((es[es.len() - 1]).0 == x);
            } else {
                let k = choose|k: int| 0 <= k < dl.len() && (#[trigger] dl[k]).0 == x;
                assert((es[k]).0 == x);
            }
        }
        if exists|k: int| 0 <= k < es.len() && (#[trigger] es[k]).0 == x {
            let k = choose|k: int| 0 <= k < es.len() && (#[trigger] es[k]).0 == x;
            if k < es.len() - 1 {
                assert((dl[k]).0 == x);
            }
        }
    }
}

/// With unique names, the denoted mapping sends each binding's name to
/// that binding's root.
pub proof fn lemma_map_of_index(es: Seq<(Seq<char>, Seq<char>)>, i: int)
    requires
        unique_names(es),
        0 <= i < es.len(),
    ensures
        map_of(es).contains_key(es[i].0),
        map_of(es)[es[i].0] == es[i].1,
    decreases es.len(),
{
    if i < es.len() - 1 {
        let dl = es.drop_last();
        assert(forall|k: int| 0 <= k < dl.len() ==> dl[k] == es[k]);
        lemma_map_of_index(dl, i);
        assert(es[i].0 != es.last().0);
    }
}

/// Updating the binding at `i` without changing its name denotes the same
/// mapping as inserting the new root for that name.
proof fn lemma_map_of_update(es: Seq<(Seq<char>, Seq<char>)>, i: int, e: (Seq<char>, Seq<char>))
    requires
        unique_names(es),
        0 <= i < es.len(),
        es[i].0 == e.0,
    ensures
        map_of(es.update(i, e)) == map_of(es).insert(e.0, e.1),
    decreases es.len(),
{
    let es2 = es.update(i, e);
    if i == es.len() - 1 {
        assert(es2.drop_last() =~= es.drop_last());
        assert(es2.last() == e);
        assert(map_of(es.drop_last()).insert(e.0, es[i].1).insert(e.0, e.1) =~= map_of(
            es.drop_last(),
        ).insert(e.0, e.1));
    } else {
        let dl = es.drop_last();
        assert(forall|k: int| 0 <= k < dl.len() ==> dl[k] == es[k]);
        assert(es2.drop_last() =~= dl.update(i, e));
        assert(es2.last() == es.last());
        lemma_map_of_update(dl, i, e);
        assert(e.0 != es.last().0);
        assert(map_of(dl).insert(e.0, e.1).insert(es.last().0, es.last().1) =~= map_of(
            dl,
        ).insert(es.last().0, es.last().1).insert(e.0, e.1));
    }
}

/// Appending a binding denotes inserting it into the mapping.
proof fn lemma_map_of_push(es: Seq<(Seq<char>, Seq<char>)>, e: (Seq<char>, Seq<char>))
    ensures
        map_of(es.push(e)) == map_of(es).insert(e.0, e.1),
{
    assert(es.push(e).drop_last() =~= es);
    assert(es.push(e).last() == e);
}

/// The mount registry: an in-memory collection of bindings from virtual
/// root names to real root paths, scanned by the two translators.
pub struct VFS {
    mounts: Vec<MountPoint>,
}

impl View for VFS {
    type V = Map<Seq<char>, Seq<char>>;

    open spec fn view(&self) -> Map<Seq<char>, Seq<char>> {
        map_of(self.entries())
    }
}

impl VFS {
    /// The bindings in mount order, as (name, real root) pairs.
    pub closed spec fn entries(&self) -> Seq<(Seq<char>, Seq<char>)> {
        self.mounts@.map_values(|mp: MountPoint| entry_view(mp))
    }

    /// Well-formedness: no two bindings share a name, so the registry is
    /// a pure function from name to root.
    pub open spec fn wf(&self) -> bool {
        unique_names(self.entries())
    }

    /// An empty registry.
    pub fn new() -> (r: VFS)
        ensures
            r.wf(),
            r.entries() == Seq::<(Seq<char>, Seq<char>)>::empty(),
            r@ == Map::<Seq<char>, Seq<char>>::empty(),
    {
        let r = VFS { mounts: Vec::new() };
        proof {
            assert(r.entries() =~= Seq::<(Seq<char>, Seq<char>)>::empty());
        }
        r
    }

    /// The index of the binding named `name`, if any.
    fn find_name(&self, name: &str) -> (r: Option<usize>)
        ensures
            match r {
                Option::Some(i) => 0 <= i < self.entries().len() && self.entries()[i as int].0
                    == name@,
                Option::None => forall|j: int|
                    0 <= j < self.entries().len() ==> (#[trigger] self.entries()[j]).0 != name@,
            },
    {
        let n = self.mounts.len();
        let mut k: usize = 0;
        while k < n
            invariant
                0 <= k <= n,
                n == self.mounts@.len(),
                forall|j: int| 0 <= j < k ==> (#[trigger] self.entries()[j]).0 != name@,
            decreases n - k,
        {
            if str_eq(self.mounts[k].name.as_str(), name) {
                proof {
                    assert(self.entries()[k as int] == entry_view(self.mounts@[k as int]));
                }
                return Some(k);
            }
            proof {
                assert(self.entries()[k as int] == entry_view(self.mounts@[k as int]));
            }
            k = k + 1;
        }
        None
    }

    /// Binds `name` to `real_path`, replacing the root of an existing
    /// binding of the same name (which keeps its position) or appending a
    /// new binding. Never fails; the fallible signature is kept so that a
    /// future implementation may add checks without changing the call
    /// contract.
    pub fn mount(&mut self, real_path: &str, name: &str) -> (r: Result<(), VfsError>)
        requires
            old(self).wf(),
        ensures
            r is Ok,
            final(self).wf(),
            final(self)@ == old(self)@.insert(name@, real_path@),
            !old(self)@.contains_key(name@) ==> final(self).entries() == old(self).entries().push(
                (name@, real_path@),
            ),
            old(self)@.contains_key(name@) ==> exists|i: int|
                0 <= i < old(self).entries().len() && (#[trigger] old(self).entries()[i]).0
                    == name@ && final(self).entries() == old(self).entries().update(
                    i,
                    (name@, real_path@),
                ),
    {
        let mp = MountPoint { source: real_path.to_owned(), name: name.to_owned() };
        let found = self.find_name(name);
        proof {
            lemma_map_of_contains(self.entries(), name@);
        }
        match found {
            Option::Some(i) => {
                let ghost es = self.entries();
                self.mounts.set(i, mp);
                proof {
                    assert(self.entries() =~= es.update(i as int, (name@, real_path@)));
                    lemma_map_of_update(es, i as int, (name@, real_path@));
                }
            },
            Option::None => {
                let ghost es = self.entries();
                self.mounts.push(mp);
                proof {
                    assert(self.entries() =~= es.push((name@, real_path@)));
                    lemma_map_of_push(es, (name@, real_path@));
                }
            },
        }
        Ok(())
    }

    /// Translates a real filesystem path into the virtual namespace: the
    /// longest mounted root that is a component-wise prefix of
    /// `real_path` (earliest mounted on a length tie) is replaced by its
    /// name. Fails with `NoMatch` exactly when no mounted root matches.
    pub fn real_to_virtual(&self, real_path: &str) -> (r: Result<String, VfsError>)
        ensures
            match r {
                Ok(p) => rtv_spec(self.entries(), real_path@) == Some(p@),
                Err(e) => rtv_spec(self.entries(), real_path@) is None && e == VfsError::NoMatch,
            },
    {
        let ghost es = self.entries();
        let ghost p = real_path@;
        let n = self.mounts.len();
        let mut best: Option<usize> = None;
        let mut k: usize = 0;
        while k < n
            invariant
                0 <= k <= n,
                n == self.mounts@.len(),
                es == self.entries(),
                p == real_path@,
                match best {
                    Option::Some(b) => 0 <= b < n && best_upto(es, p, k as int) == Some(b as int),
                    Option::None => best_upto(es, p, k as int) is None,
                },
            decreases n - k,
        {
            proof {
                assert(es[k as int] == entry_view(self.mounts@[k as int]));
            }
            if match_root(self.mounts[k].source.as_str(), real_path) {
                best = match best {
                    Option::None => Some(k),
                    Option::Some(b) => {
                        proof {
                            assert(es[b as int] == entry_view(self.mounts@[b as int]));
                        }
                        if self.mounts[k].source.unicode_len()
                            > self.mounts[b].source.unicode_len() {
                            Some(k)
                        } else {
                            Some(b)
                        }
                    },
                };
            }
            k = k + 1;
        }
        match best {
            Option::None => Err(VfsError::NoMatch),
            Option::Some(b) => {
                proof {
                    assert(es[b as int] == entry_view(self.mounts@[b as int]));
                }
                let name = &self.mounts[b].name;
                let root = &self.mounts[b].source;
                let rn = root.unicode_len();
                let pn = real_path.unicode_len();
                proof {
                    lemma_best_upto(es, p, n as int);
                }
                if pn - rn <= 1 {
                    Ok(name.clone())
                } else {
                    let suffix = real_path.substring_char(rn + 1, pn);
                    let r = join_path(name.as_str(), suffix);
                    proof {
                        assert(suffix@ =~= suffix_after(root@, p));
                    }
                    Ok(r)
                }
            },
        }
    }

    /// Translates a virtual path into a real one: its leading component
    /// must name a mount, and is replaced by that mount's real root.
    /// Fails with `NoMatch` exactly when the leading component names no
    /// mount.
    pub fn virtual_to_real(&self, virtual_path: &str) -> (r: Result<String, VfsError>)
        requires
            self.wf(),
        ensures
            match r {
                Ok(p) => vtr_spec(self@, virtual_path@) == Some(p@),
                Err(e) => vtr_spec(self@, virtual_path@) is None && e == VfsError::NoMatch,
            },
    {
        let ghost v = virtual_path@;
        let hl = find_head_len(virtual_path);
        let vn = virtual_path.unicode_len();
        let head = virtual_path.substring_char(0, hl);
        proof {
            assert(head@ =~= head_of(v));
        }
        match self.find_name(head) {
            Option::Some(i) => {
                proof {
                    lemma_map_of_index(self.entries(), i as int);
                    assert(self.entries()[i as int] == entry_view(self.mounts@[i as int]));
                }
                let root = &self.mounts[i].source;
                if vn - hl <= 1 {
                    proof {
                        assert(rest_of(v).len() == 0);
                    }
                    Ok(root.clone())
                } else {
                    let rest = virtual_path.substring_char(hl + 1, vn);
                    proof {
                        assert(rest@ =~= rest_of(v));
                    }
                    Ok(join_path(root.as_str(), rest))
                }
            },
            Option::None => {
                proof {
                    lemma_map_of_contains(self.entries(), head_of(v));
                }
                Err(VfsError::NoMatch)
            },
        }
    }

    /// Read-only view of the full set of bindings, in mount order, for
    /// enumeration by external callers.
    pub fn get_mount_points(&self) -> (r: &Vec<MountPoint>)
        ensures
            r@.len() == self.entries().len(),
            forall|i: int|
                0 <= i < r@.len() ==> (#[trigger] r@[i]).name@ == self.entries()[i].0
                    && r@[i].source@ == self.entries()[i].1,
    {
        &self.mounts
    }

    /// Builds a registry by mounting every record in order; a later
    /// record for the same name wins.
    pub fn from_mount_points(points: &Vec<MountPoint>) -> (r: VFS)
        ensures
            r.wf(),
            r@ == registry_of(points@),
    {
        let mut vfs = VFS::new();
        let n = points.len();
        let mut i: usize = 0;
        while i < n
            invariant
                0 <= i <= n,
                n == points@.len(),
                vfs.wf(),
                vfs@ == registry_of(points@.take(i as int)),
            decreases n - i,
        {
            let _ = vfs.mount(points[i].source.as_str(), points[i].name.as_str());
            proof {
                assert(points@.take(i + 1).drop_last() =~= points@.take(i as int));
                assert(points@.take(i + 1).last() == points@[i as int]);
            }
            i = i + 1;
        }
        proof {
            assert(points@.take(n as int) =~= points@);
        }
        vfs
    }
}

} // verus!
