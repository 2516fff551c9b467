//! Groups of linked places, kept as a forest of parents.
//!
//! Each place has a number and a parent whose number is not larger; a place
//! that is its own parent is the root of its group.  Two places are in one
//! group where they have the same root.
use std::collections::HashSet;
use vstd::prelude::*;

verus! {

broadcast use vstd::std_specs::hash::group_hash_axioms;

/// Whether each parent is a place of the forest with a number that is not
/// larger than that of its child.
pub open spec fn is_forest(parent: Seq<usize>) -> bool {
    forall|i: int| 0 <= i < parent.len() ==> #[trigger] parent[i] <= i
}

/// The root of the group of the place `x`: the place that is reached from
/// `x` by going from parent to parent.
pub open spec fn root_of(parent: Seq<usize>, x: int) -> int
    decreases x,
{
    if 0 <= x < parent.len() && parent[x] < x {
        root_of(parent, parent[x] as int)
    } else {
        x
    }
}

/// The forest after the way from the place `x` to its root has been
/// shortened: `x` and the places between it and its root are children of
/// the root.
pub open spec fn shortened(parent: Seq<usize>, x: int) -> Seq<usize>
    decreases x,
{
    if 0 <= x < parent.len() && parent[x] < x {
        shortened(parent, parent[x] as int).update(x, root_of(parent, x) as usize)
    } else {
        parent
    }
}

/// The forest after the groups of the places `x` and `y` have been put
/// together: the ways from both to their roots are shortened, and the root
/// with the larger number is a child of the other.
pub open spec fn joined(parent: Seq<usize>, x: int, y: int) -> Seq<usize> {
    let short = shortened(shortened(parent, x), y);
    let root_x = root_of(parent, x);
    let root_y = root_of(parent, y);
    if root_x == root_y {
        short
    } else if root_x < root_y {
        short.update(root_y, root_x as usize)
    } else {
        short.update(root_x, root_y as usize)
    }
}

/// Whether the forest `after` has the places of the forest `before`, each
/// with the root that it had.
pub open spec fn keeps_roots(before: Seq<usize>, after: Seq<usize>) -> bool {
    &&& after.len() == before.len()
    &&& forall|y: int| 0 <= y < before.len() ==> root_of(after, y) == root_of(before, y)
}

/// Whether each place of the forest `after` has the parent that it had in
/// the forest `before`, or its root.
pub open spec fn lifts_to_roots(before: Seq<usize>, after: Seq<usize>) -> bool {
    &&& after.len() == before.len()
    &&& forall|y: int|
        0 <= y < before.len() ==> #[trigger] after[y] == before[y] || after[y] == root_of(
            before,
            y,
        )
}

/// Whether the places `a` and `b` are in one group once the groups of `x`
/// and `y` are put together: they were in one group, or one of them was in
/// the group of `x` and the other in that of `y`.
pub open spec fn in_one_group_with(parent: Seq<usize>, x: int, y: int, a: int, b: int) -> bool {
    ||| root_of(parent, a) == root_of(parent, b)
    ||| root_of(parent, a) == root_of(parent, x) && root_of(parent, b) == root_of(parent, y)
    ||| root_of(parent, a) == root_of(parent, y) && root_of(parent, b) == root_of(parent, x)
}

/// The roots of a forest.
pub open spec fn roots_of(parent: Seq<usize>) -> Set<usize> {
    Set::new(|r: usize| r < parent.len() && parent[r as int] == r)
}

/// Whether two places are linked by the pairs of `links`, directly or by
/// way of other places.
pub open spec fn are_linked(links: Seq<(usize, usize)>, a: int, b: int) -> bool
    decreases links.len(),
{
    if links.len() == 0 {
        a == b
    } else {
        let before = links.drop_last();
        let (x, y) = links.last();
        ||| are_linked(before, a, b)
        ||| are_linked(before, a, x as int) && are_linked(before, y as int, b)
        ||| are_linked(before, a, y as int) && are_linked(before, x as int, b)
    }
}

/// The number of groups into which `links` put the places numbered from 0
/// to `count - 1`: the number of places that are linked with no place of a
/// smaller number.
pub open spec fn group_count(count: nat, links: Seq<(usize, usize)>) -> nat {
    Set::new(
        |a: usize| a < count && forall|b: int| 0 <= b < a ==> !are_linked(links, a as int, b),
    ).len()
}

/// A forest of parents over the places numbered from 0 on.
pub struct DSU {
    pub parent: Vec<usize>,
}

impl DSU {
    /// The validity of the forest: no parent has a larger number than its
    /// child.
    pub open spec fn is_valid(&self) -> bool {
        is_forest(self.parent@)
    }

    /// The root of the group of the place `x`.
    pub open spec fn root(&self, x: int) -> int {
        root_of(self.parent@, x)
    }

    /// A forest without places.
    pub fn new() -> (dsu: DSU)
        ensures
            dsu.parent@.len() == 0,
            dsu.is_valid(),
    {
        DSU { parent: Vec::new() }
    }

    /// Adds a place with the parent `n`: a group of its own where `n` is
    /// the number of the new place, which is the number of places so far.
    pub fn add(&mut self, n: usize)
        requires
            old(self).is_valid(),
            n <= old(self).parent.len(),
        ensures
            final(self).is_valid(),
            final(self).parent@ == old(self).parent@.push(n),
            forall|x: int|
                0 <= x < old(self).parent.len() ==> final(self).root(x) == old(self).root(x),
            n == old(self).parent.len() ==> final(self).root(n as int) == n,
    {
        self.parent.push(n);
        proof {
            assert forall|x: int| 0 <= x < old(self).parent.len() implies self.root(x) == old(
                self
            ).root(x) by {
                lemma_root_after_push(old(self).parent@, n, x);
            }
        }
    }

    /// The root of the group of the place `x`.  On the way, `x` becomes a
    /// child of its root, and so do the places between them.
    pub fn find(&mut self, x: usize) -> (root: usize)
        requires
            old(self).is_valid(),
            x < old(self).parent.len(),
        ensures
            final(self).is_valid(),
            root == old(self).root(x as int),
            root <= x,
            final(self).parent@ == shortened(old(self).parent@, x as int),
            final(self).parent[x as int] == root,
            keeps_roots(old(self).parent@, final(self).parent@),
            lifts_to_roots(old(self).parent@, final(self).parent@),
        decreases x,
    {
        proof {
            lemma_root_is_root(self.parent@, x as int);
        }
        if self.parent[x] != x {
            let above: usize = self.parent[x];
            let root: usize = self.find(above);
            let ghost before = self.parent@;
            self.parent[x] = root;
            proof {
                assert(root_of(before, x as int) == root);
                assert forall|y: int| 0 <= y < before.len() implies root_of(self.parent@, y)
                    == root_of(before, y) by {
                    lemma_root_after_shortcut(before, x as int, y);
                }
            }
        }
        self.parent[x]
    }

    /// Puts the groups of the places `x` and `y` together: the root with
    /// the larger number becomes a child of the other.
    pub fn union(&mut self, x: usize, y: usize)
        requires
            old(self).is_valid(),
            x < old(self).parent.len(),
            y < old(self).parent.len(),
        ensures
            final(self).is_valid(),
            final(self).parent.len() == old(self).parent.len(),
            final(self).parent@ == joined(old(self).parent@, x as int, y as int),
            forall|a: int, b: int|
                0 <= a < old(self).parent.len() && 0 <= b < old(self).parent.len() ==> (
                #[trigger] final(self).root(a) == #[trigger] final(self).root(b)
                    <==> in_one_group_with(old(self).parent@, x as int, y as int, a, b)),
    {
        let root_x: usize = self.find(x);
        let root_y: usize = self.find(y);
        let ghost before = self.parent@;
        if root_x != root_y {
            if root_x < root_y {
                self.parent[root_y] = root_x;
            } else {
                self.parent[root_x] = root_y;
            }
        }
        proof {
            let low = if root_x < root_y {
                root_x
            } else {
                root_y
            };
            let high = if root_x < root_y {
                root_y
            } else {
                root_x
            };
            lemma_root_is_root(before, x as int);
            lemma_root_is_root(before, y as int);
            assert forall|a: int| 0 <= a < before.len() implies root_of(self.parent@, a) == (
            if root_of(before, a) == high {
                low as int
            } else {
                root_of(before, a)
            }) by {
                if root_x != root_y {
                    lemma_root_after_join(before, low as int, high as int, a);
                }
            }
        }
    }

    /// The number of groups.  On the way, each place becomes a child of its
    /// root.
    pub fn get_isolated_part(&mut self) -> (count: usize)
        requires
            old(self).is_valid(),
        ensures
            final(self).is_valid(),
            keeps_roots(old(self).parent@, final(self).parent@),
            forall|y: int|
                0 <= y < old(self).parent.len() ==> #[trigger] final(self).parent[y] == old(
                    self
                ).root(y),
            roots_of(final(self).parent@) == roots_of(old(self).parent@),
            count == roots_of(old(self).parent@).len(),
            count <= old(self).parent.len(),
    {
        let mut i: usize = 0;
        while i < self.parent.len()
            invariant
                i <= self.parent.len(),
                self.is_valid(),
                keeps_roots(old(self).parent@, self.parent@),
                lifts_to_roots(old(self).parent@, self.parent@),
                forall|y: int| 0 <= y < i ==> #[trigger] self.parent[y] == old(self).root(y),
            decreases self.parent.len() - i,
        {
            self.find(i);
            i = i + 1;
        }
        let mut unique: HashSet<usize> = HashSet::new();
        let mut k: usize = 0;
        while k < self.parent.len()
            invariant
                k <= self.parent.len(),
                self.parent.len() == old(self).parent.len(),
                forall|v: usize|
                    unique@.contains(v) <==> exists|y: int|
                        0 <= y < k && #[trigger] self.parent[y] == v,
                unique@.finite(),
                unique@.len() <= k,
            decreases self.parent.len() - k,
        {
            let value: usize = self.parent[k];
            let ghost before = unique@;
            unique.insert(value);
            proof {
                assert forall|v: usize| unique@.contains(v) <==> exists|y: int|
                    0 <= y < k + 1 && #[trigger] self.parent[y] == v by {
                    if before.contains(v) {
                        let y = choose|y: int| 0 <= y < k && #[trigger] self.parent[y] == v;
                        assert(self.parent[y] == v);
                    }
                    if v == value {
                        assert(self.parent[k as int] == v);
                    }
                    if exists|y: int| 0 <= y < k + 1 && #[trigger] self.parent[y] == v {
                        let y = choose|y: int| 0 <= y < k + 1 && #[trigger] self.parent[y] == v;
                        if y < k {
                            assert(before.contains(v));
                        }
                    }
                }
            }
            k = k + 1;
        }
        proof {
            let now = self.parent@;
            let then = old(self).parent@;
            assert forall|r: usize| roots_of(now).contains(r) <==> roots_of(then).contains(r) by {
                if r < now.len() {
                    lemma_root_is_root(then, r as int);
                    lemma_root_is_root(now, r as int);
                }
            }
            assert(roots_of(now) =~= roots_of(then));
            assert forall|v: usize| unique@.contains(v) <==> roots_of(now).contains(v) by {
                if unique@.contains(v) {
                    let y = choose|y: int| 0 <= y < k && #[trigger] now[y] == v;
                    lemma_root_is_root(then, y);
                    lemma_root_is_root(now, v as int);
                }
                if roots_of(now).contains(v) {
                    assert(now[v as int] == v);
                }
            }
            assert(unique@ =~= roots_of(now));
        }
        unique.len()
    }
}

/// The number of groups into which `links` put the places numbered from 0
/// to `count - 1`.
pub fn count_groups(count: usize, links: &Vec<(usize, usize)>) -> (groups: usize)
    requires
        forall|i: int|
            0 <= i < links.len() ==> (#[trigger] links[i]).0 < count && links[i].1 < count,
    ensures
        groups <= count,
        groups == group_count(count as nat, links@),
{
    let mut dsu = DSU::new();
    let mut n: usize = 0;
    while n < count
        invariant
            n <= count,
            dsu.is_valid(),
            dsu.parent.len() == n,
            forall|a: int| 0 <= a < n ==> dsu.root(a) == a,
        decreases count - n,
    {
        dsu.add(n);
        n = n + 1;
    }
    let mut i: usize = 0;
    assert(links@.take(0) =~= Seq::<(usize, usize)>::empty());
    while i < links.len()
        invariant
            i <= links.len(),
            dsu.is_valid(),
            dsu.parent.len() == count,
            forall|k: int|
                0 <= k < links.len() ==> (#[trigger] links[k]).0 < count && links[k].1 < count,
            forall|a: int, b: int|
                0 <= a < count && 0 <= b < count ==> (#[trigger] dsu.root(a)
                    == #[trigger] dsu.root(b)
                    <==> are_linked(links@.take(i as int), a, b)),
        decreases links.len() - i,
    {
        let link: (usize, usize) = links[i];
        let ghost before = dsu;
        dsu.union(link.0, link.1);
        proof {
            let next = links@.take(i + 1);
            assert(next.drop_last() =~= links@.take(i as int));
            assert(next.last() == link);
            assert forall|a: int, b: int| 0 <= a < count && 0 <= b < count implies (
            #[trigger] dsu.root(a) == #[trigger] dsu.root(b) <==> are_linked(next, a, b)) by {
                let x = link.0 as int;
                let y = link.1 as int;
                assert(before.root(a)
                    == before.root(x) <==> are_linked(links@.take(i as int), a, x));
                assert(before.root(y)
                    == before.root(b) <==> are_linked(links@.take(i as int), y, b));
                assert(before.root(a)
                    == before.root(y) <==> are_linked(links@.take(i as int), a, y));
                assert(before.root(x)
                    == before.root(b) <==> are_linked(links@.take(i as int), x, b));
                assert(before.root(a)
                    == before.root(b) <==> are_linked(links@.take(i as int), a, b));
            }
        }
        i = i + 1;
    }
    assert(links@.take(i as int) =~= links@);
    let ghost linked = dsu;
    let groups: usize = dsu.get_isolated_part();
    proof {
        let parent = dsu.parent@;
        let least = Set::new(
            |a: usize|
                a < count && forall|b: int| 0 <= b < a ==> !are_linked(links@, a as int, b),
        );
        assert forall|a: usize| roots_of(parent).contains(a) <==> least.contains(a) by {
            if a < count {
                assert(dsu.root(a as int) == linked.root(a as int));
                lemma_root_is_root(parent, a as int);
                if roots_of(parent).contains(a) {
                    assert forall|b: int| 0 <= b < a implies !are_linked(links@, a as int, b) by {
                        assert(dsu.root(b) == linked.root(b));
                        lemma_root_is_root(parent, b);
                        assert(linked.root(a as int) == linked.root(b) <==> are_linked(
                            links@,
                            a as int,
                            b,
                        ));
                    }
                }
                if least.contains(a) {
                    let r = root_of(parent, a as int);
                    assert(dsu.root(r) == linked.root(r));
                    assert(linked.root(a as int) == linked.root(r) <==> are_linked(
                        links@,
                        a as int,
                        r,
                    ));
                }
            }
        }
        assert(roots_of(parent) =~= least);
    }
    groups
}

/// The root of a place is a place of the forest, with a number that is not
/// larger, and it is its own parent and its own root.
pub proof fn lemma_root_is_root(parent: Seq<usize>, x: int)
    requires
        is_forest(parent),
        0 <= x < parent.len(),
    ensures
        0 <= root_of(parent, x) <= x,
        parent[root_of(parent, x)] == root_of(parent, x),
        root_of(parent, root_of(parent, x)) == root_of(parent, x),
        parent[x] == x <==> root_of(parent, x) == x,
        root_of(parent, parent[x] as int) == root_of(parent, x),
    decreases x,
{
    if parent[x] < x {
        lemma_root_is_root(parent, parent[x] as int);
    }
}

/// A new place changes no root of the places that were there.
proof fn lemma_root_after_push(parent: Seq<usize>, n: usize, x: int)
    requires
        is_forest(parent),
        0 <= x < parent.len(),
    ensures
        root_of(parent.push(n), x) == root_of(parent, x),
    decreases x,
{
    if parent[x] < x {
        lemma_root_after_push(parent, n, parent[x] as int);
    }
    assert(parent.push(n)[x] == parent[x]);
}

/// Making a place a child of its root changes no root.
proof fn lemma_root_after_shortcut(parent: Seq<usize>, x: int, y: int)
    requires
        is_forest(parent),
        0 <= x < parent.len(),
        0 <= y < parent.len(),
    ensures
        is_forest(parent.update(x, root_of(parent, x) as usize)),
        root_of(parent.update(x, root_of(parent, x) as usize), y) == root_of(parent, y),
    decreases y,
{
    lemma_root_is_root(parent, x);
    lemma_root_is_root(parent, y);
    let shorter = parent.update(x, root_of(parent, x) as usize);
    if y == x {
        if root_of(parent, x) < x {
            lemma_root_after_shortcut(parent, x, root_of(parent, x));
        }
    } else if parent[y] < y {
        lemma_root_after_shortcut(parent, x, parent[y] as int);
        assert(shorter[y] == parent[y]);
    }
}

/// Making the root `high` a child of the root `low`, which has the smaller
/// number, gives the places of `high` the root `low` and changes no other
/// root.
proof fn lemma_root_after_join(parent: Seq<usize>, low: int, high: int, a: int)
    requires
        is_forest(parent),
        0 <= low < high < parent.len(),
        parent[low] == low,
        parent[high] == high,
        0 <= a < parent.len(),
    ensures
        is_forest(parent.update(high, low as usize)),
        root_of(parent.update(high, low as usize), a) == (if root_of(parent, a) == high {
            low
        } else {
            root_of(parent, a)
        }),
    decreases a,
{
    let joined = parent.update(high, low as usize);
    lemma_root_is_root(parent, a);
    if a == high {
        assert(joined[high] == low);
        assert(joined[low] == low);
        assert(root_of(joined, low) == low);
    } else if parent[a] < a {
        lemma_root_after_join(parent, low, high, parent[a] as int);
        assert(joined[a] == parent[a]);
    } else {
        assert(joined[a] == parent[a]);
    }
}

} // verus!
