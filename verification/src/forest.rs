//! Disjoint sets of indices, kept as a forest of parent links.
use vstd::prelude::*;

verus! {

/// Every link stays inside the table, and leads from a node to one of smaller rank
/// unless the node is its own parent.
pub open spec fn ranked(parent: Seq<usize>, rank: Seq<nat>) -> bool {
    &&& rank.len() == parent.len()
    &&& forall|i: int| 0 <= i < parent.len() ==> (#[trigger] parent[i]) < parent.len()
    &&& forall|i: int|
        0 <= i < parent.len() && (#[trigger] parent[i]) != i ==> rank[parent[i] as int] < rank[i]
}

/// Whether following the links from any node ends at a node that is its own parent.
pub open spec fn is_forest(parent: Seq<usize>) -> bool {
    exists|rank: Seq<nat>| ranked(parent, rank)
}

/// Some ranking of a forest.
pub open spec fn rank_of(parent: Seq<usize>) -> Seq<nat> {
    choose|rank: Seq<nat>| ranked(parent, rank)
}

/// The node at which the links from `i` end.
pub open spec fn root(parent: Seq<usize>, i: int) -> int
    decreases rank_of(parent)[i],
    when is_forest(parent) && 0 <= i < parent.len()
{
    if parent[i] == i {
        i
    } else {
        root(parent, parent[i] as int)
    }
}

/// Whether the links from `i` lead over `j`.
pub open spec fn on_path(parent: Seq<usize>, i: int, j: int) -> bool
    decreases rank_of(parent)[i],
    when is_forest(parent) && 0 <= i < parent.len()
{
    i == j || (parent[i] != i && on_path(parent, parent[i] as int, j))
}

/// Whether two nodes belong to one set.
pub open spec fn joined(parent: Seq<usize>, i: int, j: int) -> bool {
    root(parent, i) == root(parent, j)
}

/// Whether a table holds the same sets as another, with the same roots.
pub open spec fn same_sets(before: Seq<usize>, after: Seq<usize>) -> bool {
    &&& after.len() == before.len()
    &&& is_forest(after)
    &&& forall|j: int| 0 <= j < before.len() ==> #[trigger] root(after, j) == root(before, j)
}

/// Whether a table holds the sets of another with those of `left` and `right` made one,
/// below the root of `left`.
pub open spec fn merges(before: Seq<usize>, after: Seq<usize>, left: int, right: int) -> bool {
    &&& after.len() == before.len()
    &&& is_forest(after)
    &&& forall|j: int|
        0 <= j < before.len() ==> #[trigger] root(after, j) == if joined(before, j, right) {
            root(before, left)
        } else {
            root(before, j)
        }
}

/// A table in which every node on the way from `i` hangs directly below the root.
pub open spec fn compressed(parent: Seq<usize>, i: int) -> Seq<usize> {
    Seq::new(
        parent.len(),
        |j: int|
            if on_path(parent, i, j) {
                root(parent, i) as usize
            } else {
                parent[j]
            },
    )
}

/// A table in which the ways from `left` and then from `right` were shortened, and the root
/// of `right` was hung below that of `left` where they differ.
pub open spec fn linked(parent: Seq<usize>, left: int, right: int) -> Seq<usize> {
    let shortened = compressed(compressed(parent, left), right);
    if joined(parent, left, right) {
        shortened
    } else {
        shortened.update(root(parent, right), root(parent, left) as usize)
    }
}

/// The end of a path is inside the table, its own parent, and of no greater rank.
pub proof fn lemma_root(parent: Seq<usize>, i: int)
    requires
        is_forest(parent),
        0 <= i < parent.len(),
    ensures
        0 <= root(parent, i) < parent.len(),
        parent[root(parent, i)] == root(parent, i),
        root(parent, root(parent, i)) == root(parent, i),
        rank_of(parent)[root(parent, i)] <= rank_of(parent)[i],
        parent[i] != i ==> rank_of(parent)[root(parent, i)] < rank_of(parent)[i],
        parent[i] != i ==> root(parent, i) != i,
    decreases rank_of(parent)[i],
{
    assert(ranked(parent, rank_of(parent)));
    if parent[i] != i {
        lemma_root(parent, parent[i] as int);
    }
}

/// Every node on a path ends where the path ends.
pub proof fn lemma_on_path(parent: Seq<usize>, i: int, j: int)
    requires
        is_forest(parent),
        0 <= i < parent.len(),
        on_path(parent, i, j),
    ensures
        0 <= j < parent.len(),
        root(parent, j) == root(parent, i),
        rank_of(parent)[j] <= rank_of(parent)[i],
    decreases rank_of(parent)[i],
{
    assert(ranked(parent, rank_of(parent)));
    if i != j {
        lemma_on_path(parent, parent[i] as int, j);
    }
}

/// Links that all lead to the same end as before keep every set as it was.
proof fn lemma_shortcuts(parent: Seq<usize>, shorter: Seq<usize>, j: int)
    requires
        is_forest(parent),
        shorter.len() == parent.len(),
        forall|k: int|
            0 <= k < parent.len() ==> (#[trigger] shorter[k]) == parent[k] || shorter[k] == root(
                parent,
                k,
            ),
        0 <= j < parent.len(),
    ensures
        is_forest(shorter),
        root(shorter, j) == root(parent, j),
    decreases rank_of(parent)[j],
{
    let rank = rank_of(parent);
    assert(ranked(parent, rank));
    assert forall|k: int| 0 <= k < parent.len() implies (#[trigger] shorter[k]) < parent.len() && (
    shorter[k] != k ==> rank[shorter[k] as int] < rank[k]) by {
        lemma_root(parent, k);
        assert(parent[k] < parent.len());
    }
    assert(ranked(shorter, rank));
    lemma_root(parent, j);
    if shorter[j] != j {
        lemma_shortcuts(parent, shorter, shorter[j] as int);
    }
}

/// Hanging one root below another merges their two sets and touches no other.
proof fn lemma_link(parent: Seq<usize>, top: int, below: int)
    requires
        is_forest(parent),
        0 <= top < parent.len(),
        0 <= below < parent.len(),
        parent[top] == top,
        parent[below] == below,
        top != below,
    ensures
        is_forest(parent.update(below, top as usize)),
        forall|j: int|
            0 <= j < parent.len() ==> #[trigger] root(parent.update(below, top as usize), j) == if root(
                parent,
                j,
            ) == below {
                top
            } else {
                root(parent, j)
            },
{
    let linked = parent.update(below, top as usize);
    let rank = rank_of(parent);
    assert(ranked(parent, rank));
    let lifted = Seq::new(
        parent.len(),
        |k: int|
            if root(parent, k) == below {
                rank[k] + rank[top] + 1
            } else {
                rank[k]
            },
    );
    assert(root(parent, top) == top);
    assert(root(parent, below) == below);
    assert forall|k: int| 0 <= k < linked.len() implies (#[trigger] linked[k]) < linked.len() && (
    linked[k] != k ==> lifted[linked[k] as int] < lifted[k]) by {
        assert(parent[k] < parent.len());
        if k != below && parent[k] != k {
            assert(root(parent, k) == root(parent, parent[k] as int));
        }
    }
    assert(ranked(linked, lifted));
    assert forall|j: int| 0 <= j < parent.len() implies #[trigger] root(linked, j) == if root(
        parent,
        j,
    ) == below {
        top
    } else {
        root(parent, j)
    } by {
        lemma_link_root(parent, top, below, j);
    }
}

proof fn lemma_link_root(parent: Seq<usize>, top: int, below: int, j: int)
    requires
        is_forest(parent),
        is_forest(parent.update(below, top as usize)),
        0 <= top < parent.len(),
        0 <= below < parent.len(),
        parent[top] == top,
        parent[below] == below,
        top != below,
        0 <= j < parent.len(),
    ensures
        root(parent.update(below, top as usize), j) == if root(parent, j) == below {
            top
        } else {
            root(parent, j)
        },
    decreases rank_of(parent)[j],
{
    let linked = parent.update(below, top as usize);
    assert(ranked(parent, rank_of(parent)));
    assert(ranked(linked, rank_of(linked)));
    if j == below {
        assert(linked[top] == top);
        assert(root(linked, top) == top);
    } else if parent[j] != j {
        lemma_link_root(parent, top, below, parent[j] as int);
        assert(linked[j] == parent[j]);
    } else {
        assert(linked[j] == j);
    }
}

/// A table in which every node is its own parent holds each index in a set of its own.
pub proof fn lemma_singletons(parent: Seq<usize>)
    requires
        forall|i: int| 0 <= i < parent.len() ==> (#[trigger] parent[i]) == i,
    ensures
        is_forest(parent),
        forall|i: int| 0 <= i < parent.len() ==> #[trigger] root(parent, i) == i,
{
    let rank = Seq::new(parent.len(), |i: int| 0nat);
    assert(ranked(parent, rank));
}

/// The root of the set that holds `index`. Every node passed on the way is hung directly
/// below the root; no set changes.
pub fn find(parent: &mut [usize], index: usize) -> (top: usize)
    requires
        is_forest(old(parent)@),
        index < old(parent)@.len(),
    ensures
        top == root(old(parent)@, index as int),
        same_sets(old(parent)@, final(parent)@),
        final(parent)@ == compressed(old(parent)@, index as int),
    decreases rank_of(old(parent)@)[index as int],
{
    let ghost before = parent@;
    proof {
        assert(ranked(before, rank_of(before)));
        lemma_root(before, index as int);
    }
    if parent[index] != index {
        let next: usize = parent[index];
        let top: usize = find(parent, next);
        proof {
            if on_path(before, next as int, index as int) {
                lemma_on_path(before, next as int, index as int);
            }
        }
        parent[index] = top;
    }
    proof {
        let after = parent@;
        let top = root(before, index as int);
        assert forall|j: int| 0 <= j < before.len() implies (#[trigger] after[j]) == if on_path(
            before,
            index as int,
            j,
        ) {
            top as usize
        } else {
            before[j]
        } by {}
        assert forall|j: int| 0 <= j < before.len() implies (#[trigger] after[j]) == before[j]
            || after[j] == root(before, j) by {
            if on_path(before, index as int, j) {
                lemma_on_path(before, index as int, j);
            }
        }
        assert(after =~= compressed(before, index as int));
        lemma_shortcuts(before, after, index as int);
        assert forall|j: int| 0 <= j < before.len() implies #[trigger] root(after, j) == root(
            before,
            j,
        ) by {
            lemma_shortcuts(before, after, j);
        }
    }
    parent[index]
}

/// Merges the sets that hold `left` and `right`. The root of the left one becomes the root
/// of both; no other set changes.
pub fn union(parent: &mut [usize], left: usize, right: usize)
    requires
        is_forest(old(parent)@),
        left < old(parent)@.len(),
        right < old(parent)@.len(),
    ensures
        merges(old(parent)@, final(parent)@, left as int, right as int),
        final(parent)@ == linked(old(parent)@, left as int, right as int),
{
    let ghost before = parent@;
    let left_root: usize = find(parent, left);
    let right_root: usize = find(parent, right);
    proof {
        lemma_root(before, left as int);
        lemma_root(before, right as int);
        assert(root(parent@, left_root as int) == left_root);
        assert(root(parent@, right_root as int) == right_root);
        lemma_root(parent@, left_root as int);
        lemma_root(parent@, right_root as int);
    }
    if left_root != right_root {
        proof {
            lemma_link(parent@, left_root as int, right_root as int);
        }
        parent[right_root] = left_root;
    }
}

/// Looking for roots joins no two nodes and parts none.
pub proof fn law_find_keeps_the_sets(before: Seq<usize>, after: Seq<usize>, i: int, j: int)
    requires
        is_forest(before),
        same_sets(before, after),
        0 <= i < before.len(),
        0 <= j < before.len(),
    ensures
        joined(after, i, j) <==> joined(before, i, j),
{
    assert(root(after, i) == root(before, i));
    assert(root(after, j) == root(before, j));
}

/// Merging joins exactly the pairs that were joined before and those with one end in each
/// of the two sets.
pub proof fn law_union_joins_the_two_sets(
    before: Seq<usize>,
    after: Seq<usize>,
    left: int,
    right: int,
    i: int,
    j: int,
)
    requires
        is_forest(before),
        0 <= left < before.len(),
        0 <= right < before.len(),
        0 <= i < before.len(),
        0 <= j < before.len(),
        merges(before, after, left, right),
    ensures
        joined(after, i, j) <==> joined(before, i, j) || (joined(before, i, left) && joined(
            before,
            right,
            j,
        )) || (joined(before, i, right) && joined(before, left, j)),
        joined(after, left, right),
{
    assert(root(after, i) == root(after, i) && root(after, j) == root(after, j));
    assert(root(after, left) == root(after, left) && root(after, right) == root(after, right));
}

/// The root of a node is its own parent, and the same as that of the node it is linked to.
/// The way from a node leads over the node itself and over the way from its parent.
pub proof fn law_root_follows_the_links(parent: Seq<usize>, i: int, j: int)
    requires
        is_forest(parent),
        0 <= i < parent.len(),
    ensures
        0 <= root(parent, i) < parent.len(),
        parent[root(parent, i)] == root(parent, i),
        parent[i] == i ==> root(parent, i) == i,
        root(parent, i) == root(parent, parent[i] as int),
        on_path(parent, i, i),
        parent[i] == i ==> (on_path(parent, i, j) <==> i == j),
        parent[i] != i ==> (on_path(parent, i, j) <==> i == j || on_path(
            parent,
            parent[i] as int,
            j,
        )),
        joined(parent, i, j) <==> root(parent, i) == root(parent, j),
{
    lemma_root(parent, i);
    assert(ranked(parent, rank_of(parent)));
}

/// Looking for a root links every node on the way to it, and leaves every other link.
pub proof fn law_find_links_the_way_to_the_root(parent: Seq<usize>, i: int, j: int)
    requires
        is_forest(parent),
        0 <= i < parent.len(),
        0 <= j < parent.len(),
    ensures
        compressed(parent, i).len() == parent.len(),
        on_path(parent, i, j) ==> compressed(parent, i)[j] == root(parent, i),
        !on_path(parent, i, j) ==> compressed(parent, i)[j] == parent[j],
{
    lemma_root(parent, i);
}

/// Merging shortens the two ways, and then hangs the right root below the left one where they
/// differ; every other link is as shortening left it.
pub proof fn law_union_hangs_right_below_left(parent: Seq<usize>, left: int, right: int, j: int)
    requires
        is_forest(parent),
        0 <= left < parent.len(),
        0 <= right < parent.len(),
        0 <= j < parent.len(),
    ensures
        linked(parent, left, right).len() == parent.len(),
        j != root(parent, right) || root(parent, left) == root(parent, right) ==> linked(
            parent,
            left,
            right,
        )[j] == compressed(compressed(parent, left), right)[j],
        root(parent, left) != root(parent, right) ==> linked(parent, left, right)[root(
            parent,
            right,
        )] == root(parent, left),
{
    lemma_root(parent, left);
    lemma_root(parent, right);
}

/// A table is a forest exactly if its nodes can be ranked so that every link leads to a node
/// of lower rank, or from a node to itself.
pub proof fn law_forest_is_ranked(parent: Seq<usize>, rank: Seq<nat>)
    requires
        rank.len() == parent.len(),
        forall|i: int|
            0 <= i < parent.len() ==> (#[trigger] parent[i]) < parent.len() && (parent[i] == i
                || rank[parent[i] as int] < rank[i]),
    ensures
        is_forest(parent),
{
    assert(ranked(parent, rank));
}

} // verus!
