//! Channel-hierarchy resolver: expands a channel into itself plus the full
//! transitive closure of its descendants, by breadth-first level expansion
//! over a caller-supplied flat snapshot of a guild's channels.
//!
//! The resolver is pure: it touches no storage and works only on the given
//! snapshot. Levels are expanded iteratively, not recursively, so stack depth
//! stays bounded on very deep or wide trees. Termination rests on the source
//! platform nesting categories acyclically, stated here as the level
//! expansion dying out within the snapshot's size; cycle protection beyond
//! that guarantee is a non-goal.

use vstd::prelude::*;

use crate::seq_facts::lemma_filter_push;

verus! {

/// A channel as the resolver sees it: its identifier plus an optional parent
/// (category) link. Materialized from a snapshot, never persisted.
#[derive(Clone, Copy, Debug, PartialEq, Eq, Structural)]
pub struct ChannelNode {
    pub id: u64,
    pub parent_id: Option<u64>,
}

/// Whether `c` hangs directly under some node of `parents`.
pub open spec fn child_of_any(c: ChannelNode, parents: Seq<ChannelNode>) -> bool {
    exists|i: int| 0 <= i < parents.len() && c.parent_id == Some(parents[i].id)
}

/// The nodes of `s`, in snapshot order, whose parent lies in `parents`.
pub open spec fn direct_children(s: Seq<ChannelNode>, parents: Seq<ChannelNode>) -> Seq<
    ChannelNode,
> {
    s.filter(|c: ChannelNode| child_of_any(c, parents))
}

/// The `k`-th breadth-first level: the root alone at level zero, then at each
/// step the nodes whose parent sits in the previous level.
pub open spec fn level(s: Seq<ChannelNode>, root: ChannelNode, k: nat) -> Seq<ChannelNode>
    decreases k,
{
    if k == 0 {
        seq![root]
    } else {
        direct_children(s, level(s, root, (k - 1) as nat))
    }
}

/// The first `n` breadth-first levels, concatenated in discovery order:
/// root first, then its children level by level.
pub open spec fn levels_concat(s: Seq<ChannelNode>, root: ChannelNode, n: nat) -> Seq<ChannelNode>
    decreases n,
{
    if n == 0 {
        Seq::empty()
    } else {
        levels_concat(s, root, (n - 1) as nat) + level(s, root, (n - 1) as nat)
    }
}

/// Acyclic nesting, as the expansion observes it: level expansion from `root`
/// dies out within the snapshot's size. A longer run of non-empty levels
/// would have to revisit a node, which only a parent cycle allows.
pub open spec fn expansion_bounded(s: Seq<ChannelNode>, root: ChannelNode) -> bool {
    level(s, root, s.len() + 1).len() == 0
}

/// Whether `c` descends from `root` along at most `fuel + 1` parent links
/// that pass through snapshot nodes.
pub open spec fn descends(s: Seq<ChannelNode>, root: ChannelNode, c: ChannelNode, fuel: nat) -> bool
    decreases fuel,
{
    c.parent_id == Some(root.id) || (fuel > 0 && exists|p: int|
        0 <= p < s.len() && c.parent_id == Some(#[trigger] s[p].id) && descends(
            s,
            root,
            s[p],
            (fuel - 1) as nat,
        ))
}

/// Whether `c` lies in the transitive closure of `root`'s children.
pub open spec fn is_descendant(s: Seq<ChannelNode>, root: ChannelNode, c: ChannelNode) -> bool {
    exists|fuel: nat| descends(s, root, c, fuel)
}

/// A level that comes up empty stays empty, and the concatenation no longer
/// grows from there on.
proof fn lemma_expansion_stable(s: Seq<ChannelNode>, root: ChannelNode, a: nat, m: nat)
    requires
        level(s, root, a).len() == 0,
        a <= m,
    ensures
        level(s, root, m).len() == 0,
        levels_concat(s, root, m) == levels_concat(s, root, a),
    decreases m,
{
    if m > a {
        lemma_expansion_stable(s, root, a, (m - 1) as nat);
        let prev = level(s, root, (m - 1) as nat);
        assert(level(s, root, m) == direct_children(s, prev));
        let pred = |c: ChannelNode| child_of_any(c, prev);
        assert forall|i: int| 0 <= i < s.len() implies !pred(s[i]) by {
            assert(prev.len() == 0);
        }
        assert(s.all(|c: ChannelNode| !pred(c)));
        s.lemma_all_neg_filter_empty(pred);
        assert(levels_concat(s, root, m) =~= levels_concat(s, root, (m - 1) as nat) + prev);
        assert(levels_concat(s, root, m) =~= levels_concat(s, root, a));
    }
}

/// The expansion is deterministic: any two level counts at which the
/// expansion has died out witness the same concatenation.
pub proof fn lemma_expansion_determined(s: Seq<ChannelNode>, root: ChannelNode, a: nat, b: nat)
    requires
        level(s, root, a).len() == 0,
        level(s, root, b).len() == 0,
    ensures
        levels_concat(s, root, a) == levels_concat(s, root, b),
{
    if a <= b {
        lemma_expansion_stable(s, root, a, b);
    } else {
        lemma_expansion_stable(s, root, b, a);
    }
}

/// A non-empty expansion starts with the root itself.
pub proof fn lemma_expansion_starts_at_root(s: Seq<ChannelNode>, root: ChannelNode, n: nat)
    requires
        n >= 1,
    ensures
        levels_concat(s, root, n).len() >= 1,
        levels_concat(s, root, n)[0] == root,
    decreases n,
{
    if n == 1 {
        assert(levels_concat(s, root, 0) =~= Seq::<ChannelNode>::empty());
        assert(level(s, root, 0) =~= seq![root]);
        assert(levels_concat(s, root, 1) =~= Seq::<ChannelNode>::empty() + seq![root]);
    } else {
        lemma_expansion_starts_at_root(s, root, (n - 1) as nat);
    }
}

/// A leaf expands to itself only: when no node of the snapshot names `root`
/// as its parent, the expansion is the one-element sequence holding `root`.
pub proof fn lemma_childless_expands_to_self(
    s: Seq<ChannelNode>,
    root: ChannelNode,
    r: Seq<ChannelNode>,
    n: nat,
)
    requires
        forall|i: int| 0 <= i < s.len() ==> s[i].parent_id != Some(root.id),
        level(s, root, n).len() == 0,
        r == levels_concat(s, root, n),
    ensures
        r =~= seq![root],
{
    assert(level(s, root, 0) =~= seq![root]);
    let parents = level(s, root, 0);
    assert(level(s, root, 1) == direct_children(s, parents));
    let pred = |c: ChannelNode| child_of_any(c, parents);
    assert forall|i: int| 0 <= i < s.len() implies !pred(s[i]) by {
        if pred(s[i]) {
            let w = choose|w: int| 0 <= w < parents.len() && s[i].parent_id == Some(parents[w].id);
            assert(parents[w] == root);
        }
    }
    assert(s.all(|c: ChannelNode| !pred(c)));
    s.lemma_all_neg_filter_empty(pred);
    assert(level(s, root, 1).len() == 0);
    if n == 0 {
        assert(level(s, root, 0) =~= seq![root]);
        assert(false);
    }
    lemma_expansion_determined(s, root, n, 1);
    assert(r == levels_concat(s, root, 1));
    assert(levels_concat(s, root, 0) =~= Seq::<ChannelNode>::empty());
    assert(levels_concat(s, root, 1) =~= Seq::<ChannelNode>::empty() + seq![root]);
}

/// Every node of a positive level sits in the snapshot and descends from
/// the root.
proof fn lemma_level_sound(s: Seq<ChannelNode>, root: ChannelNode, k: nat)
    requires
        k >= 1,
    ensures
        forall|i: int| #![trigger level(s, root, k)[i]]
            0 <= i < level(s, root, k).len() ==> s.contains(level(s, root, k)[i]) && is_descendant(
                s,
                root,
                level(s, root, k)[i],
            ),
    decreases k,
{
    let prev = level(s, root, (k - 1) as nat);
    let cur = level(s, root, k);
    assert(cur == direct_children(s, prev));
    let pred = |c: ChannelNode| child_of_any(c, prev);
    if k >= 2 {
        lemma_level_sound(s, root, (k - 1) as nat);
    }
    assert forall|i: int| 0 <= i < cur.len() implies s.contains(cur[i]) && is_descendant(
        s,
        root,
        cur[i],
    ) by {
        s.lemma_filter_pred(pred, i);
        assert(cur.contains(cur[i]));
        s.lemma_filter_contains_rev(pred, cur[i]);
        let w = choose|w: int| 0 <= w < prev.len() && cur[i].parent_id == Some(prev[w].id);
        if k == 1 {
            assert(level(s, root, 0) =~= seq![root]);
            assert(prev[w] == root);
            assert(descends(s, root, cur[i], 0));
        } else {
            assert(s.contains(prev[w]));
            assert(is_descendant(s, root, prev[w]));
            let f = choose|f: nat| descends(s, root, prev[w], f);
            let pi = choose|pi: int| 0 <= pi < s.len() && s[pi] == prev[w];
            assert(descends(s, root, cur[i], f + 1)) by {
                assert(cur[i].parent_id == Some(s[pi].id));
                assert(descends(s, root, s[pi], f));
            }
        }
    }
}

/// A snapshot node descending from the root shows up in some positive level.
proof fn lemma_descendant_reaches_level(
    s: Seq<ChannelNode>,
    root: ChannelNode,
    c: ChannelNode,
    fuel: nat,
)
    requires
        s.contains(c),
        descends(s, root, c, fuel),
    ensures
        exists|k: nat| 1 <= k && #[trigger] level(s, root, k).contains(c),
    decreases fuel,
{
    let ci = choose|ci: int| 0 <= ci < s.len() && s[ci] == c;
    if c.parent_id == Some(root.id) {
        let prev = level(s, root, 0);
        assert(prev =~= seq![root]);
        assert(child_of_any(c, prev)) by {
            assert(c.parent_id == Some(prev[0].id));
        }
        assert(level(s, root, 1) == direct_children(s, prev));
        s.lemma_filter_contains(|x: ChannelNode| child_of_any(x, prev), ci);
        assert(level(s, root, 1).contains(c));
    } else {
        let p = choose|p: int|
            0 <= p < s.len() && c.parent_id == Some(s[p].id) && descends(
                s,
                root,
                s[p],
                (fuel - 1) as nat,
            );
        assert(s.contains(s[p]));
        lemma_descendant_reaches_level(s, root, s[p], (fuel - 1) as nat);
        let k = choose|k: nat| 1 <= k && level(s, root, k).contains(s[p]);
        let prev = level(s, root, k);
        let w = choose|w: int| 0 <= w < prev.len() && prev[w] == s[p];
        assert(child_of_any(c, prev)) by {
            assert(c.parent_id == Some(prev[w].id));
        }
        assert(level(s, root, k + 1) == direct_children(s, prev));
        s.lemma_filter_contains(|x: ChannelNode| child_of_any(x, prev), ci);
        assert(level(s, root, k + 1).contains(c));
        assert(1 <= k + 1);
    }
}

/// Every level below the stopping point lies inside the concatenation.
proof fn lemma_level_in_concat(s: Seq<ChannelNode>, root: ChannelNode, j: nat, n: nat)
    requires
        j < n,
    ensures
        forall|x: ChannelNode|
            level(s, root, j).contains(x) ==> #[trigger] levels_concat(s, root, n).contains(x),
    decreases n,
{
    let cat = levels_concat(s, root, n);
    let a = levels_concat(s, root, (n - 1) as nat);
    let b = level(s, root, (n - 1) as nat);
    assert(cat == a + b);
    if j == n - 1 {
        assert forall|x: ChannelNode| level(s, root, j).contains(x) implies cat.contains(x) by {
            let w = choose|w: int| 0 <= w < b.len() && b[w] == x;
            assert(cat[a.len() + w] == x);
        }
    } else {
        lemma_level_in_concat(s, root, j, (n - 1) as nat);
        assert forall|x: ChannelNode| level(s, root, j).contains(x) implies cat.contains(x) by {
            assert(a.contains(x));
            let w = choose|w: int| 0 <= w < a.len() && a[w] == x;
            assert(cat[w] == x);
        }
    }
}

/// Every member of the concatenation comes from one of its levels.
proof fn lemma_concat_members(s: Seq<ChannelNode>, root: ChannelNode, n: nat)
    ensures
        forall|x: ChannelNode|
            #[trigger] levels_concat(s, root, n).contains(x) ==> exists|j: nat|
                j < n && level(s, root, j).contains(x),
    decreases n,
{
    if n == 0 {
        assert(levels_concat(s, root, 0) =~= Seq::<ChannelNode>::empty());
    } else {
        lemma_concat_members(s, root, (n - 1) as nat);
        let cat = levels_concat(s, root, n);
        let a = levels_concat(s, root, (n - 1) as nat);
        let b = level(s, root, (n - 1) as nat);
        assert(cat == a + b);
        assert forall|x: ChannelNode| cat.contains(x) implies exists|j: nat|
            j < n && level(s, root, j).contains(x) by {
            let w = choose|w: int| 0 <= w < cat.len() && cat[w] == x;
            if w < a.len() {
                assert(a[w] == x);
                assert(a.contains(x));
            } else {
                assert(b[w - a.len()] == x);
                assert(b.contains(x));
                assert(level(s, root, (n - 1) as nat).contains(x));
            }
        }
    }
}

/// The expansion is the root plus the full transitive closure of its
/// descendants: a node is handed back exactly when it is the root itself or
/// a snapshot node reaching the root through parent links.
pub proof fn lemma_expansion_membership(
    s: Seq<ChannelNode>,
    root: ChannelNode,
    r: Seq<ChannelNode>,
    n: nat,
)
    requires
        level(s, root, n).len() == 0,
        r == levels_concat(s, root, n),
    ensures
        forall|c: ChannelNode|
            #[trigger] r.contains(c) <==> (c == root || (s.contains(c) && is_descendant(
                s,
                root,
                c,
            ))),
{
    assert forall|c: ChannelNode| r.contains(c) implies (c == root || (s.contains(c)
        && is_descendant(s, root, c))) by {
        lemma_concat_members(s, root, n);
        let j = choose|j: nat| j < n && level(s, root, j).contains(c);
        if j == 0 {
            assert(level(s, root, 0) =~= seq![root]);
            let w = choose|w: int| 0 <= w < level(s, root, 0).len() && level(s, root, 0)[w] == c;
            assert(c == root);
        } else {
            lemma_level_sound(s, root, j);
            let w = choose|w: int| 0 <= w < level(s, root, j).len() && level(s, root, j)[w] == c;
        }
    }
    assert forall|c: ChannelNode| (c == root || (s.contains(c) && is_descendant(
        s,
        root,
        c,
    ))) implies r.contains(c) by {
        if c == root {
            if n == 0 {
                assert(level(s, root, 0) =~= seq![root]);
                assert(false);
            }
            lemma_expansion_starts_at_root(s, root, n);
            assert(r[0] == c);
        } else {
            let fuel = choose|fuel: nat| descends(s, root, c, fuel);
            lemma_descendant_reaches_level(s, root, c, fuel);
            let k = choose|k: nat| 1 <= k && level(s, root, k).contains(c);
            if k >= n {
                lemma_expansion_stable(s, root, n, k);
                assert(level(s, root, k).len() == 0);
                assert(false);
            }
            lemma_level_in_concat(s, root, k, n);
        }
    }
}

/// The direct children of the `parents` nodes, in snapshot order.
fn direct_children_exec(snapshot: &Vec<ChannelNode>, parents: &Vec<ChannelNode>) -> (r: Vec<
    ChannelNode,
>)
    ensures
        r@ == direct_children(snapshot@, parents@),
{
    let mut out: Vec<ChannelNode> = Vec::new();
    let n = snapshot.len();
    let mut i: usize = 0;
    while i < n
        invariant
            i <= n,
            n == snapshot@.len(),
            out@ == direct_children(snapshot@.take(i as int), parents@),
        decreases n - i,
    {
        let c = snapshot[i];
        let mut is_child = false;
        let m = parents.len();
        let mut j: usize = 0;
        while j < m
            invariant
                j <= m,
                m == parents@.len(),
                c == snapshot@[i as int],
                is_child ==> child_of_any(c, parents@),
                !is_child ==> forall|p: int| 0 <= p < j ==> c.parent_id != Some(parents@[p].id),
            decreases m - j,
        {
            match c.parent_id {
                Option::Some(pid) => {
                    if pid == parents[j].id {
                        is_child = true;
                    }
                },
                Option::None => {},
            }
            j += 1;
        }
        proof {
            lemma_filter_push(
                snapshot@.take(i as int),
                |c: ChannelNode| child_of_any(c, parents@),
                c,
            );
            assert(snapshot@.take((i + 1) as int) =~= snapshot@.take(i as int).push(c));
        }
        if is_child {
            out.push(c);
        } else {
            assert(!child_of_any(c, parents@));
        }
        i += 1;
    }
    proof {
        assert(snapshot@.take(n as int) =~= snapshot@);
    }
    out
}

/// Expands `root` into itself plus all of its descendants: start with the
/// level holding `root` alone; each next level is the set of snapshot nodes
/// whose parent sits in the previous level; stop at the first empty level;
/// the result concatenates all levels in discovery order.
pub fn get_all_children_channels(snapshot: &Vec<ChannelNode>, root: &ChannelNode) -> (r: Vec<
    ChannelNode,
>)
    requires
        expansion_bounded(snapshot@, *root),
    ensures
        exists|n: nat|
            #[trigger] level(snapshot@, *root, n).len() == 0 && r@ == levels_concat(
                snapshot@,
                *root,
                n,
            ),
        r@.len() >= 1,
        r@[0] == *root,
        forall|c: ChannelNode|
            #[trigger] r@.contains(c) <==> (c == *root || (snapshot@.contains(c) && is_descendant(
                snapshot@,
                *root,
                c,
            ))),
{
    let mut result: Vec<ChannelNode> = Vec::new();
    result.push(*root);
    let mut current: Vec<ChannelNode> = Vec::new();
    current.push(*root);
    let ghost mut k: nat = 0;
    proof {
        assert(current@ =~= level(snapshot@, *root, 0));
        assert(levels_concat(snapshot@, *root, 0) =~= Seq::<ChannelNode>::empty());
        assert(result@ =~= levels_concat(snapshot@, *root, 0) + level(snapshot@, *root, 0));
        assert(result@ =~= levels_concat(snapshot@, *root, 1));
    }
    loop
        invariant
            current@ == level(snapshot@, *root, k),
            current@.len() > 0,
            result@ == levels_concat(snapshot@, *root, k + 1),
            k <= snapshot@.len() + 1,
            expansion_bounded(snapshot@, *root),
        ensures
            exists|n: nat|
                #[trigger] level(snapshot@, *root, n).len() == 0 && result@ == levels_concat(
                    snapshot@,
                    *root,
                    n,
                ),
        decreases snapshot@.len() + 2 - k,
    {
        let next = direct_children_exec(snapshot, &current);
        proof {
            assert(level(snapshot@, *root, k + 1) == direct_children(snapshot@, current@));
        }
        if next.len() == 0 {
            proof {
                assert(level(snapshot@, *root, k + 1).len() == 0);
                assert(result@ == levels_concat(snapshot@, *root, k + 1));
            }
            break ;
        }
        proof {
            if k == snapshot@.len() + 1 {
                assert(current@.len() == 0);
                assert(false);
            }
        }
        let m = next.len();
        let mut t: usize = 0;
        while t < m
            invariant
                t <= m,
                m == next@.len(),
                result@ == levels_concat(snapshot@, *root, k + 1) + next@.take(t as int),
                next@ == level(snapshot@, *root, k + 1),
                current@ == level(snapshot@, *root, k),
            decreases m - t,
        {
            result.push(next[t]);
            proof {
                assert(next@.take((t + 1) as int) =~= next@.take(t as int).push(next@[t as int]));
            }
            t += 1;
        }
        proof {
            assert(next@.take(m as int) =~= next@);
            assert(result@ =~= levels_concat(snapshot@, *root, k + 2));
        }
        current = next;
        proof {
            k = k + 1;
        }
    }
    proof {
        let n0 = choose|n: nat|
            #[trigger] level(snapshot@, *root, n).len() == 0 && result@ == levels_concat(
                snapshot@,
                *root,
                n,
            );
        assert(n0 >= 1);
        lemma_expansion_starts_at_root(snapshot@, *root, n0);
        lemma_expansion_membership(snapshot@, *root, result@, n0);
    }
    result
}

} // verus!
