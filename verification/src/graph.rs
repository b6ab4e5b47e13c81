//! The child graph of a scene, seen as a sequence of child lists, and
//! the pre-order traversal that lists every node reachable below a node.

use vstd::prelude::*;

verus! {

/// The traversal below `id` with at most `fuel` levels of nesting:
/// `None` when `id` is not a node of `g`, or when the nesting is deeper
/// than `fuel` (which is the case at every fuel when a cycle is reachable).
pub open spec fn walk(g: Seq<Seq<usize>>, id: usize, fuel: nat) -> Option<Seq<usize>>
    decreases fuel, 0nat,
{
    if fuel == 0 || id >= g.len() {
        None
    } else {
        walk_list(g, g[id as int], (fuel - 1) as nat)
    }
}

/// The traversal of a list of children: for each child in order, the child
/// itself followed by the traversal below it.
pub open spec fn walk_list(g: Seq<Seq<usize>>, cs: Seq<usize>, fuel: nat) -> Option<Seq<usize>>
    decreases fuel, cs.len() + 1,
{
    if cs.len() == 0 {
        Some(Seq::empty())
    } else {
        match (walk_list(g, cs.drop_last(), fuel), walk(g, cs.last(), fuel)) {
            (Some(a), Some(d)) => Some(a + seq![cs.last()] + d),
            _ => None,
        }
    }
}

/// More fuel never changes a traversal that already finished.
pub proof fn lemma_walk_mono(g: Seq<Seq<usize>>, id: usize, f1: nat, f2: nat)
    requires
        f1 <= f2,
        walk(g, id, f1) is Some,
    ensures
        walk(g, id, f2) == walk(g, id, f1),
    decreases f1, 0nat,
{
    lemma_walk_list_mono(g, g[id as int], (f1 - 1) as nat, (f2 - 1) as nat);
}

/// More fuel never changes a list traversal that already finished.
pub proof fn lemma_walk_list_mono(g: Seq<Seq<usize>>, cs: Seq<usize>, f1: nat, f2: nat)
    requires
        f1 <= f2,
        walk_list(g, cs, f1) is Some,
    ensures
        walk_list(g, cs, f2) == walk_list(g, cs, f1),
    decreases f1, cs.len() + 1,
{
    if cs.len() > 0 {
        lemma_walk_list_mono(g, cs.drop_last(), f1, f2);
        lemma_walk_mono(g, cs.last(), f1, f2);
    }
}


/// A finished list traversal has finished below each of its children.
pub proof fn lemma_walk_list_each(g: Seq<Seq<usize>>, cs: Seq<usize>, fuel: nat)
    requires
        walk_list(g, cs, fuel) is Some,
    ensures
        forall|i: int| 0 <= i < cs.len() ==> (#[trigger] walk(g, cs[i], fuel)) is Some,
    decreases cs.len(),
{
    if cs.len() > 0 {
        lemma_walk_list_each(g, cs.drop_last(), fuel);
        assert forall|i: int| 0 <= i < cs.len() implies (#[trigger] walk(g, cs[i], fuel)) is Some by {
            if i < cs.len() - 1 {
                assert(cs.drop_last()[i] == cs[i]);
            }
        }
    }
}

/// A list traversal finishes when it finishes below each child.
pub proof fn lemma_walk_list_of_each(g: Seq<Seq<usize>>, cs: Seq<usize>, fuel: nat)
    requires
        forall|i: int| 0 <= i < cs.len() ==> (#[trigger] walk(g, cs[i], fuel)) is Some,
    ensures
        walk_list(g, cs, fuel) is Some,
    decreases cs.len(),
{
    if cs.len() > 0 {
        assert forall|i: int| 0 <= i < cs.drop_last().len() implies (#[trigger] walk(g, cs.drop_last()[i], fuel)) is Some by {
            assert(cs.drop_last()[i] == cs[i]);
        }
        lemma_walk_list_of_each(g, cs.drop_last(), fuel);
        assert(walk(g, cs[cs.len() - 1], fuel) is Some);
    }
}

/// The least fuel at which the traversal below `id` finishes.
proof fn lemma_least_fuel(g: Seq<Seq<usize>>, id: usize, f: nat) -> (k: nat)
    requires
        walk(g, id, f) is Some,
    ensures
        1 <= k <= f,
        walk(g, id, k) is Some,
        walk(g, id, (k - 1) as nat) is None,
    decreases f,
{
    if walk(g, id, (f - 1) as nat) is None {
        f
    } else {
        lemma_least_fuel(g, id, (f - 1) as nat)
    }
}

/// A path `id = p[0] -> p[1] -> ...` along which the least finishing
/// fuel drops by one at each step.
proof fn lemma_tight_path(g: Seq<Seq<usize>>, id: usize, k: nat) -> (p: Seq<usize>)
    requires
        k >= 1,
        walk(g, id, k) is Some,
        walk(g, id, (k - 1) as nat) is None,
    ensures
        p.len() == k,
        p[0] == id,
        forall|i: int|
            0 <= i < k ==> {
                &&& (#[trigger] p[i]) < g.len()
                &&& walk(g, p[i], (k - i) as nat) is Some
                &&& walk(g, p[i], (k - i - 1) as nat) is None
            },
    decreases k,
{
    if k == 1 {
        seq![id]
    } else {
        let cs = g[id as int];
        lemma_walk_list_each(g, cs, (k - 1) as nat);
        if forall|i: int| 0 <= i < cs.len() ==> (#[trigger] walk(g, cs[i], (k - 2) as nat)) is Some {
            lemma_walk_list_of_each(g, cs, (k - 2) as nat);
            assert(false);
        }
        let i = choose|i: int| 0 <= i < cs.len() && (#[trigger] walk(g, cs[i], (k - 2) as nat)) is None;
        let rest = lemma_tight_path(g, cs[i], (k - 1) as nat);
        let p = seq![id] + rest;
        assert forall|j: int|
            0 <= j < k implies {
                &&& (#[trigger] p[j]) < g.len()
                &&& walk(g, p[j], (k - j) as nat) is Some
                &&& walk(g, p[j], (k - j - 1) as nat) is None
            } by {
            if j > 0 {
                assert(p[j] == rest[j - 1]);
            }
        }
        p
    }
}

/// Pairwise distinct handles, all below `n`, are at most `n` many.
proof fn lemma_distinct_nodes_bound(p: Seq<usize>, n: nat)
    requires
        p.no_duplicates(),
        forall|i: int| 0 <= i < p.len() ==> (#[trigger] p[i]) < n,
    ensures
        p.len() <= n,
{
    let q = p.map_values(|x: usize| x as int);
    p.lemma_no_duplicates_injective(|x: usize| x as int);
    q.unique_seq_to_set();
    vstd::set_lib::lemma_int_range(0, n as int);
    assert(q.to_set().subset_of(vstd::set_lib::set_int_range(0, n as int))) by {
        assert forall|x: int| q.to_set().contains(x) implies vstd::set_lib::set_int_range(0, n as int).contains(x) by {
            let i = choose|i: int| 0 <= i < q.len() && q[i] == x;
            assert(p[i] < n);
        }
    }
    vstd::set_lib::lemma_len_subset(q.to_set(), vstd::set_lib::set_int_range(0, n as int));
}

/// A traversal that finishes at all finishes within as many levels as
/// the graph has nodes.
pub proof fn lemma_walk_bound(g: Seq<Seq<usize>>, id: usize, f: nat)
    requires
        walk(g, id, f) is Some,
    ensures
        walk(g, id, g.len()) == walk(g, id, f),
{
    let k = lemma_least_fuel(g, id, f);
    let p = lemma_tight_path(g, id, k);
    // The nodes on the path are pairwise distinct.
    assert forall|i: int, j: int| 0 <= i < j < p.len() implies p[i] != p[j] by {
        if p[i] == p[j] {
            lemma_walk_mono(g, p[j], (k - j) as nat, (k - i - 1) as nat);
        }
    }
    lemma_distinct_nodes_bound(p, g.len());
    assert(k <= g.len());
    lemma_walk_mono(g, id, k, g.len());
    lemma_walk_mono(g, id, k, f);
}

/// The list version of `lemma_walk_bound`.
pub proof fn lemma_walk_list_bound(g: Seq<Seq<usize>>, cs: Seq<usize>, f: nat)
    requires
        walk_list(g, cs, f) is Some,
    ensures
        walk_list(g, cs, g.len()) == walk_list(g, cs, f),
{
    lemma_walk_list_each(g, cs, f);
    assert forall|i: int| 0 <= i < cs.len() implies (#[trigger] walk(g, cs[i], g.len())) is Some by {
        lemma_walk_bound(g, cs[i], f);
    }
    lemma_walk_list_of_each(g, cs, g.len());
    if f <= g.len() {
        lemma_walk_list_mono(g, cs, f, g.len());
    } else {
        lemma_walk_list_mono(g, cs, g.len(), f);
    }
}

/// The traversal of `cs` finishes: every handle it meets is a node, and
/// no cycle is reachable from `cs`.
pub open spec fn traversal_finishes(g: Seq<Seq<usize>>, cs: Seq<usize>) -> bool {
    exists|f: nat| (#[trigger] walk_list(g, cs, f)) is Some
}

/// What the traversal of `cs` lists, where it finishes: each child in
/// order, followed at once by everything below it.
pub open spec fn descendants(g: Seq<Seq<usize>>, cs: Seq<usize>) -> Seq<usize> {
    walk_list(g, cs, choose|f: nat| (#[trigger] walk_list(g, cs, f)) is Some).unwrap()
}

/// Where the traversal finishes, as many levels as the graph has nodes suffice.
pub proof fn lemma_descendants_at_len(g: Seq<Seq<usize>>, cs: Seq<usize>)
    requires
        traversal_finishes(g, cs),
    ensures
        walk_list(g, cs, g.len()) == Some(descendants(g, cs)),
{
    let f = choose|f: nat| (#[trigger] walk_list(g, cs, f)) is Some;
    lemma_walk_list_bound(g, cs, f);
}

/// A traversal that fails on a prefix of the list fails on the whole list.
pub proof fn lemma_walk_list_prefix_none(g: Seq<Seq<usize>>, cs: Seq<usize>, j: int, fuel: nat)
    requires
        0 <= j <= cs.len(),
        walk_list(g, cs.take(j), fuel) is None,
    ensures
        walk_list(g, cs, fuel) is None,
    decreases cs.len() - j,
{
    if j == cs.len() {
        assert(cs.take(j) =~= cs);
    } else {
        assert(cs.drop_last().take(j) =~= cs.take(j));
        lemma_walk_list_prefix_none(g, cs.drop_last(), j, fuel);
    }
}

/// A node met by a finished list traversal has a finished traversal of
/// its own, strictly shorter than the whole.
proof fn lemma_walk_list_member(g: Seq<Seq<usize>>, cs: Seq<usize>, f: nat, y: usize)
    requires
        walk_list(g, cs, f) is Some,
        walk_list(g, cs, f).unwrap().contains(y),
    ensures
        walk(g, y, f) is Some,
        walk(g, y, f).unwrap().len() < walk_list(g, cs, f).unwrap().len(),
    decreases f, cs.len(),
{
    let s = walk_list(g, cs, f).unwrap();
    let a = walk_list(g, cs.drop_last(), f).unwrap();
    let last = cs.last();
    let d = walk(g, last, f).unwrap();
    assert(s == a + seq![last] + d);
    let k = choose|k: int| 0 <= k < s.len() && s[k] == y;
    if k < a.len() {
        assert(a[k] == y);
        lemma_walk_list_member(g, cs.drop_last(), f, y);
    } else if k == a.len() {
        assert(y == last);
    } else {
        assert(d[k - a.len() - 1] == y);
        assert(d.contains(y));
        lemma_walk_list_member(g, g[last as int], (f - 1) as nat, y);
        lemma_walk_mono(g, y, (f - 1) as nat, f);
    }
}

/// Below a node whose traversal finishes, the node itself never occurs:
/// a traversal that finishes meets no cycle.
pub proof fn law_no_node_below_itself(g: Seq<Seq<usize>>, x: usize)
    requires
        x < g.len(),
        traversal_finishes(g, g[x as int]),
    ensures
        !descendants(g, g[x as int]).contains(x),
{
    let n = g.len();
    lemma_descendants_at_len(g, g[x as int]);
    let s = descendants(g, g[x as int]);
    if s.contains(x) {
        lemma_walk_list_member(g, g[x as int], n, x);
        assert(walk(g, x, n + 1) == Some(s));
        lemma_walk_mono(g, x, n, n + 1);
    }
}

/// Every node that a finished traversal lists is a node of the graph,
/// its own traversal finishes, and it does not occur below itself; each of
/// the listed children is listed.
pub proof fn law_listed_nodes(g: Seq<Seq<usize>>, cs: Seq<usize>)
    requires
        traversal_finishes(g, cs),
    ensures
        forall|i: int| 0 <= i < cs.len() ==> descendants(g, cs).contains(#[trigger] cs[i]),
        forall|y: usize|
            #[trigger] descendants(g, cs).contains(y) ==> {
                &&& y < g.len()
                &&& traversal_finishes(g, g[y as int])
                &&& !descendants(g, g[y as int]).contains(y)
            },
{
    let n = g.len();
    lemma_descendants_at_len(g, cs);
    let s = descendants(g, cs);
    assert forall|i: int| 0 <= i < cs.len() implies s.contains(#[trigger] cs[i]) by {
        lemma_child_listed(g, cs, n, i);
    }
    assert forall|y: usize| #[trigger] s.contains(y) implies {
        &&& y < g.len()
        &&& traversal_finishes(g, g[y as int])
        &&& !descendants(g, g[y as int]).contains(y)
    } by {
        lemma_walk_list_member(g, cs, n, y);
        assert(walk_list(g, g[y as int], (n - 1) as nat) is Some);
        law_no_node_below_itself(g, y);
    }
}

/// A finished list traversal lists each of the children.
proof fn lemma_child_listed(g: Seq<Seq<usize>>, cs: Seq<usize>, f: nat, i: int)
    requires
        walk_list(g, cs, f) is Some,
        0 <= i < cs.len(),
    ensures
        walk_list(g, cs, f).unwrap().contains(cs[i]),
    decreases cs.len(),
{
    let s = walk_list(g, cs, f).unwrap();
    let a = walk_list(g, cs.drop_last(), f).unwrap();
    let d = walk(g, cs.last(), f).unwrap();
    assert(s == a + seq![cs.last()] + d);
    if i == cs.len() - 1 {
        assert(s[a.len() as int] == cs[i]);
    } else {
        lemma_child_listed(g, cs.drop_last(), f, i);
        let k = choose|k: int| 0 <= k < a.len() && a[k] == cs.drop_last()[i];
        assert(s[k] == cs[i]);
    }
}

/// The traversal in pre-order: for a non-empty list, what is listed for all
/// but the last child, then the last child, then everything below it.
pub proof fn law_descendants_preorder(g: Seq<Seq<usize>>, cs: Seq<usize>)
    requires
        traversal_finishes(g, cs),
    ensures
        cs.len() == 0 ==> descendants(g, cs) == Seq::<usize>::empty(),
        cs.len() > 0 ==> {
            &&& cs.last() < g.len()
            &&& traversal_finishes(g, cs.drop_last())
            &&& traversal_finishes(g, g[cs.last() as int])
            &&& descendants(g, cs) == descendants(g, cs.drop_last()) + seq![cs.last()]
                + descendants(g, g[cs.last() as int])
        },
{
    let n = g.len();
    lemma_descendants_at_len(g, cs);
    if cs.len() > 0 {
        let last = cs.last();
        assert(walk_list(g, cs.drop_last(), n) is Some);
        lemma_descendants_at_len(g, cs.drop_last());
        assert(walk(g, last, n) is Some);
        assert(walk_list(g, g[last as int], (n - 1) as nat) is Some);
        lemma_descendants_at_len(g, g[last as int]);
        lemma_walk_list_mono(g, g[last as int], (n - 1) as nat, n);
    }
}

/// A traversal that lists no node `p` reads the same in a graph whose
/// entry for `p` is replaced.
proof fn lemma_walk_list_update(g: Seq<Seq<usize>>, cs: Seq<usize>, f: nat, p: usize, new_children: Seq<usize>)
    requires
        p < g.len(),
        walk_list(g, cs, f) is Some,
        !walk_list(g, cs, f).unwrap().contains(p),
    ensures
        walk_list(g.update(p as int, new_children), cs, f) == walk_list(g, cs, f),
    decreases f, cs.len(),
{
    let g2 = g.update(p as int, new_children);
    if cs.len() > 0 {
        let s = walk_list(g, cs, f).unwrap();
        let a = walk_list(g, cs.drop_last(), f).unwrap();
        let last = cs.last();
        let d = walk(g, last, f).unwrap();
        assert(s == a + seq![last] + d);
        assert forall|y: usize| a.contains(y) implies s.contains(y) by {
            let k = choose|k: int| 0 <= k < a.len() && a[k] == y;
            assert(s[k] == y);
        }
        assert forall|y: usize| d.contains(y) implies s.contains(y) by {
            let k = choose|k: int| 0 <= k < d.len() && d[k] == y;
            assert(s[a.len() + 1 + k] == y);
        }
        assert(s[a.len() as int] == last);
        lemma_walk_list_update(g, cs.drop_last(), f, p, new_children);
        assert(walk(g, last, f) is Some);
        assert(f > 0 && last < g.len());
        assert(last != p);
        assert(g2[last as int] == g[last as int]);
        lemma_walk_list_update(g, g[last as int], (f - 1) as nat, p, new_children);
        assert(walk(g2, last, f) == walk(g, last, f));
    }
}

/// Adding `c` as the last child of `p`, where `p` does not occur in or
/// below `c`, lists below `p` what was listed before, then `c`, then
/// everything below `c`.
pub proof fn law_add_child_descendants(g: Seq<Seq<usize>>, p: usize, c: usize)
    requires
        p < g.len(),
        traversal_finishes(g, g[p as int]),
        traversal_finishes(g, seq![c]),
        !descendants(g, seq![c]).contains(p),
    ensures
        traversal_finishes(g.update(p as int, g[p as int].push(c)), g[p as int].push(c)),
        descendants(g.update(p as int, g[p as int].push(c)), g[p as int].push(c))
            == descendants(g, g[p as int]) + descendants(g, seq![c]),
{
    let n = g.len();
    let old_list = g[p as int];
    let new_list = old_list.push(c);
    let g2 = g.update(p as int, new_list);
    lemma_descendants_at_len(g, old_list);
    lemma_descendants_at_len(g, seq![c]);
    law_no_node_below_itself(g, p);
    lemma_walk_list_update(g, old_list, n, p, new_list);
    lemma_walk_list_update(g, seq![c], n, p, new_list);
    let s1 = descendants(g, old_list);
    let s2 = descendants(g, seq![c]);
    assert(seq![c].drop_last() =~= Seq::<usize>::empty());
    assert(new_list.drop_last() =~= old_list);
    let d = walk(g2, c, n).unwrap();
    assert(seq![c].last() == c);
    assert(walk_list(g2, seq![c], n) == Some(s2));
    assert(walk_list(g2, Seq::<usize>::empty(), n) == Some(Seq::<usize>::empty()));
    assert(walk(g2, c, n) is Some);
    assert(walk_list(g2, seq![c], n) == Some(Seq::<usize>::empty() + seq![c] + d));
    assert(s2 =~= seq![c] + d);
    assert(walk_list(g2, new_list, n) == Some(s1 + seq![c] + d));
    assert(s1 + seq![c] + d =~= s1 + s2);
    assert(g2.len() == n);
    lemma_descendants_at_len(g2, new_list);
}

/// Adding `c` as a child of `p`, where `p` occurs in or below `c`, closes
/// a cycle: the traversal below `p` no longer finishes.
pub proof fn law_add_child_cycle(g: Seq<Seq<usize>>, p: usize, c: usize)
    requires
        p < g.len(),
        traversal_finishes(g, seq![c]),
        descendants(g, seq![c]).contains(p),
    ensures
        !traversal_finishes(g.update(p as int, g[p as int].push(c)), g[p as int].push(c)),
{
    let n = g.len();
    let old_list = g[p as int];
    let new_list = old_list.push(c);
    let g2 = g.update(p as int, new_list);
    if traversal_finishes(g2, new_list) {
        let f = choose|f: nat| (#[trigger] walk_list(g2, new_list, f)) is Some;
        assert(new_list.drop_last() =~= old_list);
        assert(new_list.last() == c);
        assert(walk(g2, c, f) is Some);
        let d = walk(g2, c, f).unwrap();
        assert(seq![c].drop_last() =~= Seq::<usize>::empty());
        assert(seq![c].last() == c);
        assert(walk_list(g2, Seq::<usize>::empty(), f) == Some(Seq::<usize>::empty()));
        let s = Seq::<usize>::empty() + seq![c] + d;
        assert(walk_list(g2, seq![c], f) == Some(s));
        if !s.contains(p) {
            lemma_walk_list_update(g2, seq![c], f, p, old_list);
            assert(g2.update(p as int, old_list) =~= g);
            lemma_descendants_at_len(g, seq![c]);
            lemma_walk_list_bound(g, seq![c], f);
            assert(false);
        }
        let k = choose|k: int| 0 <= k < s.len() && s[k] == p;
        let a = walk_list(g2, old_list, f).unwrap();
        let whole = a + seq![c] + d;
        assert(walk_list(g2, new_list, f) == Some(whole));
        if k == 0 {
            assert(whole[a.len() as int] == p);
        } else {
            assert(whole[a.len() + k] == p);
        }
        assert(whole.contains(p));
        assert(g2[p as int] == new_list);
        assert(g2.len() == n);
        lemma_walk_list_bound(g2, new_list, f);
        lemma_descendants_at_len(g2, new_list);
        law_no_node_below_itself(g2, p);
    }
}

/// `p` is a path that starts at one of `cs` and goes from each node to
/// one of its children.
pub open spec fn is_path_from(g: Seq<Seq<usize>>, cs: Seq<usize>, p: Seq<usize>) -> bool {
    &&& p.len() > 0
    &&& cs.contains(p[0])
    &&& forall|i: int| 0 <= i < p.len() - 1 ==> (#[trigger] p[i]) < g.len() && g[p[i] as int].contains(p[i + 1])
}

/// Along a path from a finished traversal, each node's own traversal
/// finishes, and is longer than that of the next node.
proof fn lemma_path_step(g: Seq<Seq<usize>>, cs: Seq<usize>, p: Seq<usize>, i: int)
    requires
        traversal_finishes(g, cs),
        is_path_from(g, cs, p),
        0 <= i < p.len(),
    ensures
        walk(g, p[i], g.len()) is Some,
        i + 1 < p.len() ==> walk(g, p[i + 1], g.len()) is Some
            && walk(g, p[i + 1], g.len()).unwrap().len() < walk(g, p[i], g.len()).unwrap().len(),
    decreases i,
{
    let n = g.len();
    if i == 0 {
        lemma_descendants_at_len(g, cs);
        let k = choose|k: int| 0 <= k < cs.len() && cs[k] == p[0];
        lemma_child_listed(g, cs, n, k);
        lemma_walk_list_member(g, cs, n, p[0]);
    } else {
        lemma_path_step(g, cs, p, i - 1);
    }
    if i + 1 < p.len() {
        let x = p[i];
        assert(x < n && g[x as int].contains(p[i + 1]));
        assert(walk_list(g, g[x as int], (n - 1) as nat) is Some);
        let k = choose|k: int| 0 <= k < g[x as int].len() && g[x as int][k] == p[i + 1];
        lemma_child_listed(g, g[x as int], (n - 1) as nat, k);
        lemma_walk_list_member(g, g[x as int], (n - 1) as nat, p[i + 1]);
        lemma_walk_mono(g, p[i + 1], (n - 1) as nat, n);
    }
}

/// Along a path from a finished traversal, the nodes' own traversals get
/// strictly shorter.
proof fn lemma_path_shrinks(g: Seq<Seq<usize>>, cs: Seq<usize>, p: Seq<usize>, i: int, j: int)
    requires
        traversal_finishes(g, cs),
        is_path_from(g, cs, p),
        0 <= i < j < p.len(),
    ensures
        walk(g, p[j], g.len()).unwrap().len() < walk(g, p[i], g.len()).unwrap().len(),
    decreases j - i,
{
    lemma_path_step(g, cs, p, j - 1);
    if i < j - 1 {
        lemma_path_shrinks(g, cs, p, i, j - 1);
    }
}

/// A traversal finishes only where no cycle is reachable: no path from the
/// listed children meets a node twice.
pub proof fn law_paths_do_not_revisit(g: Seq<Seq<usize>>, cs: Seq<usize>, p: Seq<usize>)
    requires
        traversal_finishes(g, cs),
        is_path_from(g, cs, p),
    ensures
        p.no_duplicates(),
{
    assert forall|i: int, j: int| 0 <= i < p.len() && 0 <= j < p.len() && i != j implies p[i] != p[j] by {
        if i < j {
            lemma_path_shrinks(g, cs, p, i, j);
        } else {
            lemma_path_shrinks(g, cs, p, j, i);
        }
    }
}

/// Every path from `cs` ends at a node of the graph and meets no node
/// twice: no handle below `cs` is dangling and no cycle is reachable.
pub open spec fn acyclic_below(g: Seq<Seq<usize>>, cs: Seq<usize>) -> bool {
    forall|p: Seq<usize>| #[trigger] is_path_from(g, cs, p) ==> p.no_duplicates() && p.last() < g.len()
}

/// Below the end of a path from an acyclic `cs`, the traversal finishes
/// with as much fuel as the path leaves of the node count.
proof fn lemma_walk_from_path(g: Seq<Seq<usize>>, cs: Seq<usize>, q: Seq<usize>, f: nat)
    requires
        acyclic_below(g, cs),
        is_path_from(g, cs, q),
        f + q.len() >= g.len() + 1,
    ensures
        walk(g, q.last(), f) is Some,
    decreases f,
{
    let n = g.len();
    let x = q.last();
    assert(q.no_duplicates() && x < n);
    assert forall|i: int| 0 <= i < q.len() implies (#[trigger] q[i]) < n by {
        if i < q.len() - 1 {
        } else {
            assert(q[i] == x);
        }
    }
    lemma_distinct_nodes_bound(q, n);
    let cs2 = g[x as int];
    assert forall|i: int| 0 <= i < cs2.len() implies (#[trigger] walk(g, cs2[i], (f - 1) as nat)) is Some by {
        let q2 = q.push(cs2[i]);
        assert forall|k: int| 0 <= k < q2.len() - 1 implies (#[trigger] q2[k]) < g.len() && g[q2[k] as int].contains(q2[k + 1]) by {
            if k < q.len() - 1 {
                assert(q2[k] == q[k] && q2[k + 1] == q[k + 1]);
                assert(q[k] < g.len() && g[q[k] as int].contains(q[k + 1]));
            } else {
                assert(q2[k] == x && q2[k + 1] == cs2[i]);
            }
        }
        assert(q2[0] == q[0]);
        assert(is_path_from(g, cs, q2));
        lemma_walk_from_path(g, cs, q2, (f - 1) as nat);
        assert(q2.last() == cs2[i]);
    }
    lemma_walk_list_of_each(g, cs2, (f - 1) as nat);
}

/// The traversal of `cs` finishes exactly when no handle below `cs` is
/// dangling and no cycle is reachable from `cs`.
pub proof fn law_finishes_iff_acyclic(g: Seq<Seq<usize>>, cs: Seq<usize>)
    ensures
        traversal_finishes(g, cs) <==> acyclic_below(g, cs),
{
    let n = g.len();
    if acyclic_below(g, cs) {
        assert forall|i: int| 0 <= i < cs.len() implies (#[trigger] walk(g, cs[i], n)) is Some by {
            let q = seq![cs[i]];
            assert(is_path_from(g, cs, q));
            lemma_walk_from_path(g, cs, q, n);
        }
        lemma_walk_list_of_each(g, cs, n);
        assert(walk_list(g, cs, n) is Some);
    }
    if traversal_finishes(g, cs) {
        assert forall|p: Seq<usize>| #[trigger] is_path_from(g, cs, p) implies p.no_duplicates() && p.last() < g.len() by {
            law_paths_do_not_revisit(g, cs, p);
            lemma_path_step(g, cs, p, p.len() - 1);
        }
    }
}

/// A finished list traversal reads the same once a node is added at the end.
proof fn lemma_walk_list_extend(g: Seq<Seq<usize>>, cs: Seq<usize>, f: nat, extra: Seq<usize>)
    requires
        walk_list(g, cs, f) is Some,
    ensures
        walk_list(g.push(extra), cs, f) == walk_list(g, cs, f),
    decreases f, cs.len(),
{
    if cs.len() > 0 {
        let last = cs.last();
        lemma_walk_list_extend(g, cs.drop_last(), f, extra);
        assert(walk(g, last, f) is Some);
        assert(f > 0 && last < g.len());
        assert(g.push(extra)[last as int] == g[last as int]);
        lemma_walk_list_extend(g, g[last as int], (f - 1) as nat, extra);
        assert(walk(g.push(extra), last, f) == walk(g, last, f));
    }
}

/// Adding a new, childless node `g.len()` as the last child of `p` keeps a
/// finishing traversal below `p` finishing, with the new node listed last.
pub proof fn law_add_fresh_child(g: Seq<Seq<usize>>, p: usize)
    requires
        p < g.len() < usize::MAX,
        traversal_finishes(g, g[p as int]),
    ensures
        ({
            let g2 = g.push(Seq::<usize>::empty()).update(p as int, g[p as int].push(g.len() as usize));
            &&& traversal_finishes(g2, g2[p as int])
            &&& descendants(g2, g2[p as int]) == descendants(g, g[p as int]).push(g.len() as usize)
        }),
{
    let n = g.len();
    let c = n as usize;
    let g1 = g.push(Seq::<usize>::empty());
    lemma_descendants_at_len(g, g[p as int]);
    lemma_walk_list_extend(g, g[p as int], n, Seq::<usize>::empty());
    lemma_walk_list_mono(g1, g[p as int], n, n + 1);
    assert(g1[p as int] == g[p as int]);
    lemma_descendants_at_len(g1, g1[p as int]);
    assert(walk_list(g1, Seq::<usize>::empty(), 0) == Some(Seq::<usize>::empty()));
    assert(c as int == n && g1.len() == n + 1 && g1[c as int] == Seq::<usize>::empty());
    assert(walk(g1, c, 1) == Some(Seq::<usize>::empty()));
    assert(seq![c].drop_last() =~= Seq::<usize>::empty());
    assert(seq![c].last() == c);
    assert(walk_list(g1, Seq::<usize>::empty(), 1) == Some(Seq::<usize>::empty()));
    assert(walk_list(g1, seq![c], 1) == Some(Seq::<usize>::empty() + seq![c] + Seq::<usize>::empty()));
    assert(Seq::<usize>::empty() + seq![c] + Seq::<usize>::empty() =~= seq![c]);
    lemma_walk_list_bound(g1, seq![c], 1);
    lemma_descendants_at_len(g1, seq![c]);
    assert(descendants(g1, seq![c]) == seq![c]);
    assert(!seq![c].contains(p));
    law_add_child_descendants(g1, p, c);
    assert(descendants(g, g[p as int]) + seq![c] =~= descendants(g, g[p as int]).push(c));
}

} // verus!
