//! The taxonomy tree that a report describes, kept as an arena of nodes that
//! refer to each other by index, and the two walks over it: up to the root,
//! and down through a whole subtree.
use crate::kraken::{
    process_kraken_report_line, report_level, report_line_error, report_taxon, ReportLineError,
};
use std::collections::HashMap;
use vstd::prelude::*;

verus! {

broadcast use vstd::std_specs::hash::group_hash_axioms;

/// A node of the taxonomy tree; `parent` and `children` are indices into the
/// vector of nodes that holds it.
#[derive(Debug, Clone)]
pub struct Tree {
    pub taxon_id: i32,
    pub level_num: usize,
    pub children: Vec<usize>,
    pub parent: Option<usize>,
}

impl Tree {
    pub fn new(taxon_id: i32, level_num: usize, parent: Option<usize>) -> (r: Tree)
        ensures
            r.taxon_id == taxon_id,
            r.level_num == level_num,
            r.parent == parent,
            r.children@ == Seq::<usize>::empty(),
    {
        Tree { taxon_id, level_num, children: Vec::new(), parent }
    }
}

/// Why a walk over the tree failed.
#[derive(Debug, Clone, Copy, PartialEq, Eq, Structural)]
pub enum TaxonomyError {
    /// The taxon ID has no entry in the lookup map.
    TaxonNotFound(i32),
    /// A node index, or a parent or child link, points outside the vector of
    /// nodes, or the walk takes more steps than there are nodes (which only a
    /// cycle of links can cause).
    CorruptTree,
}

/// The taxon IDs of the nodes at the indices `idx`.
pub open spec fn taxa_at(nodes: Seq<Tree>, idx: Seq<int>) -> Seq<i32> {
    idx.map_values(|j: int| nodes[j].taxon_id)
}

/// The indices met on the walk from node `i` up the parent links to a node
/// without a parent, taking at most `fuel` steps: `i` first, the root last.
/// `None` where the walk leaves the vector or needs more steps.
pub open spec fn walk_up(nodes: Seq<Tree>, i: int, fuel: nat) -> Option<Seq<int>>
    decreases fuel,
{
    if i < 0 || i >= nodes.len() {
        None
    } else {
        match nodes[i].parent {
            None => Some(seq![i]),
            Some(p) => if fuel == 0 {
                None
            } else {
                match walk_up(nodes, p as int, (fuel - 1) as nat) {
                    Some(s) => Some(seq![i] + s),
                    None => None,
                }
            },
        }
    }
}

/// The walk up from node `i`, at most as many steps as there are nodes: it
/// fails only on a link out of range or on a cycle.
pub open spec fn ancestry(nodes: Seq<Tree>, i: int) -> Option<Seq<int>> {
    walk_up(nodes, i, nodes.len())
}

/// The indices of the subtree under node `i` in post-order (the subtrees of
/// its children in their order, then `i`), going at most `fuel` links down.
/// `None` where an index leaves the vector or the walk needs to go deeper.
pub open spec fn walk_down(nodes: Seq<Tree>, i: int, fuel: nat) -> Option<Seq<int>>
    decreases fuel, 1int, 0int,
{
    if i < 0 || i >= nodes.len() {
        None
    } else {
        match walk_down_forest(nodes, nodes[i].children@, fuel) {
            Some(s) => Some(s.push(i)),
            None => None,
        }
    }
}

/// The subtrees under the nodes `kids`, one after the other, each entered by
/// one link from their parent.
pub open spec fn walk_down_forest(nodes: Seq<Tree>, kids: Seq<usize>, fuel: nat) -> Option<
    Seq<int>,
>
    decreases fuel, 0int, kids.len(),
{
    if kids.len() == 0 {
        Some(Seq::empty())
    } else if fuel == 0 {
        None
    } else {
        match (
            walk_down_forest(nodes, kids.drop_last(), fuel),
            walk_down(nodes, kids.last() as int, (fuel - 1) as nat),
        ) {
            (Some(a), Some(b)) => Some(a + b),
            _ => None,
        }
    }
}

/// The post-order walk from node `i`, at most as many links down as there
/// are nodes: it fails only on a link out of range or on a cycle.
pub open spec fn subtree(nodes: Seq<Tree>, i: int) -> Option<Seq<int>> {
    walk_down(nodes, i, nodes.len())
}

/// The walk up from node `i` where every parent must come before its child.
pub open spec fn ordered_ancestry(nodes: Seq<Tree>, i: int) -> Option<Seq<int>>
    decreases i,
{
    if i < 0 || i >= nodes.len() {
        None
    } else {
        match nodes[i].parent {
            None => Some(seq![i]),
            Some(p) => if p < i {
                match ordered_ancestry(nodes, p as int) {
                    Some(s) => Some(seq![i] + s),
                    None => None,
                }
            } else {
                None
            },
        }
    }
}

/// The post-order walk from node `i` where every child must come after its
/// parent.
pub open spec fn ordered_subtree(nodes: Seq<Tree>, i: int) -> Option<Seq<int>>
    decreases nodes.len() - i, 1int, 0int,
{
    if i < 0 || i >= nodes.len() {
        None
    } else {
        match ordered_forest(nodes, i, nodes[i].children@) {
            Some(s) => Some(s.push(i)),
            None => None,
        }
    }
}

/// The subtrees under the nodes `kids`, children of node `p`, one after the other.
pub open spec fn ordered_forest(nodes: Seq<Tree>, p: int, kids: Seq<usize>) -> Option<Seq<int>>
    decreases nodes.len() - p, 0int, kids.len(),
{
    if kids.len() == 0 {
        Some(Seq::empty())
    } else {
        let c = kids.last() as int;
        if p < c < nodes.len() {
            match (ordered_forest(nodes, p, kids.drop_last()), ordered_subtree(nodes, c)) {
                (Some(a), Some(b)) => Some(a + b),
                _ => None,
            }
        } else {
            None
        }
    }
}

/// The tree a report describes: its nodes in report order, the node index of
/// each requested taxon that the report holds, and the requested taxa it lacks.
#[derive(Debug, Clone)]
pub struct ProcessedKrakenTree {
    pub nodes: Vec<Tree>,
    pub taxon_map: HashMap<i32, usize>,
    pub missing_taxon_ids: Vec<i32>,
}

/// A report line that could not be read: its number, counted from 1, and why.
#[derive(Debug, Clone, Copy, PartialEq, Eq, Structural)]
pub struct ReportError {
    pub line: usize,
    pub error: ReportLineError,
}

/// The characters of each line.
pub open spec fn texts(lines: Seq<String>) -> Seq<Seq<char>> {
    lines.map_values(|l: String| l@)
}

pub open spec fn report_taxa(lines: Seq<Seq<char>>) -> Seq<i32> {
    lines.map_values(|l: Seq<char>| report_taxon(l))
}

pub open spec fn report_levels(lines: Seq<Seq<char>>) -> Seq<nat> {
    lines.map_values(|l: Seq<char>| report_level(l))
}

/// Every line of the report can be read.
pub open spec fn report_is_valid(lines: Seq<Seq<char>>) -> bool {
    forall|i: int| 0 <= i < lines.len() ==> (#[trigger] report_line_error(lines[i])) is None
}

/// `e` names the first line of the report that cannot be read.
pub open spec fn is_first_report_error(lines: Seq<Seq<char>>, e: ReportError) -> bool {
    &&& 1 <= e.line <= lines.len()
    &&& report_line_error(lines[e.line - 1]) == Some(e.error)
    &&& forall|j: int| 0 <= j < e.line - 1 ==> (#[trigger] report_line_error(lines[j])) is None
}

/// The first node met on the walk up from node `at` whose level is one less
/// than `level`; `at < 0` stands for no node.
pub open spec fn climb(levels: Seq<nat>, parents: Seq<Option<usize>>, at: int, level: nat) -> Option<
    usize,
>
    decreases at + 1,
{
    if at < 0 || at >= parents.len() || at >= levels.len() {
        None
    } else if levels[at] + 1 == level {
        Some(at as usize)
    } else {
        match parents[at] {
            Some(p) => if p < at {
                climb(levels, parents, p as int, level)
            } else {
                None
            },
            None => None,
        }
    }
}

/// The parent of each of the first `n` lines of a report with these taxa and
/// levels. Taxa `0` (unclassified) and `1` (the root) have none; any other line
/// hangs under the nearest node, on the walk up from the line before it, whose
/// level is one less than its own.
pub open spec fn report_parents(taxa: Seq<i32>, levels: Seq<nat>, n: nat) -> Seq<Option<usize>>
    decreases n,
{
    if n == 0 {
        Seq::empty()
    } else {
        let before = report_parents(taxa, levels, (n - 1) as nat);
        let i = n - 1;
        let p = if taxa[i] == 0 || taxa[i] == 1 {
            None
        } else {
            climb(levels, before, i - 1, levels[i])
        };
        before.push(p)
    }
}

/// Node `i` has a parent before it, one level up.
pub open spec fn parent_ok(nodes: Seq<Tree>, i: int) -> bool {
    match nodes[i].parent {
        Some(p) => p < i && nodes[p as int].level_num + 1 == nodes[i].level_num,
        None => true,
    }
}

/// The children of node `i` are exactly the nodes whose parent it is, in
/// increasing order.
pub open spec fn children_ok(nodes: Seq<Tree>, i: int) -> bool {
    let ch = nodes[i].children@;
    &&& forall|a: int, b: int| 0 <= a < b < ch.len() ==> ch[a] < ch[b]
    &&& forall|k: int|
        0 <= k < ch.len() ==> i < #[trigger] ch[k] < nodes.len() && nodes[ch[k] as int].parent
            == Some(i as usize)
    &&& forall|c: int|
        0 <= c < nodes.len() && (#[trigger] nodes[c].parent) == Some(i as usize) ==> ch.contains(
            c as usize,
        )
}

/// The arena holds a forest: every link is consistent both ways, every child
/// comes after its parent and lies one level below it.
pub open spec fn wf_tree(nodes: Seq<Tree>) -> bool {
    &&& forall|i: int| 0 <= i < nodes.len() ==> #[trigger] parent_ok(nodes, i)
    &&& forall|i: int| 0 <= i < nodes.len() ==> #[trigger] children_ok(nodes, i)
}

/// `m` maps each requested taxon that occurs in `taxa` to its last position.
pub open spec fn is_lookup_map(taxa: Seq<i32>, wanted: Seq<i32>, m: Map<i32, usize>) -> bool {
    &&& forall|t: i32| #[trigger] m.contains_key(t) <==> (wanted.contains(t) && taxa.contains(t))
    &&& forall|t: i32| #[trigger]
        m.contains_key(t) ==> m[t] < taxa.len() && taxa[m[t] as int] == t && forall|j: int|
            m[t] < j < taxa.len() ==> taxa[j] != t
}

/// `tree` is the tree of the (valid) report `lines`, with the lookup map of
/// the requested taxa `wanted`.
pub open spec fn is_report_tree(
    lines: Seq<Seq<char>>,
    wanted: Seq<i32>,
    tree: ProcessedKrakenTree,
) -> bool {
    let taxa = report_taxa(lines);
    let levels = report_levels(lines);
    let ps = report_parents(taxa, levels, lines.len());
    let nodes = tree.nodes@;
    &&& nodes.len() == lines.len()
    &&& forall|i: int|
        0 <= i < nodes.len() ==> (#[trigger] nodes[i]).taxon_id == taxa[i] && nodes[i].level_num
            == levels[i] && nodes[i].parent == ps[i]
    &&& wf_tree(nodes)
    &&& is_lookup_map(taxa, wanted, tree.taxon_map@)
    &&& tree.missing_taxon_ids@ == wanted.filter(absent_from(taxa))
}

proof fn lemma_report_parents_len(taxa: Seq<i32>, levels: Seq<nat>, n: nat)
    ensures
        report_parents(taxa, levels, n).len() == n,
    decreases n,
{
    if n > 0 {
        lemma_report_parents_len(taxa, levels, (n - 1) as nat);
    }
}

/// Adding node `i = old.len()` under `p` keeps the arena a forest.
proof fn lemma_attach(old: Seq<Tree>, new: Seq<Tree>, p: Option<usize>)
    requires
        wf_tree(old),
        new.len() == old.len() + 1,
        new.len() <= usize::MAX,
        new[old.len() as int].parent == p,
        new[old.len() as int].children@ == Seq::<usize>::empty(),
        match p {
            Some(q) => q < old.len() && old[q as int].level_num + 1 == new[old.len() as int].level_num
                && new[q as int].children@ == old[q as int].children@.push(old.len() as usize)
                && new[q as int].parent == old[q as int].parent && new[q as int].level_num
                == old[q as int].level_num,
            None => true,
        },
        forall|j: int| 0 <= j < old.len() && Some(j as usize) != p ==> new[j] == old[j],
    ensures
        wf_tree(new),
{
    let n = old.len() as int;
    assert forall|i: int| 0 <= i < new.len() implies #[trigger] parent_ok(new, i) by {
        if i < n {
            assert(parent_ok(old, i));
            if Some(i as usize) != p {
                assert(new[i] == old[i]);
            }
            match new[i].parent {
                Some(q) => {
                    if Some(q) != p {
                        assert(new[q as int] == old[q as int]);
                    }
                },
                None => {},
            }
        } else {
            match p {
                Some(q) => {
                    assert(new[q as int].level_num == old[q as int].level_num);
                },
                None => {},
            }
        }
    }
    assert forall|i: int| 0 <= i < new.len() implies #[trigger] children_ok(new, i) by {
        if i < n {
            assert(children_ok(old, i));
            let ch = new[i].children@;
            if Some(i as usize) == p {
                let och = old[i].children@;
                assert forall|c: int|
                    0 <= c < new.len() && (#[trigger] new[c].parent) == Some(
                        i as usize,
                    ) implies ch.contains(c as usize) by {
                    if c < n {
                        assert(och.contains(c as usize));
                        let k = choose|k: int| 0 <= k < och.len() && och[k] == c as usize;
                        assert(ch[k] == c as usize);
                    } else {
                        assert(ch[och.len() as int] == c as usize);
                    }
                }
            } else {
                assert forall|c: int|
                    0 <= c < new.len() && (#[trigger] new[c].parent) == Some(
                        i as usize,
                    ) implies ch.contains(c as usize) by {
                    if c < n {
                        if Some(c as usize) != p {
                            assert(new[c] == old[c]);
                        }
                        assert(old[c].parent == Some(i as usize));
                    }
                }
                assert forall|k: int| 0 <= k < ch.len() implies i < #[trigger] ch[k] < new.len()
                    && new[ch[k] as int].parent == Some(i as usize) by {
                    let c = ch[k] as int;
                    if Some(c as usize) != p {
                        assert(new[c] == old[c]);
                    }
                }
            }
        } else {
            assert forall|c: int|
                0 <= c < new.len() && (#[trigger] new[c].parent) == Some(
                    i as usize,
                ) implies new[i].children@.contains(c as usize) by {
                if c < n {
                    assert(parent_ok(old, c));
                    match p {
                        Some(q) => {
                            if c == q {
                                assert(new[c].parent == old[c].parent);
                            } else {
                                assert(new[c] == old[c]);
                            }
                        },
                        None => {
                            assert(new[c] == old[c]);
                        },
                    }
                } else {
                    assert(new[c].parent == p);
                }
            }
        }
    }
}

fn contains_taxon(xs: &[i32], t: i32) -> (r: bool)
    ensures
        r == xs@.contains(t),
{
    let mut k: usize = 0;
    while k < xs.len()
        invariant
            k <= xs@.len(),
            forall|j: int| 0 <= j < k ==> xs@[j] != t,
        decreases xs@.len() - k,
    {
        if xs[k] == t {
            return true;
        }
        k = k + 1;
    }
    false
}

/// Holds of the taxa that `taxa` lacks.
pub open spec fn absent_from(taxa: Seq<i32>) -> spec_fn(i32) -> bool {
    |t: i32| !taxa.contains(t)
}

pub open spec fn opt_index(at: Option<usize>) -> int {
    match at {
        Some(j) => j as int,
        None => -1,
    }
}

proof fn lemma_lookup_step(taxa: Seq<i32>, wanted: Seq<i32>, m: Map<i32, usize>, i: int)
    requires
        is_lookup_map(taxa.take(i), wanted, m),
        0 <= i < taxa.len(),
        i <= usize::MAX,
    ensures
        wanted.contains(taxa[i]) ==> is_lookup_map(
            taxa.take(i + 1),
            wanted,
            m.insert(taxa[i], i as usize),
        ),
        !wanted.contains(taxa[i]) ==> is_lookup_map(taxa.take(i + 1), wanted, m),
{
    let before = taxa.take(i);
    let after = taxa.take(i + 1);
    assert(after == before.push(taxa[i]));
    assert forall|t: i32| after.contains(t) <==> (before.contains(t) || t == taxa[i]) by {
        if after.contains(t) {
            let k = choose|k: int| 0 <= k < after.len() && after[k] == t;
            if k < i {
                assert(before[k] == t);
            }
        }
        if before.contains(t) {
            let k = choose|k: int| 0 <= k < before.len() && before[k] == t;
            assert(after[k] == t);
        }
        if t == taxa[i] {
            assert(after[i] == t);
        }
    }
    if wanted.contains(taxa[i]) {
        let m2 = m.insert(taxa[i], i as usize);
        assert forall|t: i32| #[trigger]
            m2.contains_key(t) implies m2[t] < after.len() && after[m2[t] as int] == t && forall|
                j: int,
            |
                m2[t] < j < after.len() ==> after[j] != t by {
            if t != taxa[i] {
                assert(m.contains_key(t));
            }
        }
    } else {
        assert forall|t: i32| #[trigger]
            m.contains_key(t) implies m[t] < after.len() && after[m[t] as int] == t && forall|j: int|
                m[t] < j < after.len() ==> after[j] != t by {
            assert(wanted.contains(t));
        }
    }
}

/// Node `j` lies in the subtree under node `i`: `i` is on the walk up from `j`.
pub open spec fn ordered_descendant(nodes: Seq<Tree>, j: int, i: int) -> bool {
    &&& 0 <= j < nodes.len()
    &&& ordered_ancestry(nodes, j) is Some
    &&& ordered_ancestry(nodes, j)->0.contains(i)
}

/// In a well-formed tree the walk up from a node is a strictly decreasing run
/// of indices joined by parent links, and it ends at a root.
proof fn lemma_ancestry_links(nodes: Seq<Tree>, i: int)
    requires
        wf_tree(nodes) || ordered_ancestry(nodes, i) is Some,
        nodes.len() <= usize::MAX,
        0 <= i < nodes.len(),
    ensures
        ordered_ancestry(nodes, i) is Some,
        ordered_ancestry(nodes, i)->0.len() >= 1,
        ordered_ancestry(nodes, i)->0[0] == i,
        nodes[ordered_ancestry(nodes, i)->0.last()].parent is None,
        forall|k: int|
            0 <= k < ordered_ancestry(nodes, i)->0.len() ==> 0 <= #[trigger] ordered_ancestry(nodes, i)->0[k] <= i,
        forall|k: int|
            0 <= k < ordered_ancestry(nodes, i)->0.len() - 1 ==> nodes[#[trigger] ordered_ancestry(
                nodes,
                i,
            )->0[k]].parent == Some(ordered_ancestry(nodes, i)->0[k + 1] as usize),
        forall|a: int, b: int|
            0 <= a < b < ordered_ancestry(nodes, i)->0.len() ==> ordered_ancestry(nodes, i)->0[a] > ordered_ancestry(
                nodes,
                i,
            )->0[b],
    decreases i,
{
    if wf_tree(nodes) {
        assert(parent_ok(nodes, i));
    }
    match nodes[i].parent {
        None => {},
        Some(p) => {
            lemma_ancestry_links(nodes, p as int);
            let t = ordered_ancestry(nodes, p as int)->0;
            let c = seq![i] + t;
            assert(ordered_ancestry(nodes, i)->0 == c);
            assert forall|k: int| 0 <= k < c.len() - 1 implies nodes[#[trigger] c[k]].parent == Some(
                c[k + 1] as usize,
            ) by {
                if k > 0 {
                    assert(c[k] == t[k - 1]);
                }
            }
            assert forall|a: int, b: int| 0 <= a < b < c.len() implies c[a] > c[b] by {
                if a > 0 {
                    assert(c[a] == t[a - 1]);
                }
                assert(c[b] == t[b - 1]);
            }
            assert forall|k: int| 0 <= k < c.len() implies 0 <= #[trigger] c[k] <= i by {
                if k > 0 {
                    assert(c[k] == t[k - 1]);
                }
            }
        },
    }
}

/// If node `c`, a child of `p`, is on the walk up from `x`, then `p` comes
/// right after it there.
proof fn lemma_child_on_walk(nodes: Seq<Tree>, x: int, c: int, p: int) -> (q: int)
    requires
        wf_tree(nodes),
        nodes.len() <= usize::MAX,
        ordered_descendant(nodes, x, c),
        0 <= c < nodes.len(),
        0 <= p < nodes.len(),
        nodes[c].parent == Some(p as usize),
    ensures
        0 <= q < ordered_ancestry(nodes, x)->0.len() - 1,
        ordered_ancestry(nodes, x)->0[q] == c,
        ordered_ancestry(nodes, x)->0[q + 1] == p,
{
    lemma_ancestry_links(nodes, x);
    let w = ordered_ancestry(nodes, x)->0;
    let q = choose|q: int| 0 <= q < w.len() && w[q] == c;
    if q == w.len() - 1 {
        assert(w.last() == c);
    } else {
        assert(nodes[w[q]].parent == Some(w[q + 1] as usize));
        assert(0 <= w[q + 1] <= x);
    }
    q
}

proof fn lemma_forest_prefix(nodes: Seq<Tree>, p: int, k: int)
    requires
        wf_tree(nodes),
        nodes.len() <= usize::MAX,
        0 <= p < nodes.len(),
        0 <= k <= nodes[p].children@.len(),
        forall|m: int|
            0 <= m < nodes[p].children@.len() ==> #[trigger] ordered_subtree_is_members(
                nodes,
                nodes[p].children@[m] as int,
            ),
    ensures
        ordered_forest(nodes, p, nodes[p].children@.take(k)) is Some,
        ordered_forest(nodes, p, nodes[p].children@.take(k))->0.no_duplicates(),
        forall|j: int|
            #[trigger] ordered_forest(nodes, p, nodes[p].children@.take(k))->0.contains(j) <==> exists|m: int|
                0 <= m < k && ordered_descendant(nodes, j, nodes[p].children@[m] as int),
    decreases k,
{
    let ch = nodes[p].children@;
    assert(children_ok(nodes, p));
    if k == 0 {
        assert(ch.take(0) == Seq::<usize>::empty());
    } else {
        lemma_forest_prefix(nodes, p, k - 1);
        let kids = ch.take(k);
        assert(kids.drop_last() == ch.take(k - 1));
        let c = ch[k - 1] as int;
        assert(kids.last() == c);
        assert(ordered_subtree_is_members(nodes, c));
        let a = ordered_forest(nodes, p, ch.take(k - 1))->0;
        let b = ordered_subtree(nodes, c)->0;
        let s = a + b;
        assert(ordered_forest(nodes, p, kids) == Some(s));
        assert forall|j: int| #[trigger] s.contains(j) <==> exists|m: int|
            0 <= m < k && ordered_descendant(nodes, j, ch[m] as int) by {
            if s.contains(j) {
                let t = choose|t: int| 0 <= t < s.len() && s[t] == j;
                if t < a.len() {
                    assert(a[t] == j);
                    assert(a.contains(j));
                } else {
                    assert(b[t - a.len()] == j);
                    assert(b.contains(j));
                    assert(ordered_descendant(nodes, j, ch[k - 1] as int));
                }
            }
            if exists|m: int| 0 <= m < k && ordered_descendant(nodes, j, ch[m] as int) {
                let m = choose|m: int| 0 <= m < k && ordered_descendant(nodes, j, ch[m] as int);
                if m < k - 1 {
                    assert(a.contains(j));
                    let t = choose|t: int| 0 <= t < a.len() && a[t] == j;
                    assert(s[t] == j);
                } else {
                    assert(ordered_subtree_is_members(nodes, ch[m] as int));
                    assert(b.contains(j));
                    let t = choose|t: int| 0 <= t < b.len() && b[t] == j;
                    assert(s[a.len() + t] == j);
                }
            }
        }
        assert forall|x: int, y: int| 0 <= x < s.len() && 0 <= y < s.len() && x != y implies s[x]
            != s[y] by {
            if x < a.len() && y < a.len() {
            } else if x >= a.len() && y >= a.len() {
                assert(s[x] == b[x - a.len()] && s[y] == b[y - a.len()]);
            } else {
                let (u, v) = if x < a.len() {
                    (x, y)
                } else {
                    (y, x)
                };
                if s[u] == s[v] {
                    let j = s[u];
                    assert(a[u] == j);
                    assert(a.contains(j));
                    let m = choose|m: int| 0 <= m < k - 1 && ordered_descendant(nodes, j, ch[m] as int);
                    assert(b[v - a.len()] == j);
                    assert(b.contains(j));
                    assert(ordered_descendant(nodes, j, c));
                    let q1 = lemma_child_on_walk(nodes, j, ch[m] as int, p);
                    let q2 = lemma_child_on_walk(nodes, j, c, p);
                    lemma_ancestry_links(nodes, j);
                    let w = ordered_ancestry(nodes, j)->0;
                    if q1 < q2 {
                        assert(w[q1 + 1] > w[q2 + 1]);
                    } else if q2 < q1 {
                        assert(w[q2 + 1] > w[q1 + 1]);
                    }
                    assert(ch[m] < ch[k - 1]);
                }
            }
        }
    }
}

/// The subtree under node `i` holds each of its members once.
pub open spec fn ordered_subtree_is_members(nodes: Seq<Tree>, i: int) -> bool {
    &&& ordered_subtree(nodes, i) is Some
    &&& ordered_subtree(nodes, i)->0.no_duplicates()
    &&& ordered_subtree(nodes, i)->0.last() == i
    &&& forall|j: int| #[trigger]
        ordered_subtree(nodes, i)->0.contains(j) <==> ordered_descendant(nodes, j, i)
}

/// In a well-formed tree, the post-order walk from any node lists exactly the
/// nodes under it (those whose walk up passes through it), each once, with the
/// node itself last.
proof fn lemma_ordered_subtree_members(nodes: Seq<Tree>, i: int)
    requires
        wf_tree(nodes),
        nodes.len() <= usize::MAX,
        0 <= i < nodes.len(),
    ensures
        ordered_subtree_is_members(nodes, i),
    decreases nodes.len() - i,
{
    let ch = nodes[i].children@;
    assert(children_ok(nodes, i));
    assert forall|m: int| 0 <= m < ch.len() implies #[trigger] ordered_subtree_is_members(
        nodes,
        ch[m] as int,
    ) by {
        lemma_ordered_subtree_members(nodes, ch[m] as int);
    }
    lemma_forest_prefix(nodes, i, ch.len() as int);
    assert(ch.take(ch.len() as int) == ch);
    let f = ordered_forest(nodes, i, ch)->0;
    let s = f.push(i);
    assert(ordered_subtree(nodes, i) == Some(s));
    lemma_ancestry_links(nodes, i);
    assert forall|j: int| #[trigger] s.contains(j) <==> ordered_descendant(nodes, j, i) by {
        if s.contains(j) {
            let t = choose|t: int| 0 <= t < s.len() && s[t] == j;
            if t < f.len() {
                assert(f[t] == j);
                assert(f.contains(j));
                let m = choose|m: int| 0 <= m < ch.len() && ordered_descendant(nodes, j, ch[m] as int);
                let q = lemma_child_on_walk(nodes, j, ch[m] as int, i);
                assert(ordered_ancestry(nodes, j)->0[q + 1] == i);
            } else {
                assert(ordered_ancestry(nodes, i)->0[0] == i);
            }
        }
        if ordered_descendant(nodes, j, i) {
            lemma_ancestry_links(nodes, j);
            let w = ordered_ancestry(nodes, j)->0;
            let q = choose|q: int| 0 <= q < w.len() && w[q] == i;
            if q == 0 {
                assert(s[f.len() as int] == i);
            } else {
                let c = w[q - 1];
                assert(nodes[c].parent == Some(i as usize));
                assert(ch.contains(c as usize));
                let m = choose|m: int| 0 <= m < ch.len() && ch[m] == c as usize;
                assert(ordered_descendant(nodes, j, ch[m] as int));
                assert(f.contains(j));
                let t = choose|t: int| 0 <= t < f.len() && f[t] == j;
                assert(s[t] == j);
            }
        }
    }
    assert forall|x: int, y: int| 0 <= x < s.len() && 0 <= y < s.len() && x != y implies s[x]
        != s[y] by {
        if x < f.len() && y < f.len() {
            assert(s[x] == f[x] && s[y] == f[y]);
        } else if x < f.len() || y < f.len() {
            let u = if x < f.len() {
                x
            } else {
                y
            };
            let j = f[u];
            assert(f.contains(j));
            let m = choose|m: int| 0 <= m < ch.len() && ordered_descendant(nodes, j, ch[m] as int);
            lemma_ancestry_links(nodes, j);
            let q = lemma_child_on_walk(nodes, j, ch[m] as int, i);
            assert(ordered_ancestry(nodes, j)->0[0] > ordered_ancestry(nodes, j)->0[q + 1]);
        }
    }
}

/// In a well-formed tree, the walk up from node `i`, read backwards, is a path
/// that starts at a root and follows child links down to `i`, one level a step.
proof fn lemma_ordered_root_path(nodes: Seq<Tree>, i: int)
    requires
        wf_tree(nodes),
        nodes.len() <= usize::MAX,
        0 <= i < nodes.len(),
    ensures
        ordered_ancestry(nodes, i) is Some,
        ({
            let path = ordered_ancestry(nodes, i)->0.reverse();
            &&& path.len() >= 1
            &&& nodes[path[0]].parent is None
            &&& path.last() == i
            &&& forall|k: int|
                0 <= k < path.len() - 1 ==> nodes[#[trigger] path[k + 1]].parent == Some(
                    path[k] as usize,
                ) && nodes[path[k]].children@.contains(path[k + 1] as usize)
                    && nodes[path[k]].level_num + 1 == nodes[path[k + 1]].level_num
        }),
{
    lemma_ancestry_links(nodes, i);
    let c = ordered_ancestry(nodes, i)->0;
    let path = c.reverse();
    let n = c.len();
    assert(path[0] == c[n - 1]);
    assert(path.last() == c[0]);
    assert forall|k: int| 0 <= k < path.len() - 1 implies nodes[#[trigger] path[k + 1]].parent
        == Some(path[k] as usize) && nodes[path[k]].children@.contains(path[k + 1] as usize)
        && nodes[path[k]].level_num + 1 == nodes[path[k + 1]].level_num by {
        let a = n - 2 - k;
        assert(path[k + 1] == c[a]);
        assert(path[k] == c[a + 1]);
        assert(nodes[c[a]].parent == Some(c[a + 1] as usize));
        assert(0 <= c[a] <= i && 0 <= c[a + 1] <= i);
        assert(parent_ok(nodes, c[a]));
        assert(children_ok(nodes, c[a + 1]));
    }
}

proof fn lemma_report_parents_prefix(taxa: Seq<i32>, levels: Seq<nat>, n: nat, j: int)
    requires
        0 <= j < n,
    ensures
        report_parents(taxa, levels, n)[j] == report_parents(taxa, levels, (j + 1) as nat)[j],
    decreases n,
{
    lemma_report_parents_len(taxa, levels, (n - 1) as nat);
    if j < n - 1 {
        lemma_report_parents_prefix(taxa, levels, (n - 1) as nat, j);
    }
}


proof fn lemma_walk_up_ordered(nodes: Seq<Tree>, i: int, fuel: nat)
    requires
        wf_tree(nodes),
        nodes.len() <= usize::MAX,
        0 <= i < nodes.len(),
        fuel >= i,
    ensures
        ordered_ancestry(nodes, i) is Some,
        walk_up(nodes, i, fuel) == ordered_ancestry(nodes, i),
    decreases i,
{
    assert(parent_ok(nodes, i));
    match nodes[i].parent {
        None => {},
        Some(p) => {
            lemma_walk_up_ordered(nodes, p as int, (fuel - 1) as nat);
        },
    }
}

proof fn lemma_walk_down_ordered(nodes: Seq<Tree>, i: int, fuel: nat)
    requires
        wf_tree(nodes),
        nodes.len() <= usize::MAX,
        0 <= i < nodes.len(),
        fuel >= nodes.len() - i,
    ensures
        walk_down(nodes, i, fuel) == ordered_subtree(nodes, i),
    decreases nodes.len() - i, 1int, 0int,
{
    let ch = nodes[i].children@;
    lemma_walk_forest_ordered(nodes, i, ch.len() as int, fuel);
    assert(ch.take(ch.len() as int) == ch);
}

proof fn lemma_walk_forest_ordered(nodes: Seq<Tree>, p: int, k: int, fuel: nat)
    requires
        wf_tree(nodes),
        nodes.len() <= usize::MAX,
        0 <= p < nodes.len(),
        0 <= k <= nodes[p].children@.len(),
        fuel >= nodes.len() - p,
    ensures
        walk_down_forest(nodes, nodes[p].children@.take(k), fuel) == ordered_forest(
            nodes,
            p,
            nodes[p].children@.take(k),
        ),
    decreases nodes.len() - p, 0int, k,
{
    let ch = nodes[p].children@;
    assert(children_ok(nodes, p));
    if k == 0 {
        assert(ch.take(0) == Seq::<usize>::empty());
    } else {
        lemma_walk_forest_ordered(nodes, p, k - 1, fuel);
        let kids = ch.take(k);
        assert(kids.drop_last() == ch.take(k - 1));
        let c = ch[k - 1] as int;
        assert(kids.last() == ch[k - 1]);
        lemma_walk_down_ordered(nodes, c, (fuel - 1) as nat);
    }
}

/// Node `j` lies in the subtree under node `i`: `i` is on the walk up from `j`.
pub open spec fn is_descendant(nodes: Seq<Tree>, j: int, i: int) -> bool {
    &&& 0 <= j < nodes.len()
    &&& ancestry(nodes, j) is Some
    &&& ancestry(nodes, j)->0.contains(i)
}

/// In a well-formed tree, the post-order walk from any node lists exactly the
/// nodes under it (those whose walk up passes through it), each once, with
/// the node itself last.
pub proof fn lemma_subtree_members(nodes: Seq<Tree>, i: int)
    requires
        wf_tree(nodes),
        nodes.len() <= usize::MAX,
        0 <= i < nodes.len(),
    ensures
        subtree(nodes, i) is Some,
        subtree(nodes, i)->0.no_duplicates(),
        subtree(nodes, i)->0.last() == i,
        forall|j: int| #[trigger] subtree(nodes, i)->0.contains(j) <==> is_descendant(nodes, j, i),
{
    lemma_walk_down_ordered(nodes, i, nodes.len());
    lemma_ordered_subtree_members(nodes, i);
    assert forall|j: int| #[trigger]
        subtree(nodes, i)->0.contains(j) <==> is_descendant(nodes, j, i) by {
        if 0 <= j < nodes.len() {
            lemma_walk_up_ordered(nodes, j, nodes.len());
        }
        assert(ordered_subtree(nodes, i)->0.contains(j) <==> ordered_descendant(nodes, j, i));
    }
}

/// In a well-formed tree, the walk up from node `i`, read backwards, is a path
/// that starts at a root and follows child links down to `i`, one level a step.
pub proof fn lemma_parents_reversed_is_root_path(nodes: Seq<Tree>, i: int)
    requires
        wf_tree(nodes),
        nodes.len() <= usize::MAX,
        0 <= i < nodes.len(),
    ensures
        ancestry(nodes, i) is Some,
        ({
            let path = ancestry(nodes, i)->0.reverse();
            &&& path.len() >= 1
            &&& nodes[path[0]].parent is None
            &&& path.last() == i
            &&& forall|k: int|
                0 <= k < path.len() - 1 ==> nodes[#[trigger] path[k + 1]].parent == Some(
                    path[k] as usize,
                ) && nodes[path[k]].children@.contains(path[k + 1] as usize)
                    && nodes[path[k]].level_num + 1 == nodes[path[k + 1]].level_num
        }),
{
    lemma_walk_up_ordered(nodes, i, nodes.len());
    lemma_ordered_root_path(nodes, i);
}

proof fn lemma_walk_up_links(nodes: Seq<Tree>, i: int, fuel: nat)
    requires
        walk_up(nodes, i, fuel) is Some,
    ensures
        walk_up(nodes, i, fuel)->0.len() >= 1,
        walk_up(nodes, i, fuel)->0[0] == i,
        forall|k: int|
            0 <= k < walk_up(nodes, i, fuel)->0.len() ==> 0 <= #[trigger] walk_up(
                nodes,
                i,
                fuel,
            )->0[k] < nodes.len(),
        nodes[walk_up(nodes, i, fuel)->0.last()].parent is None,
        forall|k: int|
            0 <= k < walk_up(nodes, i, fuel)->0.len() - 1 ==> nodes[#[trigger] walk_up(
                nodes,
                i,
                fuel,
            )->0[k]].parent == Some(walk_up(nodes, i, fuel)->0[k + 1] as usize),
    decreases fuel,
{
    match nodes[i].parent {
        None => {},
        Some(p) => {
            lemma_walk_up_links(nodes, p as int, (fuel - 1) as nat);
            let t = walk_up(nodes, p as int, (fuel - 1) as nat)->0;
            let c = seq![i] + t;
            assert(walk_up(nodes, i, fuel)->0 == c);
            assert forall|k: int| 0 <= k < c.len() - 1 implies nodes[#[trigger] c[k]].parent
                == Some(c[k + 1] as usize) by {
                if k > 0 {
                    assert(c[k] == t[k - 1]);
                }
            }
            assert forall|k: int| 0 <= k < c.len() implies 0 <= #[trigger] c[k] < nodes.len() by {
                if k > 0 {
                    assert(c[k] == t[k - 1]);
                }
            }
        },
    }
}

/// Wherever the walk up from node `i` succeeds (exactly where `extract_parents`
/// returns `Ok`), read backwards it starts at a node without a parent, ends at
/// `i`, and each next node names the one before it as its parent.
pub proof fn lemma_parents_reversed_follow_links(nodes: Seq<Tree>, i: int)
    requires
        ancestry(nodes, i) is Some,
    ensures
        ({
            let path = ancestry(nodes, i)->0.reverse();
            &&& path.len() >= 1
            &&& nodes[path[0]].parent is None
            &&& path.last() == i
            &&& forall|k: int|
                0 <= k < path.len() - 1 ==> nodes[#[trigger] path[k + 1]].parent == Some(
                    path[k] as usize,
                )
        }),
{
    lemma_walk_up_links(nodes, i, nodes.len());
    let c = ancestry(nodes, i)->0;
    let path = c.reverse();
    let n = c.len();
    assert(path[0] == c[n - 1]);
    assert(path.last() == c[0]);
    assert forall|k: int| 0 <= k < path.len() - 1 implies nodes[#[trigger] path[k + 1]].parent
        == Some(path[k] as usize) by {
        let a = n - 2 - k;
        assert(path[k + 1] == c[a]);
        assert(path[k] == c[a + 1]);
        assert(nodes[c[a]].parent == Some(c[a + 1] as usize));
    }
}

proof fn lemma_walk_down_more_fuel(nodes: Seq<Tree>, i: int, fuel: nat)
    requires
        walk_down(nodes, i, fuel) is Some,
    ensures
        walk_down(nodes, i, fuel + 1) == walk_down(nodes, i, fuel),
    decreases fuel, 1int, 0int,
{
    lemma_walk_forest_more_fuel(nodes, nodes[i].children@, fuel);
}

proof fn lemma_walk_forest_more_fuel(nodes: Seq<Tree>, kids: Seq<usize>, fuel: nat)
    requires
        walk_down_forest(nodes, kids, fuel) is Some,
    ensures
        walk_down_forest(nodes, kids, fuel + 1) == walk_down_forest(nodes, kids, fuel),
    decreases fuel, 0int, kids.len(),
{
    if kids.len() > 0 {
        lemma_walk_forest_more_fuel(nodes, kids.drop_last(), fuel);
        lemma_walk_down_more_fuel(nodes, kids.last() as int, (fuel - 1) as nat);
    }
}

proof fn lemma_walk_forest_concat(nodes: Seq<Tree>, kids: Seq<usize>, fuel: nat)
    requires
        walk_down_forest(nodes, kids, fuel) is Some,
        kids.len() > 0,
    ensures
        fuel > 0,
        forall|m: int|
            0 <= m < kids.len() ==> (#[trigger] walk_down(
                nodes,
                kids[m] as int,
                (fuel - 1) as nat,
            )) is Some,
        forall|j: int| #[trigger]
            walk_down_forest(nodes, kids, fuel)->0.contains(j) <==> exists|m: int|
                0 <= m < kids.len() && walk_down(nodes, kids[m] as int, (fuel - 1) as nat)->0.contains(
                    j,
                ),
    decreases kids.len(),
{
    let init = kids.drop_last();
    let c = kids.last() as int;
    let f1 = (fuel - 1) as nat;
    let a = walk_down_forest(nodes, init, fuel)->0;
    let b = walk_down(nodes, c, f1)->0;
    let s = a + b;
    if init.len() > 0 {
        lemma_walk_forest_concat(nodes, init, fuel);
    }
    assert(walk_down_forest(nodes, kids, fuel) == Some(s));
    assert forall|m: int| 0 <= m < kids.len() implies (#[trigger] walk_down(
        nodes,
        kids[m] as int,
        f1,
    )) is Some by {
        if m < init.len() {
            assert(init[m] == kids[m]);
        }
    }
    assert forall|j: int| #[trigger] s.contains(j) <==> exists|m: int|
        0 <= m < kids.len() && walk_down(nodes, kids[m] as int, f1)->0.contains(j) by {
        if s.contains(j) {
            let t = choose|t: int| 0 <= t < s.len() && s[t] == j;
            if t < a.len() {
                assert(a[t] == j);
                assert(a.contains(j));
                let m = choose|m: int|
                    0 <= m < init.len() && walk_down(nodes, init[m] as int, f1)->0.contains(j);
                assert(init[m] == kids[m]);
            } else {
                assert(b[t - a.len()] == j);
                assert(b.contains(j));
                assert(kids[kids.len() - 1] as int == c);
            }
        }
        if exists|m: int| 0 <= m < kids.len() && walk_down(nodes, kids[m] as int, f1)->0.contains(j) {
            let m = choose|m: int|
                0 <= m < kids.len() && walk_down(nodes, kids[m] as int, f1)->0.contains(j);
            if m < init.len() {
                assert(init[m] == kids[m]);
                assert(a.contains(j));
                let t = choose|t: int| 0 <= t < a.len() && a[t] == j;
                assert(s[t] == j);
            } else {
                assert(kids[m] as int == c);
                let t = choose|t: int| 0 <= t < b.len() && b[t] == j;
                assert(s[a.len() + t] == j);
            }
        }
    }
}

/// Wherever the post-order walk from node `i` succeeds (exactly where
/// `extract_children` returns `Ok`; in a well-formed tree always), it is the
/// walks from its children in their order, each the child's own full walk,
/// followed by `i`: its members are `i` and the members of its children's
/// subtrees.
pub proof fn lemma_subtree_union_of_children(nodes: Seq<Tree>, i: int)
    requires
        subtree(nodes, i) is Some,
    ensures
        0 <= i < nodes.len(),
        walk_down_forest(nodes, nodes[i].children@, nodes.len()) is Some,
        subtree(nodes, i)->0 == walk_down_forest(nodes, nodes[i].children@, nodes.len())->0.push(i),
        subtree(nodes, i)->0.last() == i,
        forall|m: int|
            0 <= m < nodes[i].children@.len() ==> (#[trigger] subtree(
                nodes,
                nodes[i].children@[m] as int,
            )) is Some && walk_down(nodes, nodes[i].children@[m] as int, (nodes.len() - 1) as nat)
                == subtree(nodes, nodes[i].children@[m] as int),
        forall|j: int| #[trigger]
            subtree(nodes, i)->0.contains(j) <==> (j == i || exists|m: int|
                0 <= m < nodes[i].children@.len() && subtree(
                    nodes,
                    nodes[i].children@[m] as int,
                )->0.contains(j)),
{
    let ch = nodes[i].children@;
    let n = nodes.len();
    let f = walk_down_forest(nodes, ch, n)->0;
    let s = f.push(i);
    if ch.len() > 0 {
        lemma_walk_forest_concat(nodes, ch, n);
        assert forall|m: int| 0 <= m < ch.len() implies (#[trigger] subtree(
            nodes,
            ch[m] as int,
        )) is Some && walk_down(nodes, ch[m] as int, (n - 1) as nat) == subtree(
            nodes,
            ch[m] as int,
        ) by {
            lemma_walk_down_more_fuel(nodes, ch[m] as int, (n - 1) as nat);
        }
    }
    assert forall|j: int| #[trigger] s.contains(j) <==> (j == i || exists|m: int|
        0 <= m < ch.len() && subtree(nodes, ch[m] as int)->0.contains(j)) by {
        if s.contains(j) && j != i {
            let t = choose|t: int| 0 <= t < s.len() && s[t] == j;
            assert(f[t] == j);
            assert(f.contains(j));
            let m = choose|m: int|
                0 <= m < ch.len() && walk_down(nodes, ch[m] as int, (n - 1) as nat)->0.contains(j);
            assert(subtree(nodes, ch[m] as int)->0.contains(j));
        }
        if j == i {
            assert(s[f.len() as int] == i);
        }
        if exists|m: int| 0 <= m < ch.len() && subtree(nodes, ch[m] as int)->0.contains(j) {
            let m = choose|m: int| 0 <= m < ch.len() && subtree(nodes, ch[m] as int)->0.contains(j);
            assert(walk_down(nodes, ch[m] as int, (n - 1) as nat)->0.contains(j));
            assert(f.contains(j));
            let t = choose|t: int| 0 <= t < f.len() && f[t] == j;
            assert(s[t] == j);
        }
    }
}


/// The parent links are in range and `rank` falls along each of them, staying
/// below the number of nodes: such a ranking exists exactly when the parent
/// links form no cycle.
pub open spec fn acyclic_parents(nodes: Seq<Tree>, rank: spec_fn(int) -> nat) -> bool {
    forall|j: int|
        0 <= j < nodes.len() ==> #[trigger] rank(j) < nodes.len() && match nodes[j].parent {
            Some(p) => p < nodes.len() && rank(p as int) < rank(j),
            None => true,
        }
}

proof fn lemma_walk_up_ranked(nodes: Seq<Tree>, rank: spec_fn(int) -> nat, i: int, fuel: nat)
    requires
        acyclic_parents(nodes, rank),
        0 <= i < nodes.len(),
        fuel >= rank(i),
    ensures
        walk_up(nodes, i, fuel) is Some,
    decreases rank(i),
{
    assert(rank(i) < nodes.len());
    match nodes[i].parent {
        None => {},
        Some(p) => {
            lemma_walk_up_ranked(nodes, rank, p as int, (fuel - 1) as nat);
        },
    }
}

/// Where the parent links are in range and form no cycle, the walk up from
/// any node succeeds: `extract_parents` returns `Ok` for every taxon of the map
/// whose index is in range.
pub proof fn lemma_acyclic_parents_walk(nodes: Seq<Tree>, rank: spec_fn(int) -> nat, i: int)
    requires
        acyclic_parents(nodes, rank),
        0 <= i < nodes.len(),
    ensures
        ancestry(nodes, i) is Some,
{
    assert(rank(i) < nodes.len());
    lemma_walk_up_ranked(nodes, rank, i, nodes.len());
}

/// The child links are in range and `rank` falls along each of them, staying
/// below the number of nodes: such a ranking exists exactly when the child
/// links form no cycle.
pub open spec fn acyclic_children(nodes: Seq<Tree>, rank: spec_fn(int) -> nat) -> bool {
    forall|j: int|
        0 <= j < nodes.len() ==> #[trigger] rank(j) < nodes.len() && forall|k: int|
            0 <= k < nodes[j].children@.len() ==> #[trigger] nodes[j].children@[k] < nodes.len()
                && rank(nodes[j].children@[k] as int) < rank(j)
}

proof fn lemma_walk_down_ranked(nodes: Seq<Tree>, rank: spec_fn(int) -> nat, i: int, fuel: nat)
    requires
        acyclic_children(nodes, rank),
        0 <= i < nodes.len(),
        fuel >= rank(i),
    ensures
        walk_down(nodes, i, fuel) is Some,
    decreases rank(i), 1int, 0int,
{
    assert(rank(i) < nodes.len());
    lemma_walk_forest_ranked(nodes, rank, i, nodes[i].children@.len() as int, fuel);
    assert(nodes[i].children@.take(nodes[i].children@.len() as int) == nodes[i].children@);
}

proof fn lemma_walk_forest_ranked(
    nodes: Seq<Tree>,
    rank: spec_fn(int) -> nat,
    p: int,
    k: int,
    fuel: nat,
)
    requires
        acyclic_children(nodes, rank),
        0 <= p < nodes.len(),
        0 <= k <= nodes[p].children@.len(),
        fuel >= rank(p),
    ensures
        walk_down_forest(nodes, nodes[p].children@.take(k), fuel) is Some,
    decreases rank(p), 0int, k,
{
    let ch = nodes[p].children@;
    assert(rank(p) < nodes.len());
    if k == 0 {
        assert(ch.take(0) == Seq::<usize>::empty());
    } else {
        lemma_walk_forest_ranked(nodes, rank, p, k - 1, fuel);
        let kids = ch.take(k);
        assert(kids.drop_last() == ch.take(k - 1));
        assert(kids.last() == ch[k - 1]);
        assert(ch[k - 1] < nodes.len() && rank(ch[k - 1] as int) < rank(p));
        lemma_walk_down_ranked(nodes, rank, ch[k - 1] as int, (fuel - 1) as nat);
    }
}

/// Where the child links are in range and form no cycle, the post-order walk
/// from any node succeeds: `extract_children` returns `Ok`.
pub proof fn lemma_acyclic_children_walk(nodes: Seq<Tree>, rank: spec_fn(int) -> nat, i: int)
    requires
        acyclic_children(nodes, rank),
        0 <= i < nodes.len(),
    ensures
        subtree(nodes, i) is Some,
{
    assert(rank(i) < nodes.len());
    lemma_walk_down_ranked(nodes, rank, i, nodes.len());
}


/// Each node is listed as a child at most once in the whole arena.
pub open spec fn unique_parents(nodes: Seq<Tree>) -> bool {
    forall|a: int, b: int, k: int, l: int|
        0 <= a < nodes.len() && 0 <= b < nodes.len() && 0 <= k < nodes[a].children@.len() && 0
            <= l < nodes[b].children@.len() && #[trigger] nodes[a].children@[k]
            == #[trigger] nodes[b].children@[l] ==> a == b && k == l
}

proof fn lemma_walk_down_range(nodes: Seq<Tree>, rank: spec_fn(int) -> nat, c: int, fuel: nat, x: int)
    requires
        acyclic_children(nodes, rank),
        walk_down(nodes, c, fuel) is Some,
        walk_down(nodes, c, fuel)->0.contains(x),
    ensures
        0 <= c < nodes.len(),
        0 <= x < nodes.len(),
        x == c || rank(x) < rank(c),
    decreases fuel,
{
    let ch = nodes[c].children@;
    let f = walk_down_forest(nodes, ch, fuel)->0;
    let s = f.push(c);
    if x != c {
        let t = choose|t: int| 0 <= t < s.len() && s[t] == x;
        assert(f[t] == x);
        assert(f.contains(x));
        lemma_walk_forest_concat(nodes, ch, fuel);
        let m = choose|m: int|
            0 <= m < ch.len() && walk_down(nodes, ch[m] as int, (fuel - 1) as nat)->0.contains(x);
        lemma_walk_down_range(nodes, rank, ch[m] as int, (fuel - 1) as nat, x);
        assert(rank(c) < nodes.len());
    }
}

/// A member `x` of the walk down from `c`, other than `c`, is listed as a
/// child by another member of higher rank.
proof fn lemma_walk_down_lister(
    nodes: Seq<Tree>,
    rank: spec_fn(int) -> nat,
    c: int,
    fuel: nat,
    x: int,
) -> (a: int)
    requires
        acyclic_children(nodes, rank),
        walk_down(nodes, c, fuel) is Some,
        walk_down(nodes, c, fuel)->0.contains(x),
        x != c,
    ensures
        walk_down(nodes, c, fuel)->0.contains(a),
        0 <= a < nodes.len(),
        rank(x) < rank(a),
        nodes[a].children@.contains(x as usize),
    decreases fuel,
{
    let ch = nodes[c].children@;
    let f = walk_down_forest(nodes, ch, fuel)->0;
    let s = f.push(c);
    let t = choose|t: int| 0 <= t < s.len() && s[t] == x;
    assert(f[t] == x);
    assert(f.contains(x));
    lemma_walk_forest_concat(nodes, ch, fuel);
    let m = choose|m: int|
        0 <= m < ch.len() && walk_down(nodes, ch[m] as int, (fuel - 1) as nat)->0.contains(x);
    let d = ch[m] as int;
    assert(0 <= c < nodes.len());
    assert(rank(c) < nodes.len());
    assert(ch[m] < nodes.len() && rank(ch[m] as int) < rank(c));
    if x == d {
        assert(s[f.len() as int] == c);
        c
    } else {
        let a = lemma_walk_down_lister(nodes, rank, d, (fuel - 1) as nat, x);
        assert(f.contains(a));
        let u = choose|u: int| 0 <= u < f.len() && f[u] == a;
        assert(s[u] == a);
        a
    }
}

proof fn lemma_sibling_walks_disjoint(
    nodes: Seq<Tree>,
    rank: spec_fn(int) -> nat,
    p: int,
    k1: int,
    k2: int,
    fuel: nat,
    x: int,
)
    requires
        acyclic_children(nodes, rank),
        unique_parents(nodes),
        0 <= p < nodes.len(),
        0 <= k1 < nodes[p].children@.len(),
        0 <= k2 < nodes[p].children@.len(),
        k1 != k2,
        walk_down(nodes, nodes[p].children@[k1] as int, fuel) is Some,
        walk_down(nodes, nodes[p].children@[k2] as int, fuel) is Some,
    ensures
        !(walk_down(nodes, nodes[p].children@[k1] as int, fuel)->0.contains(x) && walk_down(
            nodes,
            nodes[p].children@[k2] as int,
            fuel,
        )->0.contains(x)),
    decreases nodes.len() - rank(x),
{
    let ch = nodes[p].children@;
    let c1 = ch[k1] as int;
    let c2 = ch[k2] as int;
    let s1 = walk_down(nodes, c1, fuel)->0;
    let s2 = walk_down(nodes, c2, fuel)->0;
    assert(rank(p) < nodes.len());
    assert(ch[k1] < nodes.len() && rank(c1) < rank(p));
    assert(ch[k2] < nodes.len() && rank(c2) < rank(p));
    if s1.contains(x) && s2.contains(x) {
        lemma_walk_down_range(nodes, rank, c1, fuel, x);
        lemma_walk_down_range(nodes, rank, c2, fuel, x);
        assert(rank(x) < nodes.len());
        if x == c1 && x == c2 {
            assert(ch[k1] == ch[k2]);
        } else if x == c1 || x == c2 {
            let (c, k) = if x == c1 {
                (c2, k1)
            } else {
                (c1, k2)
            };
            let a = lemma_walk_down_lister(nodes, rank, c, fuel, x);
            let l = choose|l: int|
                0 <= l < nodes[a].children@.len() && nodes[a].children@[l] == x as usize;
            assert(nodes[a].children@[l] == nodes[p].children@[k]);
            lemma_walk_down_range(nodes, rank, c, fuel, a);
        } else {
            let a1 = lemma_walk_down_lister(nodes, rank, c1, fuel, x);
            let a2 = lemma_walk_down_lister(nodes, rank, c2, fuel, x);
            let l1 = choose|l: int|
                0 <= l < nodes[a1].children@.len() && nodes[a1].children@[l] == x as usize;
            let l2 = choose|l: int|
                0 <= l < nodes[a2].children@.len() && nodes[a2].children@[l] == x as usize;
            assert(nodes[a1].children@[l1] == nodes[a2].children@[l2]);
            assert(rank(a1) < nodes.len());
            lemma_sibling_walks_disjoint(nodes, rank, p, k1, k2, fuel, a1);
        }
    }
}

proof fn lemma_walk_forest_no_duplicates(
    nodes: Seq<Tree>,
    rank: spec_fn(int) -> nat,
    p: int,
    k: int,
    fuel: nat,
)
    requires
        acyclic_children(nodes, rank),
        unique_parents(nodes),
        0 <= p < nodes.len(),
        0 < k <= nodes[p].children@.len(),
        walk_down_forest(nodes, nodes[p].children@, fuel) is Some,
        forall|m: int|
            0 <= m < nodes[p].children@.len() ==> (#[trigger] walk_down(
                nodes,
                nodes[p].children@[m] as int,
                (fuel - 1) as nat,
            ))->0.no_duplicates(),
    ensures
        walk_down_forest(nodes, nodes[p].children@.take(k), fuel) is Some,
        walk_down_forest(nodes, nodes[p].children@.take(k), fuel)->0.no_duplicates(),
    decreases k,
{
    let ch = nodes[p].children@;
    lemma_walk_forest_concat(nodes, ch, fuel);
    let f1 = (fuel - 1) as nat;
    let kids = ch.take(k);
    assert(kids.drop_last() == ch.take(k - 1));
    assert(kids.last() == ch[k - 1]);
    let c = ch[k - 1] as int;
    let b = walk_down(nodes, c, f1)->0;
    if k == 1 {
        assert(ch.take(0) == Seq::<usize>::empty());
        assert(walk_down_forest(nodes, kids, fuel) == Some(Seq::<int>::empty() + b));
        assert(Seq::<int>::empty() + b == b);
    } else {
        lemma_walk_forest_no_duplicates(nodes, rank, p, k - 1, fuel);
        let pre = ch.take(k - 1);
        let a = walk_down_forest(nodes, pre, fuel)->0;
        let s = a + b;
        assert(walk_down_forest(nodes, kids, fuel) == Some(s));
        lemma_walk_forest_concat(nodes, pre, fuel);
        assert forall|x: int, y: int| 0 <= x < s.len() && 0 <= y < s.len() && x != y implies s[x]
            != s[y] by {
            if x < a.len() && y < a.len() {
            } else if x >= a.len() && y >= a.len() {
                assert(s[x] == b[x - a.len()] && s[y] == b[y - a.len()]);
            } else {
                let (u, v) = if x < a.len() {
                    (x, y)
                } else {
                    (y, x)
                };
                if s[u] == s[v] {
                    let j = s[u];
                    assert(a[u] == j);
                    assert(a.contains(j));
                    let m = choose|m: int|
                        0 <= m < pre.len() && walk_down(nodes, pre[m] as int, f1)->0.contains(j);
                    assert(pre[m] == ch[m]);
                    assert(b[v - a.len()] == j);
                    assert(b.contains(j));
                    lemma_sibling_walks_disjoint(nodes, rank, p, m, k - 1, f1, j);
                }
            }
        }
    }
}

proof fn lemma_walk_down_once_each(nodes: Seq<Tree>, rank: spec_fn(int) -> nat, i: int, fuel: nat)
    requires
        acyclic_children(nodes, rank),
        unique_parents(nodes),
        walk_down(nodes, i, fuel) is Some,
    ensures
        walk_down(nodes, i, fuel)->0.no_duplicates(),
    decreases fuel,
{
    let ch = nodes[i].children@;
    let f = walk_down_forest(nodes, ch, fuel)->0;
    let s = f.push(i);
    if ch.len() > 0 {
        lemma_walk_forest_concat(nodes, ch, fuel);
        assert forall|m: int| 0 <= m < ch.len() implies (#[trigger] walk_down(
            nodes,
            ch[m] as int,
            (fuel - 1) as nat,
        ))->0.no_duplicates() by {
            lemma_walk_down_once_each(nodes, rank, ch[m] as int, (fuel - 1) as nat);
        }
        lemma_walk_forest_no_duplicates(nodes, rank, i, ch.len() as int, fuel);
        assert(ch.take(ch.len() as int) == ch);
    }
    assert forall|x: int, y: int| 0 <= x < s.len() && 0 <= y < s.len() && x != y implies s[x]
        != s[y] by {
        if x < f.len() && y < f.len() {
            assert(s[x] == f[x] && s[y] == f[y]);
        } else if x < f.len() || y < f.len() {
            let u = if x < f.len() {
                x
            } else {
                y
            };
            let j = f[u];
            assert(f.contains(j));
            let m = choose|m: int|
                0 <= m < ch.len() && walk_down(nodes, ch[m] as int, (fuel - 1) as nat)->0.contains(
                    j,
                );
            assert(rank(i) < nodes.len());
            assert(ch[m] < nodes.len() && rank(ch[m] as int) < rank(i));
            lemma_walk_down_range(nodes, rank, ch[m] as int, (fuel - 1) as nat, j);
        }
    }
}

/// Where the child links are in range, form no cycle, and list each node at
/// most once, the post-order walk from any node succeeds and lists each member
/// of its subtree once, the node itself last. (Its members are described by
/// `lemma_subtree_union_of_children`.)
pub proof fn lemma_subtree_once_each(nodes: Seq<Tree>, rank: spec_fn(int) -> nat, i: int)
    requires
        acyclic_children(nodes, rank),
        unique_parents(nodes),
        0 <= i < nodes.len(),
    ensures
        subtree(nodes, i) is Some,
        subtree(nodes, i)->0.no_duplicates(),
        subtree(nodes, i)->0.last() == i,
{
    lemma_acyclic_children_walk(nodes, rank, i);
    lemma_walk_down_once_each(nodes, rank, i, nodes.len());
}

/// In the tree built from a report, the walk up from the node of taxon `0`
/// (unclassified) or `1` (the root) holds that node alone.
pub proof fn lemma_root_taxa_walk(
    lines: Seq<Seq<char>>,
    wanted: Seq<i32>,
    tree: ProcessedKrakenTree,
    t: i32,
)
    requires
        is_report_tree(lines, wanted, tree),
        t == 0 || t == 1,
        tree.taxon_map@.contains_key(t),
    ensures
        ancestry(tree.nodes@, tree.taxon_map@[t] as int) == Some(seq![tree.taxon_map@[t] as int]),
{
    let taxa = report_taxa(lines);
    let levels = report_levels(lines);
    let idx = tree.taxon_map@[t] as int;
    assert(taxa[idx] == t);
    assert(tree.nodes@[idx].taxon_id == taxa[idx]);
    lemma_report_parents_prefix(taxa, levels, lines.len(), idx);
    lemma_report_parents_len(taxa, levels, idx as nat);
}

/// Builds the tree of a report from its lines, in one pass, and looks up the
/// requested taxa `taxon_to_save` in it.
pub fn build_tree_from_kraken_report(taxon_to_save: &[i32], report_lines: &[String]) -> (r: Result<
    ProcessedKrakenTree,
    ReportError,
>)
    ensures
        match r {
            Ok(tree) => report_is_valid(texts(report_lines@)) && is_report_tree(
                texts(report_lines@),
                taxon_to_save@,
                tree,
            ),
            Err(e) => is_first_report_error(texts(report_lines@), e),
        },
{
    let ghost lines = texts(report_lines@);
    let ghost taxa = report_taxa(lines);
    let ghost levels = report_levels(lines);
    let mut nodes: Vec<Tree> = Vec::new();
    let mut taxon_map: HashMap<i32, usize> = HashMap::new();
    let mut i: usize = 0;
    proof {
        assert(taxa.take(0) == Seq::<i32>::empty());
        assert(taxon_map@ == Map::<i32, usize>::empty());
    }
    while i < report_lines.len()
        invariant
            i <= report_lines@.len(),
            lines == texts(report_lines@),
            taxa == report_taxa(lines),
            levels == report_levels(lines),
            nodes@.len() == i,
            forall|j: int| 0 <= j < i ==> (#[trigger] report_line_error(lines[j])) is None,
            forall|j: int|
                0 <= j < i ==> (#[trigger] nodes@[j]).taxon_id == taxa[j] && nodes@[j].level_num
                    == levels[j] && nodes@[j].parent == report_parents(taxa, levels, i as nat)[j],
            wf_tree(nodes@),
            is_lookup_map(taxa.take(i as int), taxon_to_save@, taxon_map@),
        decreases report_lines@.len() - i,
    {
        let rec = match process_kraken_report_line(report_lines[i].as_str()) {
            Ok(rec) => rec,
            Err(error) => {
                return Err(ReportError { line: i + 1, error });
            },
        };
        let ghost ps = report_parents(taxa, levels, i as nat);
        proof {
            lemma_report_parents_len(taxa, levels, i as nat);
            assert(lines[i as int] == report_lines@[i as int]@);
            assert(taxa[i as int] == rec.taxon_id);
            assert(levels[i as int] == rec.level);
        }
        let parent: Option<usize> = if rec.taxon_id == 0 || rec.taxon_id == 1 {
            None
        } else {
            let mut at: Option<usize> = if i == 0 {
                None
            } else {
                Some(i - 1)
            };
            loop
                invariant
                    nodes@.len() == i,
                    ps.len() == i,
                    i < levels.len(),
                    levels == report_levels(lines),
                    forall|j: int|
                        0 <= j < i ==> (#[trigger] nodes@[j]).level_num == levels[j]
                            && nodes@[j].parent == ps[j],
                    wf_tree(nodes@),
                    match at {
                        Some(j) => j < i,
                        None => true,
                    },
                    climb(levels, ps, opt_index(at), rec.level as nat) == climb(
                        levels,
                        ps,
                        i - 1,
                        rec.level as nat,
                    ),
                ensures
                    at == climb(levels, ps, i - 1, rec.level as nat),
                    match at {
                        Some(j) => j < i && levels[j as int] + 1 == rec.level,
                        None => true,
                    },
                decreases opt_index(at) + 1,
            {
                match at {
                    None => {
                        break ;
                    },
                    Some(j) => {
                        if rec.level >= 1 && nodes[j].level_num == rec.level - 1 {
                            break ;
                        }
                        proof {
                            assert(parent_ok(nodes@, j as int));
                        }
                        at = nodes[j].parent;
                    },
                }
            }
            at
        };
        let ghost old_nodes = nodes@;
        let ghost old_map = taxon_map@;
        let curr = i;
        nodes.push(Tree::new(rec.taxon_id, rec.level, parent));
        match parent {
            Some(p) => {
                proof {
                    assert(parent_ok(old_nodes, p as int));
                }
                nodes[p].children.push(curr);
            },
            None => {},
        }
        proof {
            lemma_attach(old_nodes, nodes@, parent);
            assert(report_parents(taxa, levels, (i + 1) as nat) == ps.push(parent));
        }
        if contains_taxon(taxon_to_save, rec.taxon_id) {
            taxon_map.insert(rec.taxon_id, curr);
        }
        proof {
            lemma_lookup_step(taxa, taxon_to_save@, old_map, i as int);
        }
        i = i + 1;
    }
    proof {
        assert(taxa.take(i as int) == taxa);
    }
    let mut missing_taxon_ids: Vec<i32> = Vec::new();
    let mut k: usize = 0;
    while k < taxon_to_save.len()
        invariant
            k <= taxon_to_save@.len(),
            is_lookup_map(taxa, taxon_to_save@, taxon_map@),
            missing_taxon_ids@ == taxon_to_save@.take(k as int).filter(absent_from(taxa)),
        decreases taxon_to_save@.len() - k,
    {
        let t = taxon_to_save[k];
        proof {
            assert(taxon_to_save@.take(k + 1) == taxon_to_save@.take(k as int).push(t));
            taxon_to_save@.take(k as int).lemma_filter_push(t, absent_from(taxa));
            assert(taxon_to_save@.contains(t));
        }
        if !taxon_map.contains_key(&t) {
            missing_taxon_ids.push(t);
        }
        k = k + 1;
    }
    proof {
        assert(taxon_to_save@.take(k as int) == taxon_to_save@);
    }
    Ok(ProcessedKrakenTree { nodes, taxon_map, missing_taxon_ids })
}

/// Returns the taxon ID followed by those of its ancestors, the root last.
pub fn extract_parents(taxon_map: &HashMap<i32, usize>, nodes: &[Tree], taxon_id: i32) -> (r:
    Result<Vec<i32>, TaxonomyError>)
    ensures
        !taxon_map@.contains_key(taxon_id) ==> r == Err::<Vec<i32>, _>(
            TaxonomyError::TaxonNotFound(taxon_id),
        ),
        taxon_map@.contains_key(taxon_id) ==> match ancestry(nodes@, taxon_map@[taxon_id] as int) {
            Some(chain) => r is Ok && r->Ok_0@ == seq![taxon_id] + taxa_at(
                nodes@,
                chain.drop_first(),
            ),
            None => r == Err::<Vec<i32>, _>(TaxonomyError::CorruptTree),
        },
{
    let start = match taxon_map.get(&taxon_id) {
        Some(i) => *i,
        None => {
            return Err(TaxonomyError::TaxonNotFound(taxon_id));
        },
    };
    if start >= nodes.len() {
        return Err(TaxonomyError::CorruptTree);
    }
    let mut parents: Vec<i32> = Vec::new();
    parents.push(taxon_id);
    let mut curr: usize = start;
    let mut fuel: usize = nodes.len();
    let ghost mut path: Seq<int> = Seq::empty();
    proof {
        assert((path + seq![curr as int]).drop_first() == Seq::<int>::empty());
        assert(parents@ == seq![taxon_id] + taxa_at(nodes@, Seq::<int>::empty()));
    }
    loop
        invariant
            curr < nodes@.len(),
            start == taxon_map@[taxon_id],
            taxon_map@.contains_key(taxon_id),
            (path + seq![curr as int])[0] == start,
            match walk_up(nodes@, curr as int, fuel as nat) {
                Some(s) => ancestry(nodes@, start as int) == Some(path + s),
                None => ancestry(nodes@, start as int) is None,
            },
            parents@ == seq![taxon_id] + taxa_at(nodes@, (path + seq![curr as int]).drop_first()),
        decreases fuel,
    {
        match nodes[curr].parent {
            None => {
                return Ok(parents);
            },
            Some(p) => {
                if fuel == 0 || p >= nodes.len() {
                    return Err(TaxonomyError::CorruptTree);
                }
                proof {
                    let old_walk = path + seq![curr as int];
                    let new_walk = old_walk + seq![p as int];
                    assert(new_walk.drop_first() == old_walk.drop_first().push(p as int));
                    assert(taxa_at(nodes@, new_walk.drop_first()) == taxa_at(
                        nodes@,
                        old_walk.drop_first(),
                    ).push(nodes@[p as int].taxon_id));
                    match walk_up(nodes@, p as int, (fuel - 1) as nat) {
                        Some(s) => {
                            assert(path + (seq![curr as int] + s) == old_walk + s);
                        },
                        None => {},
                    }
                    assert(new_walk[0] == old_walk[0]);
                    path = old_walk;
                }
                parents.push(nodes[p].taxon_id);
                curr = p;
                fuel = fuel - 1;
            },
        }
    }
}

proof fn lemma_walk_forest_none_extends(nodes: Seq<Tree>, kids: Seq<usize>, fuel: nat, k: int)
    requires
        0 <= k <= kids.len(),
        walk_down_forest(nodes, kids.take(k), fuel) is None,
    ensures
        walk_down_forest(nodes, kids, fuel) is None,
    decreases kids.len() - k,
{
    if k < kids.len() {
        assert(kids.drop_last().take(k) == kids.take(k));
        lemma_walk_forest_none_extends(nodes, kids.drop_last(), fuel, k);
    } else {
        assert(kids.take(k) == kids);
    }
}

/// Appends to `result` the taxon IDs of the walk down from node `start_index`,
/// going at most `fuel` links down.
fn collect_subtree(nodes: &[Tree], start_index: usize, fuel: usize, result: &mut Vec<i32>) -> (r:
    Result<(), TaxonomyError>)
    ensures
        old(result)@.len() <= final(result)@.len(),
        final(result)@.take(old(result)@.len() as int) == old(result)@,
        match walk_down(nodes@, start_index as int, fuel as nat) {
            Some(s) => r is Ok && final(result)@ == old(result)@ + taxa_at(nodes@, s),
            None => r == Err::<(), _>(TaxonomyError::CorruptTree),
        },
    decreases fuel,
{
    if start_index >= nodes.len() {
        return Err(TaxonomyError::CorruptTree);
    }
    let n = nodes[start_index].children.len();
    let ghost kids = nodes@[start_index as int].children@;
    let mut k: usize = 0;
    proof {
        assert(kids.take(0) == Seq::<usize>::empty());
        assert(result@ == old(result)@ + taxa_at(nodes@, Seq::<int>::empty()));
    }
    while k < n
        invariant
            start_index < nodes@.len(),
            kids == nodes@[start_index as int].children@,
            n == kids.len(),
            k <= n,
            walk_down_forest(nodes@, kids.take(k as int), fuel as nat) is Some,
            result@ == old(result)@ + taxa_at(
                nodes@,
                walk_down_forest(nodes@, kids.take(k as int), fuel as nat)->0,
            ),
        decreases n - k,
    {
        let c = nodes[start_index].children[k];
        proof {
            assert(kids.take(k + 1).drop_last() == kids.take(k as int));
            assert(kids.take(k + 1).last() == c);
        }
        if fuel == 0 {
            proof {
                lemma_walk_forest_none_extends(nodes@, kids, fuel as nat, k + 1);
            }
            return Err(TaxonomyError::CorruptTree);
        }
        match collect_subtree(nodes, c, fuel - 1, result) {
            Ok(()) => {},
            Err(e) => {
                proof {
                    lemma_walk_forest_none_extends(nodes@, kids, fuel as nat, k + 1);
                }
                return Err(e);
            },
        }
        proof {
            let a = walk_down_forest(nodes@, kids.take(k as int), fuel as nat)->0;
            let b = walk_down(nodes@, c as int, (fuel - 1) as nat)->0;
            assert(taxa_at(nodes@, a + b) == taxa_at(nodes@, a) + taxa_at(nodes@, b));
        }
        k = k + 1;
    }
    proof {
        assert(kids.take(n as int) == kids);
        let a = walk_down_forest(nodes@, kids, fuel as nat)->0;
        assert(taxa_at(nodes@, a.push(start_index as int)) == taxa_at(nodes@, a).push(
            nodes@[start_index as int].taxon_id,
        ));
    }
    result.push(nodes[start_index].taxon_id);
    Ok(())
}

/// Appends to `result` the taxon IDs of the subtree under node `start_index`
/// in post-order: each child's subtree in the children's order, the node last.
/// `result` keeps what it held before as a prefix, whatever the outcome.
pub fn extract_children(nodes: &[Tree], start_index: usize, result: &mut Vec<i32>) -> (r: Result<
    (),
    TaxonomyError,
>)
    ensures
        old(result)@.len() <= final(result)@.len(),
        final(result)@.take(old(result)@.len() as int) == old(result)@,
        match subtree(nodes@, start_index as int) {
            Some(s) => r is Ok && final(result)@ == old(result)@ + taxa_at(nodes@, s),
            None => r == Err::<(), _>(TaxonomyError::CorruptTree),
        },
{
    collect_subtree(nodes, start_index, nodes.len(), result)
}

} // verus!
