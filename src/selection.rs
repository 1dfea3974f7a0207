//! Which taxa to extract: the requested ones, optionally widened to their
//! ancestors or to their whole subtrees through the report's tree.
use crate::taxonomy::{
    ancestry, build_tree_from_kraken_report, extract_children, extract_parents,
    lemma_parents_reversed_is_root_path, lemma_subtree_members, report_is_valid, report_taxa,
    subtree, taxa_at, texts, wf_tree, is_first_report_error, is_report_tree, ProcessedKrakenTree,
    ReportError, TaxonomyError,
};
use vstd::prelude::*;

verus! {

/// Why no taxa could be selected.
#[derive(Debug, Clone, Copy, PartialEq, Eq, Structural)]
pub enum SelectionError {
    /// Ancestors or descendants were asked for without a report.
    ReportRequired,
    /// The report holds a line that cannot be read.
    Report(ReportError),
    /// A requested taxon is not in the report.
    TaxonNotFound(i32),
    /// A walk over the tree met a link out of range or a cycle.
    CorruptTree,
    /// The selection came out empty.
    NoTaxa,
}

pub open spec fn strictly_increasing(s: Seq<i32>) -> bool {
    forall|a: int, b: int| 0 <= a < b < s.len() ==> s[a] < s[b]
}

/// The taxa of the subtree under the node of `t`, in post-order.
pub open spec fn descendants_taxa(tree: ProcessedKrakenTree, t: i32) -> Seq<i32> {
    taxa_at(tree.nodes@, subtree(tree.nodes@, tree.taxon_map@[t] as int)->0)
}

/// `t` followed by the taxa of the ancestors of its node, the root last.
pub open spec fn lineage_taxa(tree: ProcessedKrakenTree, t: i32) -> Seq<i32> {
    seq![t] + taxa_at(tree.nodes@, ancestry(tree.nodes@, tree.taxon_map@[t] as int)->0.drop_first())
}

/// The first `k` requested taxa, each widened to its subtree (`children`) or
/// to its lineage (`parents`), one after the other.
pub open spec fn expansion(
    tree: ProcessedKrakenTree,
    taxids: Seq<i32>,
    children: bool,
    parents: bool,
    k: nat,
) -> Seq<i32>
    decreases k,
{
    if k == 0 || k > taxids.len() {
        Seq::empty()
    } else {
        let t = taxids[k - 1];
        expansion(tree, taxids, children, parents, (k - 1) as nat) + if children {
            descendants_taxa(tree, t)
        } else if parents {
            lineage_taxa(tree, t)
        } else {
            seq![t]
        }
    }
}

/// `t` is the first of `taxids` that `taxa` lacks.
pub open spec fn is_first_missing(taxids: Seq<i32>, taxa: Seq<i32>, t: i32) -> bool {
    exists|k: int|
        0 <= k < taxids.len() && taxids[k] == t && !taxa.contains(t) && forall|j: int|
            0 <= j < k ==> taxa.contains(#[trigger] taxids[j])
}

/// Relies on `slice::sort_unstable`: the same values, in increasing order.
#[verifier::external_body]
fn sort_taxa(v: &mut Vec<i32>)
    ensures
        final(v)@.to_multiset() == old(v)@.to_multiset(),
        forall|a: int, b: int| 0 <= a < b < final(v)@.len() ==> final(v)@[a] <= final(v)@[b],
{
    v.sort_unstable();
}

/// The values of `v` in increasing order, each once.
pub fn sort_and_dedup(v: Vec<i32>) -> (r: Vec<i32>)
    ensures
        strictly_increasing(r@),
        r@.to_set() == v@.to_set(),
{
    let mut v = v;
    let ghost original = v@;
    sort_taxa(&mut v);
    proof {
        assert forall|x: i32| v@.contains(x) <==> original.contains(x) by {
            vstd::seq_lib::to_multiset_contains(v@, x);
            vstd::seq_lib::to_multiset_contains(original, x);
        }
    }
    let mut out: Vec<i32> = Vec::new();
    let mut k: usize = 0;
    while k < v.len()
        invariant
            k <= v@.len(),
            forall|a: int, b: int| 0 <= a < b < v@.len() ==> v@[a] <= v@[b],
            strictly_increasing(out@),
            out@.len() > 0 ==> out@.last() == v@[k - 1],
            k == 0 ==> out@.len() == 0,
            forall|x: i32| out@.contains(x) <==> v@.take(k as int).contains(x),
        decreases v@.len() - k,
    {
        let x = v[k];
        let ghost before = v@.take(k as int);
        let ghost w = v@.take(k + 1);
        proof {
            assert(w == before.push(x));
        }
        if out.len() == 0 || out[out.len() - 1] != x {
            proof {
                if out@.len() > 0 {
                    assert(v@[k - 1] <= x);
                }
            }
            let ghost old_out = out@;
            out.push(x);
            proof {
                assert forall|y: i32| out@.contains(y) <==> w.contains(y) by {
                    if w.contains(y) {
                        let j = choose|j: int| 0 <= j < w.len() && w[j] == y;
                        if j < k {
                            assert(before[j] == y);
                            assert(old_out.contains(y));
                            let q = choose|q: int| 0 <= q < old_out.len() && old_out[q] == y;
                            assert(out@[q] == y);
                        } else {
                            assert(out@[out@.len() - 1] == y);
                        }
                    }
                    if out@.contains(y) {
                        let j = choose|j: int| 0 <= j < out@.len() && out@[j] == y;
                        if j < out@.len() - 1 {
                            assert(old_out[j] == y);
                            assert(old_out.contains(y));
                            assert(before.contains(y));
                            let q = choose|q: int| 0 <= q < k && before[q] == y;
                            assert(w[q] == y);
                        } else {
                            assert(w[k as int] == y);
                        }
                    }
                }
            }
        } else {
            proof {
                assert forall|y: i32| out@.contains(y) <==> w.contains(y) by {
                    if w.contains(y) {
                        let j = choose|j: int| 0 <= j < w.len() && w[j] == y;
                        if j < k {
                            assert(before[j] == y);
                        } else {
                            assert(out@[out@.len() - 1] == y);
                        }
                    }
                    if out@.contains(y) {
                        let q = choose|q: int| 0 <= q < k && before[q] == y;
                        assert(w[q] == y);
                    }
                }
            }
        }
        k = k + 1;
    }
    proof {
        assert(v@.take(k as int) == v@);
        assert(out@.to_set() =~= original.to_set());
    }
    out
}

/// Widens each requested taxon through the tree, in order.
fn expand_taxa(tree: &ProcessedKrakenTree, taxids: &Vec<i32>, children: bool, parents: bool) -> (r:
    Result<Vec<i32>, SelectionError>)
    requires
        wf_tree(tree.nodes@),
        tree.nodes@.len() <= usize::MAX,
        forall|t: i32| #[trigger]
            tree.taxon_map@.contains_key(t) ==> tree.taxon_map@[t] < tree.nodes@.len(),
    ensures
        match r {
            Ok(v) => v@ == expansion(*tree, taxids@, children, parents, taxids@.len()) && (children
                || parents ==> forall|k: int|
                0 <= k < taxids@.len() ==> tree.taxon_map@.contains_key(#[trigger] taxids@[k])),
            Err(e) => (children || parents) && exists|k: int|
                0 <= k < taxids@.len() && e == SelectionError::TaxonNotFound(taxids@[k])
                    && !tree.taxon_map@.contains_key(taxids@[k]) && forall|j: int|
                    0 <= j < k ==> tree.taxon_map@.contains_key(#[trigger] taxids@[j]),
        },
{
    let mut acc: Vec<i32> = Vec::new();
    let mut k: usize = 0;
    while k < taxids.len()
        invariant
            k <= taxids@.len(),
            wf_tree(tree.nodes@),
            tree.nodes@.len() <= usize::MAX,
            forall|t: i32| #[trigger]
                tree.taxon_map@.contains_key(t) ==> tree.taxon_map@[t] < tree.nodes@.len(),
            acc@ == expansion(*tree, taxids@, children, parents, k as nat),
            children || parents ==> forall|j: int|
                0 <= j < k ==> tree.taxon_map@.contains_key(#[trigger] taxids@[j]),
        decreases taxids@.len() - k,
    {
        let t = taxids[k];
        if children {
            let idx = match tree.taxon_map.get(&t) {
                Some(i) => *i,
                None => {
                    return Err(SelectionError::TaxonNotFound(t));
                },
            };
            proof {
                lemma_subtree_members(tree.nodes@, idx as int);
            }
            match extract_children(tree.nodes.as_slice(), idx, &mut acc) {
                Ok(()) => {},
                Err(_) => {
                    return Err(SelectionError::CorruptTree);
                },
            }
        } else if parents {
            let mut chain = match extract_parents(&tree.taxon_map, tree.nodes.as_slice(), t) {
                Ok(c) => c,
                Err(TaxonomyError::TaxonNotFound(_)) => {
                    return Err(SelectionError::TaxonNotFound(t));
                },
                Err(TaxonomyError::CorruptTree) => {
                    proof {
                        lemma_parents_reversed_is_root_path(
                            tree.nodes@,
                            tree.taxon_map@[t] as int,
                        );
                    }
                    return Err(SelectionError::CorruptTree);
                },
            };
            acc.append(&mut chain);
        } else {
            acc.push(t);
        }
        proof {
            let next = expansion(*tree, taxids@, children, parents, (k + 1) as nat);
            assert(taxids@[k as int] == t);
            assert(next == expansion(*tree, taxids@, children, parents, k as nat) + if children {
                descendants_taxa(*tree, t)
            } else if parents {
                lineage_taxa(*tree, t)
            } else {
                seq![t]
            });
        }
        k = k + 1;
    }
    Ok(acc)
}

/// Determines the taxa whose reads are extracted. Without a report the
/// requested taxa are taken as they are; with one, its tree is built and each
/// requested taxon is widened to its descendants (`children`) or to its
/// ancestors (`parents`). The result is sorted and holds each taxon once.
pub fn collect_taxons_to_save(
    report: &Option<Vec<String>>,
    children: bool,
    parents: bool,
    taxids: Vec<i32>,
) -> (r: Result<Vec<i32>, SelectionError>)
    ensures
        match r {
            Ok(v) => {
                &&& strictly_increasing(v@)
                &&& v@.len() > 0
                &&& !((parents || children) && report is None)
                &&& match report {
                    None => v@.to_set() == taxids@.to_set(),
                    Some(lines) => {
                        &&& report_is_valid(texts(lines@))
                        &&& (children || parents) ==> forall|k: int|
                            0 <= k < taxids@.len() ==> report_taxa(texts(lines@)).contains(
                                #[trigger] taxids@[k],
                            )
                        &&& exists|tree: ProcessedKrakenTree|
                            is_report_tree(texts(lines@), taxids@, tree) && v@.to_set()
                                == expansion(tree, taxids@, children, parents, taxids@.len()).to_set()
                    },
                }
            },
            Err(SelectionError::ReportRequired) => (parents || children) && report is None,
            Err(SelectionError::Report(e)) => report is Some && is_first_report_error(
                texts(report->0@),
                e,
            ),
            Err(SelectionError::TaxonNotFound(t)) => (children || parents) && report is Some
                && report_is_valid(texts(report->0@)) && is_first_missing(
                taxids@,
                report_taxa(texts(report->0@)),
                t,
            ),
            Err(SelectionError::NoTaxa) => !((parents || children) && report is None) && match report {
                None => taxids@.len() == 0,
                Some(lines) => report_is_valid(texts(lines@)) && exists|tree: ProcessedKrakenTree|
                    is_report_tree(texts(lines@), taxids@, tree) && expansion(
                        tree,
                        taxids@,
                        children,
                        parents,
                        taxids@.len(),
                    ).len() == 0,
            },
            Err(SelectionError::CorruptTree) => false,
        },
{
    if (parents || children) && report.is_none() {
        return Err(SelectionError::ReportRequired);
    }
    let selected: Vec<i32> = match report {
        Some(lines) => {
            let tree = match build_tree_from_kraken_report(taxids.as_slice(), lines.as_slice()) {
                Ok(tree) => tree,
                Err(e) => {
                    return Err(SelectionError::Report(e));
                },
            };
            let ghost taxa = report_taxa(texts(lines@));
            proof {
                assert(tree.nodes@.len() == tree.nodes.len());
            }
            match expand_taxa(&tree, &taxids, children, parents) {
                Ok(v) => {
                    proof {
                        if children || parents {
                            assert forall|k: int| 0 <= k < taxids@.len() implies taxa.contains(
                                #[trigger] taxids@[k],
                            ) by {
                                assert(tree.taxon_map@.contains_key(taxids@[k]));
                            }
                        }
                    }
                    v
                },
                Err(e) => {
                    proof {
                        let k = choose|k: int|
                            0 <= k < taxids@.len() && e == SelectionError::TaxonNotFound(taxids@[k])
                                && !tree.taxon_map@.contains_key(taxids@[k]) && forall|j: int|
                                0 <= j < k ==> tree.taxon_map@.contains_key(#[trigger] taxids@[j]);
                        assert(taxids@.contains(taxids@[k]));
                        assert forall|j: int| 0 <= j < k implies taxa.contains(
                            #[trigger] taxids@[j],
                        ) by {
                            assert(tree.taxon_map@.contains_key(taxids@[j]));
                        }
                    }
                    return Err(e);
                },
            }
        },
        None => taxids.clone(),
    };
    let ghost chosen = selected@;
    let out = sort_and_dedup(selected);
    if out.len() == 0 {
        proof {
            if chosen.len() > 0 {
                assert(chosen.to_set().contains(chosen[0]));
            }
        }
        return Err(SelectionError::NoTaxa);
    }
    Ok(out)
}

} // verus!
