//! The membership set: which reads to keep, built in one pass over the
//! classifier's per-read output, with the number of kept reads per taxon.
use crate::kraken::{
    output_line_error, output_read_id, output_taxon, process_kraken_output_line, OutputLineError,
};
use crate::taxonomy::texts;
use fxhash::{FxHashMap, FxHashSet, FxHasher};
use std::collections::HashSet;
use std::hash::BuildHasherDefault;
use vstd::prelude::*;
use vstd::set::fold::{is_fun_commutative, lemma_fold_empty, lemma_fold_insert};

verus! {

broadcast use vstd::std_specs::hash::group_hash_axioms;

#[verifier::external_type_specification]
#[verifier::external_body]
pub struct ExFxHasher(FxHasher);

#[verifier::external_type_specification]
#[verifier::external_body]
#[verifier::reject_recursive_types(H)]
pub struct ExBuildHasherDefault<H>(BuildHasherDefault<H>);

/// The read IDs that a set holds, as byte sequences.
pub uninterp spec fn read_ids(s: FxHashSet<Vec<u8>>) -> Set<Seq<u8>>;

/// Relies on `HashSet::default` (here with fxhash's hasher): a new set is empty.
#[verifier::external_body]
fn new_read_set() -> (r: FxHashSet<Vec<u8>>)
    ensures
        read_ids(r) == Set::<Seq<u8>>::empty(),
{
    FxHashSet::default()
}

/// Relies on `HashSet::insert`: afterwards the set holds what it held and `id`.
#[verifier::external_body]
fn insert_read(s: &mut FxHashSet<Vec<u8>>, id: Vec<u8>)
    ensures
        read_ids(*final(s)) == read_ids(*old(s)).insert(id@),
{
    s.insert(id);
}

/// Relies on `HashSet::contains`: whether the set holds `id`.
#[verifier::external_body]
pub(crate) fn contains_read(s: &FxHashSet<Vec<u8>>, id: &[u8]) -> (r: bool)
    ensures
        r == read_ids(*s).contains(id@),
{
    s.contains(id)
}

/// Relies on `HashSet::clone`: the copy holds the same read IDs.
#[verifier::external_body]
fn clone_read_set(s: &FxHashSet<Vec<u8>>) -> (r: FxHashSet<Vec<u8>>)
    ensures
        read_ids(r) == read_ids(*s),
{
    s.clone()
}

/// Relies on `HashMap::get` (here with fxhash's hasher): the value stored for `t`.
#[verifier::external_body]
fn count_of(m: &FxHashMap<i32, usize>, t: i32) -> (r: Option<usize>)
    ensures
        r == (if m@.contains_key(t) {
            Some(m@[t])
        } else {
            None
        }),
{
    m.get(&t).copied()
}

/// Relies on `HashMap::insert`: afterwards `t` maps to `c`, other keys as before.
#[verifier::external_body]
fn set_count(m: &mut FxHashMap<i32, usize>, t: i32, c: usize)
    ensures
        final(m)@ == old(m)@.insert(t, c),
{
    m.insert(t, c);
}

/// The reads to keep and, per taxon, how many kept reads it has.
#[derive(Debug)]
pub struct ProcessedKrakenOutput {
    pub reads_to_save: FxHashSet<Vec<u8>>,
    pub reads_per_taxon: FxHashMap<i32, usize>,
}

/// A per-read output line that could not be read: its number, counted from 1,
/// and why.
#[derive(Debug, Clone, Copy, PartialEq, Eq, Structural)]
pub struct KrakenOutputError {
    pub line: usize,
    pub error: OutputLineError,
}

/// Whether a read classified under taxon `t` is kept: in include mode when `t`
/// is one of `taxa`, in exclude mode when it is not.
pub open spec fn keeps(taxa: Set<i32>, exclude: bool, t: i32) -> bool {
    if exclude {
        !taxa.contains(t)
    } else {
        taxa.contains(t)
    }
}

/// The read IDs of the (valid) output lines that are kept.
pub open spec fn kept_reads(lines: Seq<Seq<char>>, taxa: Set<i32>, exclude: bool) -> Set<Seq<u8>>
    decreases lines.len(),
{
    if lines.len() == 0 {
        Set::empty()
    } else {
        let before = kept_reads(lines.drop_last(), taxa, exclude);
        if keeps(taxa, exclude, output_taxon(lines.last())) {
            before.insert(output_read_id(lines.last()))
        } else {
            before
        }
    }
}

/// The read IDs of all the (valid) output lines.
pub open spec fn all_reads(lines: Seq<Seq<char>>) -> Set<Seq<u8>>
    decreases lines.len(),
{
    if lines.len() == 0 {
        Set::empty()
    } else {
        all_reads(lines.drop_last()).insert(output_read_id(lines.last()))
    }
}

/// How many of the (valid) output lines are kept and classified under `t`.
pub open spec fn kept_count(lines: Seq<Seq<char>>, taxa: Set<i32>, exclude: bool, t: i32) -> nat
    decreases lines.len(),
{
    if lines.len() == 0 {
        0
    } else {
        kept_count(lines.drop_last(), taxa, exclude, t) + if output_taxon(lines.last()) == t
            && keeps(taxa, exclude, t) {
            1nat
        } else {
            0nat
        }
    }
}

/// `m` maps each taxon with kept reads, and only those, to their number.
pub open spec fn is_count_map(
    m: Map<i32, usize>,
    lines: Seq<Seq<char>>,
    taxa: Set<i32>,
    exclude: bool,
) -> bool {
    forall|t: i32|
        (#[trigger] m.contains_key(t) <==> kept_count(lines, taxa, exclude, t) > 0) && (
        m.contains_key(t) ==> m[t] == kept_count(lines, taxa, exclude, t))
}

/// `out` is what the (valid) output `lines` give for these taxa and mode.
pub open spec fn is_membership(
    out: ProcessedKrakenOutput,
    lines: Seq<Seq<char>>,
    taxa: Set<i32>,
    exclude: bool,
) -> bool {
    &&& read_ids(out.reads_to_save) == kept_reads(lines, taxa, exclude)
    &&& is_count_map(out.reads_per_taxon@, lines, taxa, exclude)
}

/// Every line of the output can be read.
pub open spec fn output_is_valid(lines: Seq<Seq<char>>) -> bool {
    forall|i: int| 0 <= i < lines.len() ==> (#[trigger] output_line_error(lines[i])) is None
}

/// `e` names the first line of the output that cannot be read.
pub open spec fn is_first_output_error(lines: Seq<Seq<char>>, e: KrakenOutputError) -> bool {
    &&& 1 <= e.line <= lines.len()
    &&& output_line_error(lines[e.line - 1]) == Some(e.error)
    &&& forall|j: int| 0 <= j < e.line - 1 ==> (#[trigger] output_line_error(lines[j])) is None
}

/// `m` with the number stored for `t` raised by one (absent counts as zero).
pub open spec fn bumped(m: Map<i32, usize>, t: i32) -> Map<i32, usize> {
    m.insert(
        t,
        (if m.contains_key(t) {
            m[t] + 1
        } else {
            1
        }) as usize,
    )
}

impl Clone for ProcessedKrakenOutput {
    fn clone(&self) -> (r: Self)
        ensures
            read_ids(r.reads_to_save) == read_ids(self.reads_to_save),
            r.reads_per_taxon@ == self.reads_per_taxon@,
    {
        ProcessedKrakenOutput {
            reads_to_save: clone_read_set(&self.reads_to_save),
            reads_per_taxon: self.reads_per_taxon.clone(),
        }
    }
}

impl ProcessedKrakenOutput {
    /// No reads kept yet.
    pub fn new() -> (r: ProcessedKrakenOutput)
        ensures
            read_ids(r.reads_to_save) == Set::<Seq<u8>>::empty(),
            r.reads_per_taxon@ == Map::<i32, usize>::empty(),
    {
        ProcessedKrakenOutput { reads_to_save: new_read_set(), reads_per_taxon: FxHashMap::default() }
    }

    /// Reads one output line and, if its read is kept, records it.
    pub fn add_line(&mut self, line: &str, exclude: bool, taxa: &HashSet<i32>) -> (r: Result<
        (),
        OutputLineError,
    >)
        requires
            forall|t: i32| #[trigger]
                old(self).reads_per_taxon@.contains_key(t) ==> old(self).reads_per_taxon@[t]
                    < usize::MAX,
        ensures
            match r {
                Ok(()) => {
                    let t = output_taxon(line@);
                    &&& output_line_error(line@) is None
                    &&& keeps(taxa@, exclude, t) ==> read_ids(final(self).reads_to_save)
                        == read_ids(old(self).reads_to_save).insert(output_read_id(line@))
                        && final(self).reads_per_taxon@ == bumped(old(self).reads_per_taxon@, t)
                    &&& !keeps(taxa@, exclude, t) ==> *final(self) == *old(self)
                },
                Err(e) => output_line_error(line@) == Some(e) && *final(self) == *old(self),
            },
    {
        let record = process_kraken_output_line(line)?;
        let listed = taxa.contains(&record.taxon_id);
        if listed != exclude {
            let count = match count_of(&self.reads_per_taxon, record.taxon_id) {
                Some(c) => c + 1,
                None => 1,
            };
            set_count(&mut self.reads_per_taxon, record.taxon_id, count);
            insert_read(&mut self.reads_to_save, record.read_id);
        }
        Ok(())
    }
}

proof fn lemma_kept_count_bound(lines: Seq<Seq<char>>, taxa: Set<i32>, exclude: bool, t: i32)
    ensures
        kept_count(lines, taxa, exclude, t) <= lines.len(),
    decreases lines.len(),
{
    if lines.len() > 0 {
        lemma_kept_count_bound(lines.drop_last(), taxa, exclude, t);
    }
}

/// Builds the membership set from the classifier's per-read output: a read is
/// kept when its taxon is among `taxon_ids_to_save`, or, with `exclude`, when
/// it is not.
pub fn process_kraken_output(kraken_lines: &[String], exclude: bool, taxon_ids_to_save: &[i32]) -> (r:
    Result<ProcessedKrakenOutput, KrakenOutputError>)
    ensures
        match r {
            Ok(out) => output_is_valid(texts(kraken_lines@)) && is_membership(
                out,
                texts(kraken_lines@),
                taxon_ids_to_save@.to_set(),
                exclude,
            ),
            Err(e) => is_first_output_error(texts(kraken_lines@), e),
        },
{
    let ghost lines = texts(kraken_lines@);
    let mut taxa: HashSet<i32> = HashSet::new();
    let mut k: usize = 0;
    while k < taxon_ids_to_save.len()
        invariant
            k <= taxon_ids_to_save@.len(),
            forall|t: i32| #[trigger] taxa@.contains(t) <==> taxon_ids_to_save@.take(k as int).contains(t),
        decreases taxon_ids_to_save@.len() - k,
    {
        let t = taxon_ids_to_save[k];
        taxa.insert(t);
        proof {
            let before = taxon_ids_to_save@.take(k as int);
            let after = taxon_ids_to_save@.take(k + 1);
            assert(after == before.push(t));
            assert forall|u: i32| #[trigger] taxa@.contains(u) <==> after.contains(u) by {
                if before.contains(u) {
                    let j = choose|j: int| 0 <= j < before.len() && before[j] == u;
                    assert(after[j] == u);
                }
                if after.contains(u) && u != t {
                    let j = choose|j: int| 0 <= j < after.len() && after[j] == u;
                    assert(before[j] == u);
                }
                if u == t {
                    assert(after[k as int] == t);
                }
            }
        }
        k = k + 1;
    }
    proof {
        assert(taxon_ids_to_save@.take(k as int) == taxon_ids_to_save@);
        assert(taxa@ == taxon_ids_to_save@.to_set());
    }
    let ghost wanted = taxa@;
    let mut out = ProcessedKrakenOutput::new();
    let mut i: usize = 0;
    proof {
        assert(lines.take(0) == Seq::<Seq<char>>::empty());
    }
    while i < kraken_lines.len()
        invariant
            i <= kraken_lines@.len(),
            lines == texts(kraken_lines@),
            wanted == taxa@,
            forall|j: int| 0 <= j < i ==> (#[trigger] output_line_error(lines[j])) is None,
            is_membership(out, lines.take(i as int), wanted, exclude),
            forall|t: i32| #[trigger]
                out.reads_per_taxon@.contains_key(t) ==> out.reads_per_taxon@[t] <= i,
        decreases kraken_lines@.len() - i,
    {
        let ghost before = out;
        let ghost prefix = lines.take(i as int);
        let ghost next = lines.take(i + 1);
        proof {
            assert(lines[i as int] == kraken_lines@[i as int]@);
            assert(next.drop_last() == prefix);
            assert(next.last() == lines[i as int]);
        }
        match out.add_line(kraken_lines[i].as_str(), exclude, &taxa) {
            Ok(()) => {},
            Err(error) => {
                return Err(KrakenOutputError { line: i + 1, error });
            },
        }
        proof {
            let t = output_taxon(lines[i as int]);
            assert forall|u: i32|
                (#[trigger] out.reads_per_taxon@.contains_key(u) <==> kept_count(
                    next,
                    wanted,
                    exclude,
                    u,
                ) > 0) && (out.reads_per_taxon@.contains_key(u) ==> out.reads_per_taxon@[u]
                    == kept_count(next, wanted, exclude, u)) by {
                if u == t && keeps(wanted, exclude, t) {
                    assert(before.reads_per_taxon@.contains_key(u) <==> kept_count(
                        prefix,
                        wanted,
                        exclude,
                        u,
                    ) > 0);
                } else {
                    assert(before.reads_per_taxon@.contains_key(u) <==> kept_count(
                        prefix,
                        wanted,
                        exclude,
                        u,
                    ) > 0);
                }
            }
            assert forall|u: i32| #[trigger]
                out.reads_per_taxon@.contains_key(u) implies out.reads_per_taxon@[u] <= i + 1 by {
                lemma_kept_count_bound(next, wanted, exclude, u);
            }
        }
        i = i + 1;
    }
    proof {
        assert(lines.take(i as int) == lines);
    }
    Ok(out)
}

/// Building the membership twice from the same lines, taxa and mode gives the
/// same read set and the same counts.
pub proof fn lemma_membership_deterministic(
    lines: Seq<Seq<char>>,
    taxa: Set<i32>,
    exclude: bool,
    a: ProcessedKrakenOutput,
    b: ProcessedKrakenOutput,
)
    requires
        is_membership(a, lines, taxa, exclude),
        is_membership(b, lines, taxa, exclude),
    ensures
        read_ids(a.reads_to_save) == read_ids(b.reads_to_save),
        a.reads_per_taxon@ == b.reads_per_taxon@,
{
    assert(a.reads_per_taxon@ =~= b.reads_per_taxon@) by {
        assert forall|t: i32| #[trigger]
            a.reads_per_taxon@.contains_key(t) <==> b.reads_per_taxon@.contains_key(t) by {
            assert(a.reads_per_taxon@.contains_key(t) <==> kept_count(lines, taxa, exclude, t) > 0);
            assert(b.reads_per_taxon@.contains_key(t) <==> kept_count(lines, taxa, exclude, t) > 0);
        }
    }
}

proof fn lemma_kept_reads_members(lines: Seq<Seq<char>>, taxa: Set<i32>, exclude: bool, r: Seq<u8>)
    ensures
        kept_reads(lines, taxa, exclude).contains(r) <==> exists|i: int|
            0 <= i < lines.len() && output_read_id(#[trigger] lines[i]) == r && keeps(
                taxa,
                exclude,
                output_taxon(lines[i]),
            ),
    decreases lines.len(),
{
    if lines.len() > 0 {
        let init = lines.drop_last();
        lemma_kept_reads_members(init, taxa, exclude, r);
        if exists|i: int|
            0 <= i < init.len() && output_read_id(#[trigger] init[i]) == r && keeps(
                taxa,
                exclude,
                output_taxon(init[i]),
            ) {
            let i = choose|i: int|
                0 <= i < init.len() && output_read_id(#[trigger] init[i]) == r && keeps(
                    taxa,
                    exclude,
                    output_taxon(init[i]),
                );
            assert(lines[i] == init[i]);
        }
        if exists|i: int|
            0 <= i < lines.len() && output_read_id(#[trigger] lines[i]) == r && keeps(
                taxa,
                exclude,
                output_taxon(lines[i]),
            ) {
            let i = choose|i: int|
                0 <= i < lines.len() && output_read_id(#[trigger] lines[i]) == r && keeps(
                    taxa,
                    exclude,
                    output_taxon(lines[i]),
                );
            if i < init.len() {
                assert(init[i] == lines[i]);
            }
        }
    }
}

/// Every read is kept either in include mode or in exclude mode, for the
/// same taxa.
pub proof fn lemma_include_exclude_cover(lines: Seq<Seq<char>>, taxa: Set<i32>)
    ensures
        kept_reads(lines, taxa, false) + kept_reads(lines, taxa, true) == all_reads(lines),
    decreases lines.len(),
{
    if lines.len() > 0 {
        lemma_include_exclude_cover(lines.drop_last(), taxa);
    }
    assert(kept_reads(lines, taxa, false) + kept_reads(lines, taxa, true) =~= all_reads(lines));
}

/// Where no read ID occurs on two lines of which one is kept in include mode
/// and the other is not, no read is kept in both modes.
pub proof fn lemma_include_exclude_disjoint(lines: Seq<Seq<char>>, taxa: Set<i32>)
    requires
        forall|i: int, j: int|
            0 <= i < lines.len() && 0 <= j < lines.len() && output_read_id(#[trigger] lines[i])
                == output_read_id(#[trigger] lines[j]) ==> (taxa.contains(output_taxon(lines[i]))
                <==> taxa.contains(output_taxon(lines[j]))),
    ensures
        kept_reads(lines, taxa, false).disjoint(kept_reads(lines, taxa, true)),
{
    assert forall|r: Seq<u8>| !(kept_reads(lines, taxa, false).contains(r) && kept_reads(
        lines,
        taxa,
        true,
    ).contains(r)) by {
        lemma_kept_reads_members(lines, taxa, false, r);
        lemma_kept_reads_members(lines, taxa, true, r);
    }
}

/// With no taxa selected, include mode keeps no read and exclude mode keeps
/// every read.
pub proof fn lemma_empty_selection(lines: Seq<Seq<char>>)
    ensures
        kept_reads(lines, Set::empty(), false) == Set::<Seq<u8>>::empty(),
        kept_reads(lines, Set::empty(), true) == all_reads(lines),
    decreases lines.len(),
{
    if lines.len() > 0 {
        lemma_empty_selection(lines.drop_last());
    }
}

/// How many of the (valid) output lines are kept.
pub open spec fn kept_lines(lines: Seq<Seq<char>>, taxa: Set<i32>, exclude: bool) -> nat
    decreases lines.len(),
{
    if lines.len() == 0 {
        0
    } else {
        kept_lines(lines.drop_last(), taxa, exclude) + if keeps(
            taxa,
            exclude,
            output_taxon(lines.last()),
        ) {
            1nat
        } else {
            0nat
        }
    }
}

/// Adds the count that `m` holds for a taxon to a running total.
pub open spec fn count_adder(m: Map<i32, usize>) -> spec_fn(int, i32) -> int {
    |acc: int, t: i32| acc + m[t]
}

/// The sum of the counts that `m` holds.
pub open spec fn sum_of_counts(m: Map<i32, usize>) -> int {
    m.dom().fold(0int, count_adder(m))
}

proof fn lemma_fold_agree(s: Set<i32>, m1: Map<i32, usize>, m2: Map<i32, usize>)
    requires
        s.finite(),
        forall|u: i32| s.contains(u) ==> m1[u] == m2[u],
    ensures
        s.fold(0int, count_adder(m1)) == s.fold(0int, count_adder(m2)),
    decreases s.len(),
{
    assert(is_fun_commutative(count_adder(m1)));
    assert(is_fun_commutative(count_adder(m2)));
    if s.len() == 0 {
        s.lemma_len0_is_empty();
        lemma_fold_empty(0int, count_adder(m1));
        lemma_fold_empty(0int, count_adder(m2));
    } else {
        let a = s.choose();
        let r = s.remove(a);
        lemma_fold_agree(r, m1, m2);
        lemma_fold_insert(r, 0int, count_adder(m1), a);
        lemma_fold_insert(r, 0int, count_adder(m2), a);
        assert(r.insert(a) == s);
    }
}

/// Where `m` holds the per-taxon counts of some (valid) output lines, its
/// keys are finitely many and its counts add up to the number of kept lines.
pub proof fn lemma_counts_sum_to_kept_lines(
    m: Map<i32, usize>,
    lines: Seq<Seq<char>>,
    taxa: Set<i32>,
    exclude: bool,
)
    requires
        is_count_map(m, lines, taxa, exclude),
    ensures
        m.dom().finite(),
        sum_of_counts(m) == kept_lines(lines, taxa, exclude),
    decreases lines.len(),
{
    assert(is_fun_commutative(count_adder(m)));
    if lines.len() == 0 {
        assert(m.dom() =~= Set::<i32>::empty()) by {
            assert forall|u: i32| !m.dom().contains(u) by {
                assert(m.contains_key(u) <==> kept_count(lines, taxa, exclude, u) > 0);
            }
        }
        lemma_fold_empty(0int, count_adder(m));
    } else {
        let init = lines.drop_last();
        let t = output_taxon(lines.last());
        if keeps(taxa, exclude, t) {
            let c = kept_count(init, taxa, exclude, t);
            assert(m.contains_key(t) <==> kept_count(lines, taxa, exclude, t) > 0);
            let mi = if c == 0 {
                m.remove(t)
            } else {
                m.insert(t, c as usize)
            };
            assert forall|u: i32|
                (#[trigger] mi.contains_key(u) <==> kept_count(init, taxa, exclude, u) > 0) && (
                mi.contains_key(u) ==> mi[u] == kept_count(init, taxa, exclude, u)) by {
                assert(m.contains_key(u) <==> kept_count(lines, taxa, exclude, u) > 0);
            }
            lemma_counts_sum_to_kept_lines(mi, init, taxa, exclude);
            if c == 0 {
                assert(m.dom() == mi.dom().insert(t));
                lemma_fold_insert(mi.dom(), 0int, count_adder(m), t);
                lemma_fold_agree(mi.dom(), m, mi);
            } else {
                let r = m.dom().remove(t);
                assert(mi.dom() == m.dom());
                assert(r.insert(t) == m.dom());
                lemma_fold_insert(r, 0int, count_adder(m), t);
                lemma_fold_insert(r, 0int, count_adder(mi), t);
                lemma_fold_agree(r, m, mi);
            }
        } else {
            assert forall|u: i32|
                (#[trigger] m.contains_key(u) <==> kept_count(init, taxa, exclude, u) > 0) && (
                m.contains_key(u) ==> m[u] == kept_count(init, taxa, exclude, u)) by {
                assert(m.contains_key(u) <==> kept_count(lines, taxa, exclude, u) > 0);
            }
            lemma_counts_sum_to_kept_lines(m, init, taxa, exclude);
        }
    }
}

proof fn lemma_kept_lines_complement(lines: Seq<Seq<char>>, taxa: Set<i32>)
    ensures
        kept_lines(lines, taxa, false) + kept_lines(lines, taxa, true) == lines.len(),
    decreases lines.len(),
{
    if lines.len() > 0 {
        lemma_kept_lines_complement(lines.drop_last(), taxa);
    }
}

/// The counts built for the same lines and taxa in the two modes have no
/// taxon in common and add up to the number of lines.
pub proof fn lemma_include_exclude_counts(
    lines: Seq<Seq<char>>,
    taxa: Set<i32>,
    kept_in: Map<i32, usize>,
    kept_out: Map<i32, usize>,
)
    requires
        is_count_map(kept_in, lines, taxa, false),
        is_count_map(kept_out, lines, taxa, true),
    ensures
        kept_in.dom().disjoint(kept_out.dom()),
        sum_of_counts(kept_in) + sum_of_counts(kept_out) == lines.len(),
{
    lemma_counts_sum_to_kept_lines(kept_in, lines, taxa, false);
    lemma_counts_sum_to_kept_lines(kept_out, lines, taxa, true);
    lemma_kept_lines_complement(lines, taxa);
    assert forall|t: i32| !(kept_in.dom().contains(t) && kept_out.dom().contains(t)) by {
        assert(kept_in.contains_key(t) <==> kept_count(lines, taxa, false, t) > 0);
        assert(kept_out.contains_key(t) <==> kept_count(lines, taxa, true, t) > 0);
        lemma_kept_count_keeps(lines, taxa, false, t);
        lemma_kept_count_keeps(lines, taxa, true, t);
    }
}

proof fn lemma_kept_count_keeps(lines: Seq<Seq<char>>, taxa: Set<i32>, exclude: bool, t: i32)
    ensures
        kept_count(lines, taxa, exclude, t) > 0 ==> keeps(taxa, exclude, t),
    decreases lines.len(),
{
    if lines.len() > 0 {
        lemma_kept_count_keeps(lines.drop_last(), taxa, exclude, t);
    }
}

/// With no taxa selected in exclude mode, the counts add up to the number of
/// lines: every line is kept.
pub proof fn lemma_empty_selection_counts(lines: Seq<Seq<char>>, m: Map<i32, usize>)
    requires
        is_count_map(m, lines, Set::empty(), true),
    ensures
        sum_of_counts(m) == lines.len(),
{
    lemma_counts_sum_to_kept_lines(m, lines, Set::empty(), true);
    lemma_kept_lines_complement(lines, Set::empty());
    lemma_kept_lines_none(lines);
}

proof fn lemma_kept_lines_none(lines: Seq<Seq<char>>)
    ensures
        kept_lines(lines, Set::empty(), false) == 0,
    decreases lines.len(),
{
    if lines.len() > 0 {
        lemma_kept_lines_none(lines.drop_last());
    }
}

} // verus!
