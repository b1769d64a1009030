//! The compatibility checker.
//!
//! Given the current relation and one proposed source-to-target label
//! addition, `check` decides whether the extended relation keeps every passive
//! source configuration consistent: every configuration reachable by removing
//! one occurrence of the added source label and substituting the remaining
//! slots by admitted target labels must, in canonical form, be a passive
//! target configuration with one occurrence of the added target label removed.

use vstd::pervasive::VecAdditionalExecFns;
use vstd::prelude::*;

use crate::order::{
    clone_cfg, clone_label, label_eq, push_cfg, push_label, sort_labels, sort_labels_spec, Label,
};
use crate::relation::{rel_maps, rel_targets, spec_rel_insert, Relation};

verus! {

/// Outcome of checking one proposed addition against the passive
/// configurations.
pub enum CheckResult {
    /// The relation already admits the addition; there is nothing to verify.
    NoOp,
    /// The addition is consistent; the payload is the extended relation.
    Accept(Relation),
    /// The addition breaks a passive constraint.
    Reject,
}

/// The first position at or after `i` where `c` carries the label `l`, or
/// `c.len()` when there is none.
pub open spec fn cfg_index_of_from(c: Seq<Seq<char>>, l: Seq<char>, i: int) -> int
    decreases c.len() - i,
{
    if i < 0 || i >= c.len() {
        c.len() as int
    } else if c[i] == l {
        i
    } else {
        cfg_index_of_from(c, l, i + 1)
    }
}

/// The first position of label `l` in configuration `c`, or `c.len()`.
pub open spec fn cfg_index_of(c: Seq<Seq<char>>, l: Seq<char>) -> int {
    cfg_index_of_from(c, l, 0)
}

/// `cfg_index_of_from` lands on an occurrence of `l`, or past the end.
pub proof fn lemma_cfg_index_of_bounds(c: Seq<Seq<char>>, l: Seq<char>, i: int)
    requires
        0 <= i <= c.len(),
    ensures
        i <= cfg_index_of_from(c, l, i) <= c.len(),
        cfg_index_of_from(c, l, i) < c.len() ==> c[cfg_index_of_from(c, l, i)] == l,
    decreases c.len() - i,
{
    if i < c.len() && c[i] != l {
        lemma_cfg_index_of_bounds(c, l, i + 1);
    }
}

/// Removing position `i` without preserving order: the last entry moves into
/// the hole.
pub open spec fn swap_removed(c: Seq<Seq<char>>, i: int) -> Seq<Seq<char>> {
    c.update(i, c.last()).drop_last()
}

/// Every passive source configuration containing `s`, with one occurrence of
/// `s` removed (order not preserved).
pub open spec fn reduce_sources(ps: Seq<Seq<Seq<char>>>, s: Seq<char>) -> Seq<Seq<Seq<char>>>
    decreases ps.len(),
{
    if ps.len() == 0 {
        Seq::empty()
    } else {
        let pre = reduce_sources(ps.drop_last(), s);
        let c = ps.last();
        let k = cfg_index_of(c, s);
        if k < c.len() {
            pre.push(swap_removed(c, k))
        } else {
            pre
        }
    }
}

/// Every passive target configuration containing `t`, with the occurrence of
/// `t` removed in place (order preserved).
pub open spec fn reduce_targets(pt: Seq<Seq<Seq<char>>>, t: Seq<char>) -> Seq<Seq<Seq<char>>>
    decreases pt.len(),
{
    if pt.len() == 0 {
        Seq::empty()
    } else {
        let pre = reduce_targets(pt.drop_last(), t);
        let c = pt.last();
        let k = cfg_index_of(c, t);
        if k < c.len() {
            pre.push(c.remove(k))
        } else {
            pre
        }
    }
}

/// `row` with slot `k` replaced by each label of `ts` in turn.
pub open spec fn subst_slot(row: Seq<Seq<char>>, k: int, ts: Seq<Seq<char>>) -> Seq<Seq<Seq<char>>>
    decreases ts.len(),
{
    if ts.len() == 0 {
        Seq::empty()
    } else {
        subst_slot(row, k, ts.drop_last()).push(row.update(k, ts.last()))
    }
}

/// Every row of `rows` expanded at slot `k` by the target labels that `rv`
/// admits for the label occupying that slot.
pub open spec fn expand_rows(
    rows: Seq<Seq<Seq<char>>>,
    rv: Seq<(Seq<char>, Seq<Seq<char>>)>,
    k: int,
) -> Seq<Seq<Seq<char>>>
    decreases rows.len(),
{
    if rows.len() == 0 {
        Seq::empty()
    } else {
        let row = rows.last();
        expand_rows(rows.drop_last(), rv, k) + subst_slot(row, k, rel_targets(rv, row[k]))
    }
}

/// `rows` expanded at every slot from `k` up to `d - 1`: the set of
/// configurations that could result from completing the mapping consistently
/// with `rv`.
pub open spec fn expand_all(
    rows: Seq<Seq<Seq<char>>>,
    rv: Seq<(Seq<char>, Seq<Seq<char>>)>,
    k: int,
    d: int,
) -> Seq<Seq<Seq<char>>>
    decreases d - k,
{
    if k >= d - 1 {
        rows
    } else {
        expand_all(expand_rows(rows, rv, k), rv, k + 1, d)
    }
}

/// Each row brought to canonical (sorted) form.
pub open spec fn sort_all(rows: Seq<Seq<Seq<char>>>) -> Seq<Seq<Seq<char>>>
    decreases rows.len(),
{
    if rows.len() == 0 {
        Seq::empty()
    } else {
        sort_all(rows.drop_last()).push(sort_labels_spec(rows.last()))
    }
}

/// Every configuration of `a` occurs in `b`.
pub open spec fn cfgs_subset(a: Seq<Seq<Seq<char>>>, b: Seq<Seq<Seq<char>>>) -> bool {
    forall|i: int| 0 <= i < a.len() ==> b.contains(a[i])
}

/// Every configuration of `at` is at most as long as every configuration of
/// `asr`, so slot indices taken from a target configuration stay inside the
/// source configuration it is paired with.
pub open spec fn fits(at: Seq<Seq<Seq<char>>>, asr: Seq<Seq<Seq<char>>>) -> bool {
    forall|i: int, j: int|
        0 <= i < at.len() && 0 <= j < asr.len() ==> (#[trigger] at[i]).len() <= (
        #[trigger] asr[j]).len()
}

/// All configurations share the arity `d`.
pub open spec fn rows_arity(rows: Seq<Seq<Seq<char>>>, d: int) -> bool {
    forall|i: int| 0 <= i < rows.len() ==> (#[trigger] rows[i]).len() == d
}

/// The addition `(s, t)` is consistent with the passive configurations: every
/// configuration generated from a reduced passive source configuration by
/// exhaustive substitution under the extended relation lies, after sorting,
/// among the reduced passive target configurations.
pub open spec fn spec_check_accepts(
    rv: Seq<(Seq<char>, Seq<Seq<char>>)>,
    s: Seq<char>,
    t: Seq<char>,
    ps: Seq<Seq<Seq<char>>>,
    pt: Seq<Seq<Seq<char>>>,
    d: int,
) -> bool {
    let rv2 = spec_rel_insert(rv, s, t);
    let generated = sort_all(expand_all(reduce_sources(ps, s), rv2, 0, d));
    cfgs_subset(generated, reduce_targets(pt, t))
}

/// Reducing keeps one arity less than the sources had.
proof fn lemma_reduce_sources_arity(ps: Seq<Seq<Seq<char>>>, s: Seq<char>, d: int)
    requires
        rows_arity(ps, d),
    ensures
        rows_arity(reduce_sources(ps, s), d - 1),
    decreases ps.len(),
{
    if ps.len() > 0 {
        assert(rows_arity(ps.drop_last(), d));
        lemma_reduce_sources_arity(ps.drop_last(), s, d);
        let c = ps.last();
        assert(c.len() == d);
        let k = cfg_index_of(c, s);
        if k < c.len() {
            lemma_cfg_index_of_bounds(c, s, 0);
            assert(swap_removed(c, k).len() == d - 1);
            lemma_rows_arity_push(reduce_sources(ps.drop_last(), s), swap_removed(c, k), d - 1);
        }
    }
}

/// A pushed row of the right arity keeps `rows_arity`.
proof fn lemma_rows_arity_push(rows: Seq<Seq<Seq<char>>>, row: Seq<Seq<char>>, d: int)
    requires
        rows_arity(rows, d),
        row.len() == d,
    ensures
        rows_arity(rows.push(row), d),
{
    assert forall|i: int| 0 <= i < rows.push(row).len() implies (#[trigger] rows.push(row)[i]).len()
        == d by {
        if i < rows.len() {
            assert(rows.push(row)[i] == rows[i]);
        }
    }
}

/// Substitution keeps each row's arity.
proof fn lemma_subst_slot_arity(row: Seq<Seq<char>>, k: int, ts: Seq<Seq<char>>, d: int)
    requires
        row.len() == d,
        0 <= k < d,
    ensures
        rows_arity(subst_slot(row, k, ts), d),
    decreases ts.len(),
{
    if ts.len() > 0 {
        lemma_subst_slot_arity(row, k, ts.drop_last(), d);
        lemma_rows_arity_push(subst_slot(row, k, ts.drop_last()), row.update(k, ts.last()), d);
    }
}

/// Expanding one slot keeps every row's arity.
proof fn lemma_expand_rows_arity(
    rows: Seq<Seq<Seq<char>>>,
    rv: Seq<(Seq<char>, Seq<Seq<char>>)>,
    k: int,
    d: int,
)
    requires
        rows_arity(rows, d),
        0 <= k < d,
    ensures
        rows_arity(expand_rows(rows, rv, k), d),
    decreases rows.len(),
{
    if rows.len() > 0 {
        assert(rows_arity(rows.drop_last(), d));
        lemma_expand_rows_arity(rows.drop_last(), rv, k, d);
        let row = rows.last();
        assert(row.len() == d);
        let sub = subst_slot(row, k, rel_targets(rv, row[k]));
        lemma_subst_slot_arity(row, k, rel_targets(rv, row[k]), d);
        let pre = expand_rows(rows.drop_last(), rv, k);
        assert forall|i: int| 0 <= i < (pre + sub).len() implies (#[trigger] (pre + sub)[i]).len()
            == d by {
        }
    }
}

/// Configuration equality decides equality of the deep views.
pub fn cfg_eq(a: &Vec<Label>, b: &Vec<Label>) -> (r: bool)
    ensures
        r == (a.deep_view() == b.deep_view()),
{
    if a.len() != b.len() {
        proof {
            assert(a.deep_view().len() == a@.len());
            assert(b.deep_view().len() == b@.len());
        }
        return false;
    }
    let mut i: usize = 0;
    while i < a.len()
        invariant
            0 <= i <= a.len(),
            a@.len() == b@.len(),
            forall|j: int| 0 <= j < i ==> a.deep_view()[j] == b.deep_view()[j],
        decreases a.len() - i,
    {
        if !label_eq(&a[i], &b[i]) {
            proof {
                assert(a.deep_view()[i as int] == a@[i as int]@);
                assert(b.deep_view()[i as int] == b@[i as int]@);
            }
            return false;
        }
        proof {
            assert(a.deep_view()[i as int] == a@[i as int]@);
            assert(b.deep_view()[i as int] == b@[i as int]@);
        }
        i = i + 1;
    }
    proof {
        assert(a.deep_view() =~= b.deep_view());
    }
    true
}

/// Membership of a configuration in a list, by deep-view equality.
pub fn cfg_list_contains(list: &Vec<Vec<Label>>, cfg: &Vec<Label>) -> (r: bool)
    ensures
        r == list.deep_view().contains(cfg.deep_view()),
{
    let mut i: usize = 0;
    while i < list.len()
        invariant
            0 <= i <= list.len(),
            forall|j: int| 0 <= j < i ==> list.deep_view()[j] != cfg.deep_view(),
        decreases list.len() - i,
    {
        if cfg_eq(&list[i], cfg) {
            proof {
                assert(list.deep_view()[i as int] == cfg.deep_view());
            }
            return true;
        }
        proof {
            assert(list.deep_view()[i as int] == list@[i as int].deep_view());
        }
        i = i + 1;
    }
    proof {
        assert(!list.deep_view().contains(cfg.deep_view()));
    }
    false
}

/// The first position of `l` in `c`, or `c.len()` when `l` does not occur.
fn cfg_index_of_exec(c: &Vec<Label>, l: &Label) -> (k: usize)
    ensures
        k as int == cfg_index_of(c.deep_view(), l@),
        k <= c.len(),
{
    let mut k: usize = 0;
    while k < c.len()
        invariant
            0 <= k <= c.len(),
            cfg_index_of(c.deep_view(), l@) == cfg_index_of_from(c.deep_view(), l@, k as int),
        decreases c.len() - k,
    {
        if label_eq(&c[k], l) {
            proof {
                assert(c.deep_view()[k as int] == c@[k as int]@);
            }
            return k;
        }
        proof {
            assert(c.deep_view()[k as int] == c@[k as int]@);
        }
        k = k + 1;
    }
    k
}

/// Reduces the passive source configurations by one occurrence of `s`.
fn reduce_sources_exec(ps: &Vec<Vec<Label>>, s: &Label) -> (r: Vec<Vec<Label>>)
    ensures
        r.deep_view() == reduce_sources(ps.deep_view(), s@),
{
    let mut r: Vec<Vec<Label>> = Vec::new();
    let mut i: usize = 0;
    while i < ps.len()
        invariant
            0 <= i <= ps.len(),
            r.deep_view() == reduce_sources(ps.deep_view().take(i as int), s@),
        decreases ps.len() - i,
    {
        let ghost psd = ps.deep_view();
        let cfg = &ps[i];
        proof {
            assert(cfg.deep_view() == psd[i as int]);
        }
        let k = cfg_index_of_exec(cfg, s);
        if k < cfg.len() {
            let mut c = clone_cfg(cfg);
            let ghost cd = c.deep_view();
            c.swap_remove(k);
            proof {
                assert forall|q: int| 0 <= q < c@.len() implies (#[trigger] c@[q]).deep_view()
                    == swap_removed(cd, k as int)[q] by {
                }
                assert(c.deep_view() =~= swap_removed(cd, k as int));
            }
            push_cfg(&mut r, c);
        }
        proof {
            assert(psd.take(i + 1).drop_last() =~= psd.take(i as int));
            assert(psd.take(i + 1).last() == psd[i as int]);
        }
        i = i + 1;
    }
    proof {
        assert(ps.deep_view().take(ps.deep_view().len() as int) =~= ps.deep_view());
    }
    r
}

/// Reduces the passive target configurations by the occurrence of `t`.
fn reduce_targets_exec(pt: &Vec<Vec<Label>>, t: &Label) -> (r: Vec<Vec<Label>>)
    ensures
        r.deep_view() == reduce_targets(pt.deep_view(), t@),
{
    let mut r: Vec<Vec<Label>> = Vec::new();
    let mut i: usize = 0;
    while i < pt.len()
        invariant
            0 <= i <= pt.len(),
            r.deep_view() == reduce_targets(pt.deep_view().take(i as int), t@),
        decreases pt.len() - i,
    {
        let ghost ptd = pt.deep_view();
        let cfg = &pt[i];
        proof {
            assert(cfg.deep_view() == ptd[i as int]);
        }
        let k = cfg_index_of_exec(cfg, t);
        if k < cfg.len() {
            let mut c = clone_cfg(cfg);
            let ghost cd = c.deep_view();
            c.remove(k);
            proof {
                assert forall|q: int| 0 <= q < c@.len() implies (#[trigger] c@[q]).deep_view()
                    == cd.remove(k as int)[q] by {
                }
                assert(c.deep_view() =~= cd.remove(k as int));
            }
            push_cfg(&mut r, c);
        }
        proof {
            assert(ptd.take(i + 1).drop_last() =~= ptd.take(i as int));
            assert(ptd.take(i + 1).last() == ptd[i as int]);
        }
        i = i + 1;
    }
    proof {
        assert(pt.deep_view().take(pt.deep_view().len() as int) =~= pt.deep_view());
    }
    r
}

/// `row` with slot `k` replaced by `t`.
fn replace_at(row: &Vec<Label>, k: usize, t: &Label) -> (r: Vec<Label>)
    requires
        k < row@.len(),
    ensures
        r.deep_view() == row.deep_view().update(k as int, t@),
{
    let ghost target = row.deep_view().update(k as int, t@);
    let mut r: Vec<Label> = Vec::new();
    let mut j: usize = 0;
    while j < row.len()
        invariant
            0 <= j <= row.len(),
            k < row@.len(),
            target == row.deep_view().update(k as int, t@),
            r.deep_view() == target.take(j as int),
        decreases row.len() - j,
    {
        if j == k {
            push_label(&mut r, clone_label(t));
        } else {
            push_label(&mut r, clone_label(&row[j]));
            proof {
                assert(row.deep_view()[j as int] == row@[j as int]@);
            }
        }
        proof {
            assert(target.take(j + 1).drop_last() =~= target.take(j as int));
            assert(target.take(j + 1).last() == target[j as int]);
            assert(r.deep_view() =~= target.take(j + 1));
        }
        j = j + 1;
    }
    proof {
        assert(target.take(target.len() as int) =~= target);
    }
    r
}

/// All substitutions of slot `k` of `row` by the labels of `ts`.
pub(crate) fn subst_slot_exec(row: &Vec<Label>, k: usize, ts: &Vec<Label>) -> (r: Vec<Vec<Label>>)
    requires
        k < row@.len(),
    ensures
        r.deep_view() == subst_slot(row.deep_view(), k as int, ts.deep_view()),
{
    let mut r: Vec<Vec<Label>> = Vec::new();
    let mut i: usize = 0;
    while i < ts.len()
        invariant
            0 <= i <= ts.len(),
            k < row@.len(),
            r.deep_view() == subst_slot(row.deep_view(), k as int, ts.deep_view().take(i as int)),
        decreases ts.len() - i,
    {
        let ghost tsd = ts.deep_view();
        let nr = replace_at(row, k, &ts[i]);
        proof {
            assert(tsd[i as int] == ts@[i as int]@);
        }
        push_cfg(&mut r, nr);
        proof {
            assert(tsd.take(i + 1).drop_last() =~= tsd.take(i as int));
            assert(tsd.take(i + 1).last() == tsd[i as int]);
        }
        i = i + 1;
    }
    proof {
        assert(ts.deep_view().take(ts.deep_view().len() as int) =~= ts.deep_view());
    }
    r
}

/// Appends all configurations of `other` to `r`.
pub(crate) fn append_cfgs(r: &mut Vec<Vec<Label>>, other: Vec<Vec<Label>>)
    ensures
        final(r).deep_view() == old(r).deep_view() + other.deep_view(),
{
    let ghost pre = r@;
    let ghost pre_deep = r.deep_view();
    let ghost od = other@;
    let ghost odeep = other.deep_view();
    let mut o = other;
    r.append(&mut o);
    proof {
        assert forall|q: int| 0 <= q < r@.len() implies (#[trigger] r@[q]).deep_view() == (pre_deep
            + odeep)[q] by {
            if q < pre.len() {
                assert(r@[q] == pre[q]);
            } else {
                assert(r@[q] == od[q - pre.len()]);
            }
        }
        assert(r.deep_view() =~= pre_deep + odeep);
    }
}

/// Expands every row at slot `k` under the relation.
fn expand_rows_exec(rows: &Vec<Vec<Label>>, rel: &Relation, k: usize) -> (r: Vec<Vec<Label>>)
    requires
        forall|i: int| 0 <= i < rows.deep_view().len() ==> k < (#[trigger] rows.deep_view()[i]).len(),
    ensures
        r.deep_view() == expand_rows(rows.deep_view(), rel@, k as int),
{
    let mut r: Vec<Vec<Label>> = Vec::new();
    let mut i: usize = 0;
    while i < rows.len()
        invariant
            0 <= i <= rows.len(),
            forall|q: int|
                0 <= q < rows.deep_view().len() ==> k < (#[trigger] rows.deep_view()[q]).len(),
            r.deep_view() == expand_rows(rows.deep_view().take(i as int), rel@, k as int),
        decreases rows.len() - i,
    {
        let ghost rd = rows.deep_view();
        let row = &rows[i];
        proof {
            assert(row.deep_view() == rd[i as int]);
            assert(row@.len() == row.deep_view().len());
        }
        let lab = &row[k];
        proof {
            assert(lab@ == row.deep_view()[k as int]);
        }
        match rel.targets(lab) {
            Some(ts) => {
                let sub = subst_slot_exec(row, k, ts);
                append_cfgs(&mut r, sub);
            },
            None => {
                proof {
                    assert(subst_slot(rd[i as int], k as int, rel_targets(rel@, lab@))
                        =~= Seq::<Seq<Seq<char>>>::empty());
                    assert(r.deep_view() =~= r.deep_view()
                        + subst_slot(rd[i as int], k as int, rel_targets(rel@, lab@)));
                }
            },
        }
        proof {
            assert(rd.take(i + 1).drop_last() =~= rd.take(i as int));
            assert(rd.take(i + 1).last() == rd[i as int]);
        }
        i = i + 1;
    }
    proof {
        assert(rows.deep_view().take(rows.deep_view().len() as int) =~= rows.deep_view());
    }
    r
}

/// Brings every row to canonical form.
pub(crate) fn sort_all_exec(rows: &Vec<Vec<Label>>) -> (r: Vec<Vec<Label>>)
    ensures
        r.deep_view() == sort_all(rows.deep_view()),
{
    let mut r: Vec<Vec<Label>> = Vec::new();
    let mut i: usize = 0;
    while i < rows.len()
        invariant
            0 <= i <= rows.len(),
            r.deep_view() == sort_all(rows.deep_view().take(i as int)),
        decreases rows.len() - i,
    {
        let ghost rd = rows.deep_view();
        let sorted = sort_labels(&rows[i]);
        proof {
            assert(rows@[i as int].deep_view() == rd[i as int]);
        }
        push_cfg(&mut r, sorted);
        proof {
            assert(rd.take(i + 1).drop_last() =~= rd.take(i as int));
            assert(rd.take(i + 1).last() == rd[i as int]);
        }
        i = i + 1;
    }
    proof {
        assert(rows.deep_view().take(rows.deep_view().len() as int) =~= rows.deep_view());
    }
    r
}

/// Decides whether every configuration of `gen` occurs in `tgt`.
fn cfgs_subset_exec(gen: &Vec<Vec<Label>>, tgt: &Vec<Vec<Label>>) -> (r: bool)
    ensures
        r == cfgs_subset(gen.deep_view(), tgt.deep_view()),
{
    let mut i: usize = 0;
    while i < gen.len()
        invariant
            0 <= i <= gen.len(),
            forall|j: int| 0 <= j < i ==> tgt.deep_view().contains(#[trigger] gen.deep_view()[j]),
        decreases gen.len() - i,
    {
        if !cfg_list_contains(tgt, &gen[i]) {
            proof {
                assert(gen.deep_view()[i as int] == gen@[i as int].deep_view());
            }
            return false;
        }
        proof {
            assert(gen.deep_view()[i as int] == gen@[i as int].deep_view());
        }
        i = i + 1;
    }
    true
}

/// Checks whether adding the pair `(addition_source, addition_target)` to the
/// relation stays compatible with the passive configurations.
///
/// Re-checking an addition that the relation already admits never changes the
/// relation and never rejects: it is reported as `NoOp`, and the given
/// relation is never mutated.  Otherwise the verdict and the extended relation
/// are exactly those of `spec_check_accepts` and `spec_rel_insert`.
pub fn check(
    relation: &Relation,
    addition_source: &Label,
    addition_target: &Label,
    passive_source: &Vec<Vec<Label>>,
    passive_target: &Vec<Vec<Label>>,
    passive_degree: usize,
) -> (r: CheckResult)
    requires
        passive_degree >= 1,
        rows_arity(passive_source.deep_view(), passive_degree as int),
    ensures
        rel_maps(relation@, addition_source@, addition_target@) ==> r is NoOp,
        !rel_maps(relation@, addition_source@, addition_target@) ==> match r {
            CheckResult::NoOp => false,
            CheckResult::Accept(r2) => spec_check_accepts(
                relation@,
                addition_source@,
                addition_target@,
                passive_source.deep_view(),
                passive_target.deep_view(),
                passive_degree as int,
            ) && r2@ == spec_rel_insert(relation@, addition_source@, addition_target@),
            CheckResult::Reject => !spec_check_accepts(
                relation@,
                addition_source@,
                addition_target@,
                passive_source.deep_view(),
                passive_target.deep_view(),
                passive_degree as int,
            ),
        },
{
    if relation.maps(addition_source, addition_target) {
        return CheckResult::NoOp;
    }
    let relation_with_addition = relation.insert_pair(addition_source, addition_target);
    let ghost rv2 = spec_rel_insert(relation@, addition_source@, addition_target@);
    let reduced_sources = reduce_sources_exec(passive_source, addition_source);
    let reduced_targets = reduce_targets_exec(passive_target, addition_target);
    proof {
        lemma_reduce_sources_arity(
            passive_source.deep_view(),
            addition_source@,
            passive_degree as int,
        );
    }
    let mut rows = reduced_sources;
    let mut k: usize = 0;
    while k < passive_degree - 1
        invariant
            passive_degree >= 1,
            0 <= k <= passive_degree - 1,
            rows_arity(rows.deep_view(), passive_degree - 1),
            relation_with_addition@ == rv2,
            expand_all(
                reduce_sources(passive_source.deep_view(), addition_source@),
                rv2,
                0,
                passive_degree as int,
            ) == expand_all(rows.deep_view(), rv2, k as int, passive_degree as int),
        decreases passive_degree - 1 - k,
    {
        proof {
            lemma_expand_rows_arity(rows.deep_view(), rv2, k as int, passive_degree - 1);
        }
        let next = expand_rows_exec(&rows, &relation_with_addition, k);
        proof {
            assert(expand_all(rows.deep_view(), rv2, k as int, passive_degree as int)
                == expand_all(next.deep_view(), rv2, k + 1, passive_degree as int));
        }
        rows = next;
        k = k + 1;
    }
    let generated = sort_all_exec(&rows);
    if cfgs_subset_exec(&generated, &reduced_targets) {
        CheckResult::Accept(relation_with_addition)
    } else {
        CheckResult::Reject
    }
}

} // verus!
