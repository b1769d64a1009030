//! Soundness of a returned map.
//!
//! A successful search yields one entry per active source configuration, in
//! work-list order, and the image chosen for a configuration is a permutation
//! of one of the active target configurations: substituting the
//! configuration's labels by its image yields that target configuration as a
//! multiset.

use vstd::prelude::*;
use vstd::seq_lib::{to_multiset_build, to_multiset_remove};
use vstd::multiset::group_multiset_axioms;
use vstd::seq_lib::group_to_multiset_ensures;

use crate::compat::{
    cfg_index_of, cfgs_subset, expand_all, expand_rows, lemma_cfg_index_of_bounds, reduce_sources,
    reduce_targets, rows_arity, sort_all, spec_check_accepts, subst_slot, swap_removed,
};
use crate::order::sort_labels_spec;
use crate::relation::{rel_maps, rel_targets, spec_rel_insert};
use crate::search::{
    spec_find_lcp, spec_try_configurations, spec_try_labels, spec_try_permutations,
    spec_try_targets,
};

verus! {

/// Each entry's image is a permutation of some active target configuration,
/// and the entries are the work-list configurations in order.
pub open spec fn entries_sound(
    m: Seq<(Seq<Seq<char>>, Seq<Seq<char>>)>,
    at: Seq<Seq<Seq<char>>>,
    asr: Seq<Seq<Seq<char>>>,
) -> bool {
    &&& m.len() == asr.len()
    &&& forall|q: int| 0 <= q < m.len() ==> (#[trigger] m[q]).0 == asr[q]
    &&& forall|q: int|
        0 <= q < m.len() ==> exists|j: int|
            0 <= j < at.len() && (#[trigger] m[q]).1.to_multiset() == at[j].to_multiset()
                && m[q].1.len() == at[j].len()
}

proof fn lemma_labels_sound(
    rv: Seq<(Seq<char>, Seq<Seq<char>>)>,
    ps: Seq<Seq<Seq<char>>>,
    pt: Seq<Seq<Seq<char>>>,
    at: Seq<Seq<Seq<char>>>,
    asr: Seq<Seq<Seq<char>>>,
    rem: Seq<Seq<char>>,
    d: int,
    i: int,
    m: Seq<(Seq<Seq<char>>, Seq<Seq<char>>)>,
    p: Seq<Seq<char>>,
)
    requires
        spec_try_labels(rv, ps, pt, at, asr, rem, d, i) == Some((m, p)),
    ensures
        p.to_multiset() == rem.to_multiset(),
        asr.len() > 0,
        entries_sound(m, at, asr.drop_last()),
    decreases asr.len(), 0int, rem.len(), rem.len() - i,
{
    broadcast use group_multiset_axioms;
    broadcast use group_to_multiset_ensures;

    let s = asr.last()[rem.len() - 1];
    let t = rem[i];
    let noop = rel_maps(rv, s, t);
    if noop || crate::compat::spec_check_accepts(rv, s, t, ps, pt, d) {
        let rv2 = if noop {
            rv
        } else {
            spec_rel_insert(rv, s, t)
        };
        match spec_try_permutations(rv2, ps, pt, at, asr, rem.remove(i), d) {
            Some(mp) => {
                lemma_perm_sound(rv2, ps, pt, at, asr, rem.remove(i), d, mp.0, mp.1);
                to_multiset_build(mp.1, t);
                to_multiset_remove(rem, i);
                assert(rem.contains(t));
                assert(rem.to_multiset().count(t) > 0);
                assert(p.to_multiset() =~= rem.to_multiset());
            },
            None => {
                lemma_labels_sound(rv, ps, pt, at, asr, rem, d, i + 1, m, p);
            },
        }
    } else {
        lemma_labels_sound(rv, ps, pt, at, asr, rem, d, i + 1, m, p);
    }
}

proof fn lemma_perm_sound(
    rv: Seq<(Seq<char>, Seq<Seq<char>>)>,
    ps: Seq<Seq<Seq<char>>>,
    pt: Seq<Seq<Seq<char>>>,
    at: Seq<Seq<Seq<char>>>,
    asr: Seq<Seq<Seq<char>>>,
    rem: Seq<Seq<char>>,
    d: int,
    m: Seq<(Seq<Seq<char>>, Seq<Seq<char>>)>,
    p: Seq<Seq<char>>,
)
    requires
        spec_try_permutations(rv, ps, pt, at, asr, rem, d) == Some((m, p)),
    ensures
        p.to_multiset() == rem.to_multiset(),
        asr.len() == 0 ==> m.len() == 0,
        asr.len() > 0 ==> entries_sound(m, at, asr.drop_last()),
    decreases asr.len(), 0int, rem.len(), rem.len() + 1,
{
    if rem.len() == 0 {
        assert(rem =~= Seq::<Seq<char>>::empty());
        if asr.len() == 0 {
            assert(p =~= rem);
        } else {
            assert(p =~= rem);
            match spec_try_configurations(rv, ps, pt, at, asr.drop_last(), d) {
                Some(m0) => {
                    lemma_config_sound(rv, ps, pt, at, asr.drop_last(), d, m0);
                },
                None => {
                    assert(false);
                },
            }
        }
    } else {
        lemma_labels_sound(rv, ps, pt, at, asr, rem, d, 0, m, p);
    }
}

proof fn lemma_targets_sound(
    rv: Seq<(Seq<char>, Seq<Seq<char>>)>,
    ps: Seq<Seq<Seq<char>>>,
    pt: Seq<Seq<Seq<char>>>,
    at: Seq<Seq<Seq<char>>>,
    asr: Seq<Seq<Seq<char>>>,
    d: int,
    j: int,
    m: Seq<(Seq<Seq<char>>, Seq<Seq<char>>)>,
)
    requires
        spec_try_targets(rv, ps, pt, at, asr, d, j) == Some(m),
    ensures
        entries_sound(m, at, asr),
    decreases asr.len(), 1int, 0int, at.len() - j,
{
    match spec_try_permutations(rv, ps, pt, at, asr, at[j], d) {
        Some(mp) => {
            lemma_perm_sound(rv, ps, pt, at, asr, at[j], d, mp.0, mp.1);
            let m0 = mp.0;
            let p = mp.1;
            assert(m == m0.push((asr.last(), p)));
            assert forall|q: int| 0 <= q < m.len() implies (#[trigger] m[q]).0 == asr[q] by {
                if q < m0.len() {
                    assert(m[q] == m0[q]);
                    assert(asr.drop_last()[q] == asr[q]);
                } else {
                    assert(m[q] == (asr.last(), p));
                }
            }
            assert forall|q: int| 0 <= q < m.len() implies exists|jj: int|
                0 <= jj < at.len() && (#[trigger] m[q]).1.to_multiset() == at[jj].to_multiset()
                    && m[q].1.len() == at[jj].len() by {
                if q < m0.len() {
                    assert(m[q] == m0[q]);
                    assert(entries_sound(m0, at, asr.drop_last()));
                    let jj = choose|jj: int|
                        0 <= jj < at.len() && (#[trigger] m0[q]).1.to_multiset()
                            == at[jj].to_multiset() && m0[q].1.len() == at[jj].len();
                    assert(0 <= jj < at.len() && m[q].1.to_multiset() == at[jj].to_multiset()
                        && m[q].1.len() == at[jj].len());
                } else {
                    assert(m[q].1 == p);
                    assert(p.to_multiset() == at[j].to_multiset());
                    vstd::seq_lib::to_multiset_len(p);
                    vstd::seq_lib::to_multiset_len(at[j]);
                }
            }
        },
        None => {
            lemma_targets_sound(rv, ps, pt, at, asr, d, j + 1, m);
        },
    }
}

proof fn lemma_config_sound(
    rv: Seq<(Seq<char>, Seq<Seq<char>>)>,
    ps: Seq<Seq<Seq<char>>>,
    pt: Seq<Seq<Seq<char>>>,
    at: Seq<Seq<Seq<char>>>,
    asr: Seq<Seq<Seq<char>>>,
    d: int,
    m: Seq<(Seq<Seq<char>>, Seq<Seq<char>>)>,
)
    requires
        spec_try_configurations(rv, ps, pt, at, asr, d) == Some(m),
    ensures
        entries_sound(m, at, asr),
    decreases asr.len(), 1int, 0int, at.len() + 1,
{
    if asr.len() == 0 {
        assert(m =~= Seq::<(Seq<Seq<char>>, Seq<Seq<char>>)>::empty());
    } else {
        lemma_targets_sound(rv, ps, pt, at, asr, d, 0, m);
    }
}

/// Soundness of the search: a returned map has exactly one entry per active
/// source configuration, in input order, and substituting a configuration's
/// labels by its image yields one of the active target configurations as a
/// multiset.
pub proof fn lemma_find_lcp_sound(
    asv: Seq<Seq<Seq<char>>>,
    psv: Seq<Seq<Seq<char>>>,
    atv: Seq<Seq<Seq<char>>>,
    ptv: Seq<Seq<Seq<char>>>,
    m: Seq<(Seq<Seq<char>>, Seq<Seq<char>>)>,
)
    requires
        spec_find_lcp(asv, psv, atv, ptv) == Some(m),
    ensures
        m.len() == asv.len(),
        forall|q: int| 0 <= q < m.len() ==> (#[trigger] m[q]).0 == asv[q],
        forall|q: int|
            0 <= q < m.len() ==> exists|j: int|
                0 <= j < atv.len() && (#[trigger] m[q]).1.to_multiset() == atv[j].to_multiset()
                    && m[q].1.len() == atv[j].len(),
{
    lemma_config_sound(Seq::empty(), psv, ptv, atv, asv, psv[0].len() as int, m);
}

/// The reduction of a passive source configuration that contains `s` is among
/// the reduced configurations.
proof fn lemma_reduce_sources_member(ps: Seq<Seq<Seq<char>>>, s: Seq<char>, pi: int)
    requires
        0 <= pi < ps.len(),
        cfg_index_of(ps[pi], s) < ps[pi].len(),
    ensures
        reduce_sources(ps, s).contains(swap_removed(ps[pi], cfg_index_of(ps[pi], s))),
    decreases ps.len(),
{
    if pi == ps.len() - 1 {
        let reduced = swap_removed(ps[pi], cfg_index_of(ps[pi], s));
        assert(reduce_sources(ps, s).last() == reduced);
    } else {
        assert(ps.drop_last()[pi] == ps[pi]);
        lemma_reduce_sources_member(ps.drop_last(), s, pi);
        let pre = reduce_sources(ps.drop_last(), s);
        let reduced = swap_removed(ps[pi], cfg_index_of(ps[pi], s));
        let w = choose|w: int| 0 <= w < pre.len() && pre[w] == reduced;
        assert(reduce_sources(ps, s)[w] == reduced);
    }
}

/// A target label admitted for slot `k` puts the substituted row among the
/// slot's substitutions.
proof fn lemma_subst_slot_member(row: Seq<Seq<char>>, k: int, ts: Seq<Seq<char>>, tl: Seq<char>)
    requires
        ts.contains(tl),
    ensures
        subst_slot(row, k, ts).contains(row.update(k, tl)),
    decreases ts.len(),
{
    let w = choose|w: int| 0 <= w < ts.len() && ts[w] == tl;
    if w == ts.len() - 1 {
        assert(subst_slot(row, k, ts).last() == row.update(k, tl));
    } else {
        assert(ts.drop_last()[w] == tl);
        lemma_subst_slot_member(row, k, ts.drop_last(), tl);
        let pre = subst_slot(row, k, ts.drop_last());
        let v = choose|v: int| 0 <= v < pre.len() && pre[v] == row.update(k, tl);
        assert(subst_slot(row, k, ts)[v] == row.update(k, tl));
    }
}

/// Expanding slot `k` keeps every admitted one-slot substitution of a present
/// row.
proof fn lemma_expand_rows_member(
    rows: Seq<Seq<Seq<char>>>,
    rv: Seq<(Seq<char>, Seq<Seq<char>>)>,
    k: int,
    row: Seq<Seq<char>>,
    tl: Seq<char>,
)
    requires
        rows.contains(row),
        rel_targets(rv, row[k]).contains(tl),
    ensures
        expand_rows(rows, rv, k).contains(row.update(k, tl)),
    decreases rows.len(),
{
    let w = choose|w: int| 0 <= w < rows.len() && rows[w] == row;
    let pre = expand_rows(rows.drop_last(), rv, k);
    let lastsub = subst_slot(rows.last(), k, rel_targets(rv, rows.last()[k]));
    if w == rows.len() - 1 {
        lemma_subst_slot_member(row, k, rel_targets(rv, row[k]), tl);
        let v = choose|v: int| 0 <= v < lastsub.len() && lastsub[v] == row.update(k, tl);
        assert((pre + lastsub)[pre.len() + v] == row.update(k, tl));
    } else {
        assert(rows.drop_last()[w] == row);
        lemma_expand_rows_member(rows.drop_last(), rv, k, row, tl);
        let v = choose|v: int| 0 <= v < pre.len() && pre[v] == row.update(k, tl);
        assert((pre + lastsub)[v] == row.update(k, tl));
    }
}

/// A present row, with every slot from `k` on replaced by an admitted target
/// label, is among the fully expanded configurations.
proof fn lemma_expand_all_member(
    rows: Seq<Seq<Seq<char>>>,
    rv: Seq<(Seq<char>, Seq<Seq<char>>)>,
    k: int,
    d: int,
    row: Seq<Seq<char>>,
    sub: Seq<Seq<char>>,
)
    requires
        rows.contains(row),
        row.len() == d - 1,
        sub.len() == d - 1,
        0 <= k,
        forall|q: int| 0 <= q < k && q < d - 1 ==> sub[q] == row[q],
        forall|q: int|
            k <= q < d - 1 ==> rel_targets(rv, row[q]).contains(#[trigger] sub[q]),
    ensures
        expand_all(rows, rv, k, d).contains(sub),
    decreases d - k,
{
    if k >= d - 1 {
        assert(sub =~= row);
    } else {
        let row2 = row.update(k, sub[k]);
        lemma_expand_rows_member(rows, rv, k, row, sub[k]);
        lemma_expand_all_member(expand_rows(rows, rv, k), rv, k + 1, d, row2, sub);
    }
}

/// Canonical forms of present configurations are among the canonical forms.
proof fn lemma_sort_all_member(rows: Seq<Seq<Seq<char>>>, c: Seq<Seq<char>>)
    requires
        rows.contains(c),
    ensures
        sort_all(rows).contains(sort_labels_spec(c)),
    decreases rows.len(),
{
    let w = choose|w: int| 0 <= w < rows.len() && rows[w] == c;
    if w == rows.len() - 1 {
        assert(sort_all(rows).last() == sort_labels_spec(c));
    } else {
        assert(rows.drop_last()[w] == c);
        lemma_sort_all_member(rows.drop_last(), c);
        let pre = sort_all(rows.drop_last());
        let v = choose|v: int| 0 <= v < pre.len() && pre[v] == sort_labels_spec(c);
        assert(sort_all(rows)[v] == sort_labels_spec(c));
    }
}

/// Soundness of an accepted addition: when the checker accepts the pair
/// `(s, t)`, then for every passive source configuration that contains `s`,
/// reduced by one occurrence of `s`, every substitution of the remaining
/// slots by target labels that the extended relation admits lies, in
/// canonical form, among the passive target configurations reduced by one
/// occurrence of `t`.
pub proof fn lemma_check_accept_sound(
    rv: Seq<(Seq<char>, Seq<Seq<char>>)>,
    s: Seq<char>,
    t: Seq<char>,
    ps: Seq<Seq<Seq<char>>>,
    pt: Seq<Seq<Seq<char>>>,
    d: int,
    pi: int,
    sub: Seq<Seq<char>>,
)
    requires
        spec_check_accepts(rv, s, t, ps, pt, d),
        rows_arity(ps, d),
        d >= 1,
        0 <= pi < ps.len(),
        cfg_index_of(ps[pi], s) < ps[pi].len(),
        sub.len() == d - 1,
        forall|q: int|
            0 <= q < d - 1 ==> rel_targets(
                spec_rel_insert(rv, s, t),
                swap_removed(ps[pi], cfg_index_of(ps[pi], s))[q],
            ).contains(#[trigger] sub[q]),
    ensures
        reduce_targets(pt, t).contains(sort_labels_spec(sub)),
{
    let rv2 = spec_rel_insert(rv, s, t);
    let reduced = swap_removed(ps[pi], cfg_index_of(ps[pi], s));
    lemma_cfg_index_of_bounds(ps[pi], s, 0);
    assert(ps[pi].len() == d);
    assert(reduced.len() == d - 1);
    lemma_reduce_sources_member(ps, s, pi);
    lemma_expand_all_member(reduce_sources(ps, s), rv2, 0, d, reduced, sub);
    lemma_sort_all_member(expand_all(reduce_sources(ps, s), rv2, 0, d), sub);
    let generated = sort_all(expand_all(reduce_sources(ps, s), rv2, 0, d));
    let w = choose|w: int| 0 <= w < generated.len() && generated[w] == sort_labels_spec(sub);
    assert(cfgs_subset(generated, reduce_targets(pt, t)));
    assert(reduce_targets(pt, t).contains(generated[w]));
}

} // verus!
