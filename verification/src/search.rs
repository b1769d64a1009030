//! The backtracking search for an LCP-map.
//!
//! `try_configurations` walks the work list of active source configurations
//! still needing an image, trying each active target configuration in input
//! order; `try_permutations` assigns the labels of the current source
//! configuration to the labels of the candidate target configuration one by
//! one, consuming target labels without replacement and pruning through the
//! compatibility checker.  The first complete, checker-consistent assignment
//! wins; exploration order is fixed, so the result is a function of the
//! inputs alone.

use vstd::prelude::*;

use crate::compat::{check, fits, rows_arity, spec_check_accepts, CheckResult};
use crate::order::{clone_cfg, clone_cfg_list, clone_label, push_label, Label};
use crate::relation::{rel_maps, spec_rel_insert, Relation};

verus! {

/// A successful result: each active source configuration paired with the
/// ordered sequence of target labels chosen as its image, aligned positionally
/// with that configuration's labels.
pub struct LcpMap {
    pub entries: Vec<(Vec<Label>, Vec<Label>)>,
}

impl View for LcpMap {
    type V = Seq<(Seq<Seq<char>>, Seq<Seq<char>>)>;

    open spec fn view(&self) -> Seq<(Seq<Seq<char>>, Seq<Seq<char>>)> {
        self.entries.deep_view()
    }
}

/// One step of the label assignment: tries the candidate target labels of
/// `rem` from position `i` on for the current slot of the current source
/// configuration.
pub open spec fn spec_try_labels(
    rv: Seq<(Seq<char>, Seq<Seq<char>>)>,
    ps: Seq<Seq<Seq<char>>>,
    pt: Seq<Seq<Seq<char>>>,
    at: Seq<Seq<Seq<char>>>,
    asr: Seq<Seq<Seq<char>>>,
    rem: Seq<Seq<char>>,
    d: int,
    i: int,
) -> Option<(Seq<(Seq<Seq<char>>, Seq<Seq<char>>)>, Seq<Seq<char>>)>
    decreases asr.len(), 0int, rem.len(), rem.len() - i,
{
    if i < 0 || i >= rem.len() || asr.len() == 0 {
        None
    } else {
        let s = asr.last()[rem.len() - 1];
        let t = rem[i];
        let noop = rel_maps(rv, s, t);
        if noop || spec_check_accepts(rv, s, t, ps, pt, d) {
            let rv2 = if noop {
                rv
            } else {
                spec_rel_insert(rv, s, t)
            };
            match spec_try_permutations(rv2, ps, pt, at, asr, rem.remove(i), d) {
                Some(mp) => Some((mp.0, mp.1.push(t))),
                None => spec_try_labels(rv, ps, pt, at, asr, rem, d, i + 1),
            }
        } else {
            spec_try_labels(rv, ps, pt, at, asr, rem, d, i + 1)
        }
    }
}

/// Assigns the labels of the current source configuration to the remaining
/// labels of the selected target configuration; with none remaining, the
/// configuration is fully covered and the search moves to the next one.
pub open spec fn spec_try_permutations(
    rv: Seq<(Seq<char>, Seq<Seq<char>>)>,
    ps: Seq<Seq<Seq<char>>>,
    pt: Seq<Seq<Seq<char>>>,
    at: Seq<Seq<Seq<char>>>,
    asr: Seq<Seq<Seq<char>>>,
    rem: Seq<Seq<char>>,
    d: int,
) -> Option<(Seq<(Seq<Seq<char>>, Seq<Seq<char>>)>, Seq<Seq<char>>)>
    decreases asr.len(), 0int, rem.len(), rem.len() + 1,
{
    if rem.len() == 0 {
        if asr.len() == 0 {
            Some((Seq::empty(), Seq::empty()))
        } else {
            match spec_try_configurations(rv, ps, pt, at, asr.drop_last(), d) {
                Some(m) => Some((m, Seq::empty())),
                None => None,
            }
        }
    } else {
        spec_try_labels(rv, ps, pt, at, asr, rem, d, 0)
    }
}

/// Tries the active target configurations of `at` from position `j` on as the
/// image of the work list's last source configuration.
pub open spec fn spec_try_targets(
    rv: Seq<(Seq<char>, Seq<Seq<char>>)>,
    ps: Seq<Seq<Seq<char>>>,
    pt: Seq<Seq<Seq<char>>>,
    at: Seq<Seq<Seq<char>>>,
    asr: Seq<Seq<Seq<char>>>,
    d: int,
    j: int,
) -> Option<Seq<(Seq<Seq<char>>, Seq<Seq<char>>)>>
    decreases asr.len(), 1int, 0int, at.len() - j,
{
    if j < 0 || j >= at.len() || asr.len() == 0 {
        None
    } else {
        match spec_try_permutations(rv, ps, pt, at, asr, at[j], d) {
            Some(mp) => Some(mp.0.push((asr.last(), mp.1))),
            None => spec_try_targets(rv, ps, pt, at, asr, d, j + 1),
        }
    }
}

/// The configuration search over the work list `asr`: an empty work list
/// succeeds with the empty map; otherwise the first target configuration that
/// admits a complete assignment supplies the image of the last work-list
/// entry.
pub open spec fn spec_try_configurations(
    rv: Seq<(Seq<char>, Seq<Seq<char>>)>,
    ps: Seq<Seq<Seq<char>>>,
    pt: Seq<Seq<Seq<char>>>,
    at: Seq<Seq<Seq<char>>>,
    asr: Seq<Seq<Seq<char>>>,
    d: int,
) -> Option<Seq<(Seq<Seq<char>>, Seq<Seq<char>>)>>
    decreases asr.len(), 1int, 0int, at.len() + 1,
{
    if asr.len() == 0 {
        Some(Seq::empty())
    } else {
        spec_try_targets(rv, ps, pt, at, asr, d, 0)
    }
}

/// The whole search from the empty relation, with the passive degree taken
/// from the first passive source configuration.
pub open spec fn spec_find_lcp(
    asv: Seq<Seq<Seq<char>>>,
    psv: Seq<Seq<Seq<char>>>,
    atv: Seq<Seq<Seq<char>>>,
    ptv: Seq<Seq<Seq<char>>>,
) -> Option<Seq<(Seq<Seq<char>>, Seq<Seq<char>>)>> {
    spec_try_configurations(
        Seq::empty(),
        psv,
        ptv,
        atv,
        asv,
        psv[0].len() as int,
    )
}

/// Builds the label-for-label assignment of the current source configuration
/// onto the remaining labels of the selected target configuration.
fn try_permutations(
    relation: &Relation,
    passive_source: &Vec<Vec<Label>>,
    passive_target: &Vec<Vec<Label>>,
    active_target: &Vec<Vec<Label>>,
    active_source_remaining: &Vec<Vec<Label>>,
    remaining: &Vec<Label>,
    passive_degree: usize,
) -> (r: Option<(LcpMap, Vec<Label>)>)
    requires
        passive_degree >= 1,
        rows_arity(passive_source.deep_view(), passive_degree as int),
        fits(active_target.deep_view(), active_source_remaining.deep_view()),
        remaining@.len() > 0 ==> active_source_remaining@.len() > 0 && remaining@.len()
            <= active_source_remaining.deep_view().last().len(),
    ensures
        match r {
            Some(mp) => spec_try_permutations(
                relation@,
                passive_source.deep_view(),
                passive_target.deep_view(),
                active_target.deep_view(),
                active_source_remaining.deep_view(),
                remaining.deep_view(),
                passive_degree as int,
            ) == Some((mp.0@, mp.1.deep_view())),
            None => spec_try_permutations(
                relation@,
                passive_source.deep_view(),
                passive_target.deep_view(),
                active_target.deep_view(),
                active_source_remaining.deep_view(),
                remaining.deep_view(),
                passive_degree as int,
            ) is None,
        },
    decreases active_source_remaining@.len(), 0int, remaining@.len(), remaining@.len() + 1int,
{
    let ghost rv = relation@;
    let ghost psd = passive_source.deep_view();
    let ghost ptd = passive_target.deep_view();
    let ghost atd = active_target.deep_view();
    let ghost asrd = active_source_remaining.deep_view();
    let ghost remd = remaining.deep_view();
    let ghost d = passive_degree as int;

    if remaining.is_empty() {
        if active_source_remaining.is_empty() {
            let m = LcpMap { entries: Vec::new() };
            let p: Vec<Label> = Vec::new();
            proof {
                assert(m@ =~= Seq::<(Seq<Seq<char>>, Seq<Seq<char>>)>::empty());
                assert(p.deep_view() =~= Seq::<Seq<char>>::empty());
            }
            return Some((m, p));
        }
        let mut asr2 = clone_cfg_list(active_source_remaining);
        let ghost pre = asr2@;
        let ghost pre_deep = asr2.deep_view();
        let _popped = asr2.pop();
        proof {
            assert forall|q: int| 0 <= q < asr2@.len() implies (#[trigger] asr2@[q]).deep_view()
                == pre_deep.drop_last()[q] by {
                assert(asr2@[q] == pre[q]);
            }
            assert(asr2.deep_view() =~= pre_deep.drop_last());
            assert(fits(atd, asr2.deep_view()));
        }
        match try_configurations(
            relation,
            passive_source,
            passive_target,
            active_target,
            &asr2,
            passive_degree,
        ) {
            Some(m) => {
                let p: Vec<Label> = Vec::new();
                proof {
                    assert(p.deep_view() =~= Seq::<Seq<char>>::empty());
                }
                return Some((m, p));
            },
            None => {
                return None;
            },
        }
    }

    let lc_idx = active_source_remaining.len() - 1;
    let last_cfg = &active_source_remaining[lc_idx];
    proof {
        assert(last_cfg.deep_view() == asrd[lc_idx as int]);
        assert(last_cfg@.len() == last_cfg.deep_view().len());
    }
    let addition_source = &last_cfg[remaining.len() - 1];
    proof {
        assert(addition_source@ == asrd.last()[remd.len() - 1]);
    }

    let mut index: usize = 0;
    loop
        invariant
            passive_degree >= 1,
            rows_arity(psd, d),
            fits(atd, asrd),
            remd.len() > 0,
            asrd.len() > 0,
            remd.len() <= asrd.last().len(),
            rv == relation@,
            psd == passive_source.deep_view(),
            ptd == passive_target.deep_view(),
            atd == active_target.deep_view(),
            asrd == active_source_remaining.deep_view(),
            remd == remaining.deep_view(),
            d == passive_degree as int,
            remaining@.len() == remd.len(),
            0 <= index <= remaining@.len(),
            addition_source@ == asrd.last()[remd.len() - 1],
            spec_try_labels(rv, psd, ptd, atd, asrd, remd, d, 0) == spec_try_labels(
                rv,
                psd,
                ptd,
                atd,
                asrd,
                remd,
                d,
                index as int,
            ),
        decreases remaining@.len() - index,
    {
        if index >= remaining.len() {
            return None;
        }
        let addition_target = &remaining[index];
        proof {
            assert(addition_target@ == remd[index as int]);
        }
        let outcome = check(
            relation,
            addition_source,
            addition_target,
            passive_source,
            passive_target,
            passive_degree,
        );
        match outcome {
            CheckResult::Reject => {
                proof {
                    assert(spec_try_labels(rv, psd, ptd, atd, asrd, remd, d, index as int)
                        == spec_try_labels(rv, psd, ptd, atd, asrd, remd, d, index + 1));
                }
            },
            CheckResult::NoOp => {
                let mut rem2 = clone_cfg(remaining);
                let ghost pre = rem2@;
                let ghost pre_deep = rem2.deep_view();
                let _removed = rem2.remove(index);
                proof {
                    assert forall|q: int| 0 <= q < rem2@.len() implies (#[trigger] rem2@[q]).deep_view()
                        == pre_deep.remove(index as int)[q] by {
                        if q < index {
                            assert(rem2@[q] == pre[q]);
                        } else {
                            assert(rem2@[q] == pre[q + 1]);
                        }
                    }
                    assert(rem2.deep_view() =~= pre_deep.remove(index as int));
                }
                let sub = try_permutations(
                    relation,
                    passive_source,
                    passive_target,
                    active_target,
                    active_source_remaining,
                    &rem2,
                    passive_degree,
                );
                match sub {
                    Some(mp) => {
                        let (m, mut p) = mp;
                        push_label(&mut p, clone_label(addition_target));
                        return Some((m, p));
                    },
                    None => {
                        proof {
                            assert(spec_try_labels(rv, psd, ptd, atd, asrd, remd, d, index as int)
                                == spec_try_labels(rv, psd, ptd, atd, asrd, remd, d, index + 1));
                        }
                    },
                }
            },
            CheckResult::Accept(relation_with_addition) => {
                let mut rem2 = clone_cfg(remaining);
                let ghost pre = rem2@;
                let ghost pre_deep = rem2.deep_view();
                let _removed = rem2.remove(index);
                proof {
                    assert forall|q: int| 0 <= q < rem2@.len() implies (#[trigger] rem2@[q]).deep_view()
                        == pre_deep.remove(index as int)[q] by {
                        if q < index {
                            assert(rem2@[q] == pre[q]);
                        } else {
                            assert(rem2@[q] == pre[q + 1]);
                        }
                    }
                    assert(rem2.deep_view() =~= pre_deep.remove(index as int));
                }
                let sub = try_permutations(
                    &relation_with_addition,
                    passive_source,
                    passive_target,
                    active_target,
                    active_source_remaining,
                    &rem2,
                    passive_degree,
                );
                match sub {
                    Some(mp) => {
                        let (m, mut p) = mp;
                        push_label(&mut p, clone_label(addition_target));
                        return Some((m, p));
                    },
                    None => {
                        proof {
                            assert(spec_try_labels(rv, psd, ptd, atd, asrd, remd, d, index as int)
                                == spec_try_labels(rv, psd, ptd, atd, asrd, remd, d, index + 1));
                        }
                    },
                }
            },
        }
        index = index + 1;
    }
}

/// Finds an image for every configuration still on the work list, trying each
/// active target configuration in input order for the last entry.
fn try_configurations(
    relation: &Relation,
    passive_source: &Vec<Vec<Label>>,
    passive_target: &Vec<Vec<Label>>,
    active_target: &Vec<Vec<Label>>,
    active_source_remaining: &Vec<Vec<Label>>,
    passive_degree: usize,
) -> (r: Option<LcpMap>)
    requires
        passive_degree >= 1,
        rows_arity(passive_source.deep_view(), passive_degree as int),
        fits(active_target.deep_view(), active_source_remaining.deep_view()),
    ensures
        match r {
            Some(m) => spec_try_configurations(
                relation@,
                passive_source.deep_view(),
                passive_target.deep_view(),
                active_target.deep_view(),
                active_source_remaining.deep_view(),
                passive_degree as int,
            ) == Some(m@),
            None => spec_try_configurations(
                relation@,
                passive_source.deep_view(),
                passive_target.deep_view(),
                active_target.deep_view(),
                active_source_remaining.deep_view(),
                passive_degree as int,
            ) is None,
        },
    decreases active_source_remaining@.len(), 1int, 0int, active_target@.len() + 1int,
{
    let ghost rv = relation@;
    let ghost psd = passive_source.deep_view();
    let ghost ptd = passive_target.deep_view();
    let ghost atd = active_target.deep_view();
    let ghost asrd = active_source_remaining.deep_view();
    let ghost d = passive_degree as int;

    if active_source_remaining.is_empty() {
        let m = LcpMap { entries: Vec::new() };
        proof {
            assert(m@ =~= Seq::<(Seq<Seq<char>>, Seq<Seq<char>>)>::empty());
        }
        return Some(m);
    }

    let mut j: usize = 0;
    loop
        invariant
            passive_degree >= 1,
            rows_arity(psd, d),
            fits(atd, asrd),
            asrd.len() > 0,
            rv == relation@,
            psd == passive_source.deep_view(),
            ptd == passive_target.deep_view(),
            atd == active_target.deep_view(),
            asrd == active_source_remaining.deep_view(),
            d == passive_degree as int,
            0 <= j <= active_target@.len(),
            spec_try_targets(rv, psd, ptd, atd, asrd, d, 0) == spec_try_targets(
                rv,
                psd,
                ptd,
                atd,
                asrd,
                d,
                j as int,
            ),
        decreases active_target@.len() - j,
    {
        if j >= active_target.len() {
            return None;
        }
        let selected = &active_target[j];
        proof {
            assert(selected.deep_view() == atd[j as int]);
            assert(atd[j as int].len() <= asrd.last().len());
        }
        match try_permutations(
            relation,
            passive_source,
            passive_target,
            active_target,
            active_source_remaining,
            selected,
            passive_degree,
        ) {
            Some(mp) => {
                let (m, p) = mp;
                let mut m2 = m;
                let key = clone_cfg(&active_source_remaining[active_source_remaining.len() - 1]);
                proof {
                    assert(key.deep_view() == asrd[asrd.len() - 1]);
                }
                let ghost mpre = m2.entries@;
                let ghost mpre_deep = m2.entries.deep_view();
                let ghost kd = key.deep_view();
                let ghost pd = p.deep_view();
                m2.entries.push((key, p));
                proof {
                    assert forall|q: int| 0 <= q < mpre.len() implies (#[trigger] m2.entries@[q]).deep_view()
                        == mpre_deep[q] by {
                        assert(m2.entries@[q] == mpre[q]);
                    }
                    assert(m2.entries@[mpre.len() as int].deep_view() =~~= (kd, pd));
                    assert(m2@ =~= mpre_deep.push((kd, pd)));
                }
                return Some(m2);
            },
            None => {
                proof {
                    assert(spec_try_targets(rv, psd, ptd, atd, asrd, d, j as int)
                        == spec_try_targets(rv, psd, ptd, atd, asrd, d, j + 1));
                }
            },
        }
        j = j + 1;
    }
}

/// Decides whether an LCP-map exists from the source problem to the target
/// problem, given the four normalized configuration collections.
///
/// Returns the first map found in the fixed exploration order, or `None` when
/// no label assignment is consistent: the result is exactly `spec_find_lcp` of
/// the inputs, so two runs on equal inputs return equal results.
pub fn find_lcp(
    active_source: &[Vec<Label>],
    passive_source: &[Vec<Label>],
    active_target: &[Vec<Label>],
    passive_target: &[Vec<Label>],
) -> (r: Option<LcpMap>)
    requires
        passive_source@.len() > 0,
        passive_source.deep_view()[0].len() >= 1,
        rows_arity(passive_source.deep_view(), passive_source.deep_view()[0].len() as int),
        fits(active_target.deep_view(), active_source.deep_view()),
    ensures
        match r {
            Some(m) => spec_find_lcp(
                active_source.deep_view(),
                passive_source.deep_view(),
                active_target.deep_view(),
                passive_target.deep_view(),
            ) == Some(m@),
            None => spec_find_lcp(
                active_source.deep_view(),
                passive_source.deep_view(),
                active_target.deep_view(),
                passive_target.deep_view(),
            ) is None,
        },
{
    let asv = cfgs_of_slice(active_source);
    let psv = cfgs_of_slice(passive_source);
    let atv = cfgs_of_slice(active_target);
    let ptv = cfgs_of_slice(passive_target);
    proof {
        assert(psv@.len() == psv.deep_view().len());
        assert(passive_source@.len() == passive_source.deep_view().len());
    }
    let first = &psv[0];
    proof {
        assert(first.deep_view() == psv.deep_view()[0]);
    }
    let passive_degree = first.len();
    let rel = Relation::empty();
    try_configurations(&rel, &psv, &ptv, &atv, &asv, passive_degree)
}

/// Copies a borrowed slice of configurations into an owned collection.
fn cfgs_of_slice(s: &[Vec<Label>]) -> (r: Vec<Vec<Label>>)
    ensures
        r.deep_view() == s.deep_view(),
{
    let mut r: Vec<Vec<Label>> = Vec::new();
    let mut i: usize = 0;
    while i < s.len()
        invariant
            0 <= i <= s@.len(),
            r.deep_view().len() == i,
            forall|j: int| 0 <= j < i ==> r.deep_view()[j] == s.deep_view()[j],
        decreases s@.len() - i,
    {
        r.push(clone_cfg(&s[i]));
        i = i + 1;
    }
    proof {
        assert(r.deep_view() =~= s.deep_view());
    }
    r
}

} // verus!
