//! The candidate label relation: a mapping from source labels to the sets of
//! target labels they may be sent to.
//!
//! The relation grows by copy-on-extend only: extending never mutates the
//! given value, so a rejected search branch leaves no trace.  Entries are kept
//! as an association list with pairwise-distinct keys; each entry's target
//! list acts as a set.

use vstd::prelude::*;

use crate::order::{clone_cfg, clone_label, label_eq, Label};

verus! {

/// A partial, possibly one-to-many mapping from source labels to target labels.
pub struct Relation {
    pub entries: Vec<(Label, Vec<Label>)>,
}

impl View for Relation {
    type V = Seq<(Seq<char>, Seq<Seq<char>>)>;

    open spec fn view(&self) -> Seq<(Seq<char>, Seq<Seq<char>>)> {
        self.entries.deep_view()
    }
}

/// The first position at or after `i` whose entry carries the key `l`, or
/// `rv.len()` when there is none.
pub open spec fn rel_key_index_from(
    rv: Seq<(Seq<char>, Seq<Seq<char>>)>,
    l: Seq<char>,
    i: int,
) -> int
    decreases rv.len() - i,
{
    if i < 0 || i >= rv.len() {
        rv.len() as int
    } else if rv[i].0 == l {
        i
    } else {
        rel_key_index_from(rv, l, i + 1)
    }
}

/// The position of the entry for key `l`, or `rv.len()` when `l` is unmapped.
pub open spec fn rel_key_index(rv: Seq<(Seq<char>, Seq<Seq<char>>)>, l: Seq<char>) -> int {
    rel_key_index_from(rv, l, 0)
}

/// The target labels that the relation admits for `l`; empty when `l` is
/// unmapped.
pub open spec fn rel_targets(rv: Seq<(Seq<char>, Seq<Seq<char>>)>, l: Seq<char>) -> Seq<Seq<char>> {
    let k = rel_key_index(rv, l);
    if k < rv.len() {
        rv[k].1
    } else {
        Seq::empty()
    }
}

/// The relation admits the pair `(s, t)`.
pub open spec fn rel_maps(rv: Seq<(Seq<char>, Seq<Seq<char>>)>, s: Seq<char>, t: Seq<char>) -> bool {
    rel_targets(rv, s).contains(t)
}

/// The relation extended by the pair `(s, t)`: `t` joins the target list of
/// `s`, or a fresh entry is appended when `s` is unmapped.
pub open spec fn spec_rel_insert(
    rv: Seq<(Seq<char>, Seq<Seq<char>>)>,
    s: Seq<char>,
    t: Seq<char>,
) -> Seq<(Seq<char>, Seq<Seq<char>>)> {
    let k = rel_key_index(rv, s);
    if k < rv.len() {
        rv.update(k, (s, rv[k].1.push(t)))
    } else {
        rv.push((s, seq![t]))
    }
}

/// Keys are pairwise distinct, so an entry's target list is the whole image
/// set of its key.
pub open spec fn rel_wf(rv: Seq<(Seq<char>, Seq<Seq<char>>)>) -> bool {
    forall|i: int, j: int| 0 <= i < j < rv.len() ==> rv[i].0 != rv[j].0
}

/// Extending a well-formed relation keeps it well-formed.
pub proof fn lemma_rel_insert_wf(rv: Seq<(Seq<char>, Seq<Seq<char>>)>, s: Seq<char>, t: Seq<char>)
    requires
        rel_wf(rv),
    ensures
        rel_wf(spec_rel_insert(rv, s, t)),
{
    let k = rel_key_index(rv, s);
    lemma_rel_key_index_bounds(rv, s, 0);
    if k < rv.len() {
        let rv2 = rv.update(k, (s, rv[k].1.push(t)));
        assert(rv[k].0 == s);
        assert forall|i: int, j: int| 0 <= i < j < rv2.len() implies rv2[i].0 != rv2[j].0 by {
            assert(rv[i].0 != rv[j].0);
        }
    } else {
        let rv2 = rv.push((s, seq![t]));
        assert forall|i: int, j: int| 0 <= i < j < rv2.len() implies rv2[i].0 != rv2[j].0 by {
            if j == rv.len() {
                lemma_rel_key_index_none(rv, s, 0, i);
            } else {
                assert(rv[i].0 != rv[j].0);
            }
        }
    }
}

/// `rel_key_index_from` lands on an entry with the key, or past the end.
pub proof fn lemma_rel_key_index_bounds(rv: Seq<(Seq<char>, Seq<Seq<char>>)>, l: Seq<char>, i: int)
    requires
        0 <= i <= rv.len(),
    ensures
        i <= rel_key_index_from(rv, l, i) <= rv.len(),
        rel_key_index_from(rv, l, i) < rv.len() ==> rv[rel_key_index_from(rv, l, i)].0 == l,
    decreases rv.len() - i,
{
    if i < rv.len() && rv[i].0 != l {
        lemma_rel_key_index_bounds(rv, l, i + 1);
    }
}

/// When the search runs past the end, no position from `i` on carries the key.
pub proof fn lemma_rel_key_index_none(
    rv: Seq<(Seq<char>, Seq<Seq<char>>)>,
    l: Seq<char>,
    i: int,
    j: int,
)
    requires
        0 <= i <= j < rv.len(),
        rel_key_index_from(rv, l, i) == rv.len(),
    ensures
        rv[j].0 != l,
    decreases rv.len() - i,
{
    if i < j {
        lemma_rel_key_index_none(rv, l, i + 1, j);
    }
}

/// Finds the entry for `s`, returning `rel.entries.len()` when there is none.
fn rel_find(rel: &Relation, s: &Label) -> (k: usize)
    ensures
        k as int == rel_key_index(rel@, s@),
        k <= rel.entries.len(),
{
    let mut k: usize = 0;
    while k < rel.entries.len()
        invariant
            0 <= k <= rel.entries.len(),
            rel_key_index(rel@, s@) == rel_key_index_from(rel@, s@, k as int),
        decreases rel.entries.len() - k,
    {
        if label_eq(&rel.entries[k].0, s) {
            proof {
                assert(rel@[k as int].0 == rel.entries@[k as int].0@);
            }
            return k;
        }
        proof {
            assert(rel@[k as int].0 == rel.entries@[k as int].0@);
        }
        k = k + 1;
    }
    k
}

impl Relation {
    /// The empty relation.
    pub fn empty() -> (r: Relation)
        ensures
            r@ == Seq::<(Seq<char>, Seq<Seq<char>>)>::empty(),
            rel_wf(r@),
    {
        let r = Relation { entries: Vec::new() };
        proof {
            assert(r@ =~= Seq::<(Seq<char>, Seq<Seq<char>>)>::empty());
        }
        r
    }

    /// Whether the relation already admits the pair `(s, t)`.
    pub fn maps(&self, s: &Label, t: &Label) -> (r: bool)
        ensures
            r == rel_maps(self@, s@, t@),
    {
        let k = rel_find(self, s);
        proof {
            lemma_rel_key_index_bounds(self@, s@, 0);
        }
        if k == self.entries.len() {
            proof {
                assert(!rel_targets(self@, s@).contains(t@));
            }
            return false;
        }
        let ts = &self.entries[k].1;
        proof {
            assert(self@[k as int].1 == ts.deep_view());
        }
        let mut i: usize = 0;
        while i < ts.len()
            invariant
                0 <= i <= ts.len(),
                self@[k as int].1 == ts.deep_view(),
                k as int == rel_key_index(self@, s@),
                k < self.entries.len(),
                ts == &self.entries[k as int].1,
                forall|j: int| 0 <= j < i ==> ts.deep_view()[j] != t@,
            decreases ts.len() - i,
        {
            if label_eq(&ts[i], t) {
                proof {
                    assert(ts.deep_view()[i as int] == t@);
                    assert(rel_targets(self@, s@).contains(t@));
                }
                return true;
            }
            i = i + 1;
        }
        proof {
            assert(!rel_targets(self@, s@).contains(t@));
        }
        false
    }

    /// The target labels admitted for `l`, or `None` when `l` is unmapped.
    pub fn targets<'a>(&'a self, l: &Label) -> (r: Option<&'a Vec<Label>>)
        ensures
            match r {
                Some(v) => v.deep_view() == rel_targets(self@, l@),
                None => rel_targets(self@, l@) == Seq::<Seq<char>>::empty(),
            },
    {
        let k = rel_find(self, l);
        proof {
            lemma_rel_key_index_bounds(self@, l@, 0);
        }
        if k < self.entries.len() {
            let v = &self.entries[k].1;
            proof {
                assert(self@[k as int].1 == v.deep_view());
            }
            Some(v)
        } else {
            None
        }
    }

    /// A copy of the relation with the pair `(s, t)` added.  The given
    /// relation is left untouched, so a failed branch can discard the copy.
    pub fn insert_pair(&self, s: &Label, t: &Label) -> (r: Relation)
        ensures
            r@ == spec_rel_insert(self@, s@, t@),
            rel_wf(self@) ==> rel_wf(r@),
    {
        proof {
            if rel_wf(self@) {
                lemma_rel_insert_wf(self@, s@, t@);
            }
        }
        let k = rel_find(self, s);
        proof {
            lemma_rel_key_index_bounds(self@, s@, 0);
        }
        let mut entries: Vec<(Label, Vec<Label>)> = Vec::new();
        let mut j: usize = 0;
        while j < self.entries.len()
            invariant
                0 <= j <= self.entries.len(),
                k as int == rel_key_index(self@, s@),
                k <= self.entries.len(),
                k < self.entries.len() ==> self@[k as int].0 == s@,
                entries@.len() == j,
                forall|i: int|
                    0 <= i < j ==> (#[trigger] entries@[i]).deep_view() == (if i == k as int {
                        (s@, self@[k as int].1.push(t@))
                    } else {
                        self@[i]
                    }),
            decreases self.entries.len() - j,
        {
            let ghost pre = entries@;
            if j == k {
                let mut ts = clone_cfg(&self.entries[j].1);
                proof {
                    assert(ts.deep_view() == self@[j as int].1);
                }
                ts.push(clone_label(t));
                proof {
                    assert(ts.deep_view() =~= self@[j as int].1.push(t@));
                }
                let sc = clone_label(s);
                proof {
                    assert((sc, ts).deep_view() =~~= (s@, self@[k as int].1.push(t@)));
                }
                entries.push((sc, ts));
            } else {
                let key = clone_label(&self.entries[j].0);
                let ts = clone_cfg(&self.entries[j].1);
                proof {
                    assert(self@[j as int] =~~= (
                        self.entries@[j as int].0@,
                        self.entries@[j as int].1.deep_view(),
                    ));
                    assert((key, ts).deep_view() =~~= self@[j as int]);
                }
                entries.push((key, ts));
            }
            proof {
                assert forall|i: int| 0 <= i < j implies (#[trigger] entries@[i]).deep_view()
                    == pre[i].deep_view() by {
                    assert(entries@[i] == pre[i]);
                }
            }
            j = j + 1;
        }
        if k == self.entries.len() {
            let mut ts: Vec<Label> = Vec::new();
            ts.push(clone_label(t));
            proof {
                assert(ts.deep_view() =~= seq![t@]);
            }
            let ghost pre = entries@;
            let sc = clone_label(s);
            proof {
                assert((sc, ts).deep_view() =~~= (s@, seq![t@]));
            }
            entries.push((sc, ts));
            proof {
                assert forall|i: int| 0 <= i < pre.len() implies (#[trigger] entries@[i]).deep_view()
                    == pre[i].deep_view() by {
                    assert(entries@[i] == pre[i]);
                }
            }
        }
        let r = Relation { entries };
        proof {
            let target = spec_rel_insert(self@, s@, t@);
            assert forall|i: int| 0 <= i < entries@.len() implies r@[i] == target[i] by {
                assert(r@[i] == entries@[i].deep_view());
            }
            assert(r@ =~~= target);
        }
        r
    }
}

} // verus!
