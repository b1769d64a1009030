//! Lexicographic order on labels and sorting of a configuration's labels.
//!
//! A label is an atomic identifier, carried as a `String`.  Labels are ordered
//! lexicographically by character code, which agrees with the order of Rust
//! strings on their UTF-8 bytes.  A configuration is in canonical form when its
//! labels are sorted under this order.

use vstd::prelude::*;

verus! {

/// A label: an opaque, comparable atomic identifier.
pub type Label = String;

/// Lexicographic comparison of the suffixes of `a` and `b` that start at `i`.
pub open spec fn lex_leq_from(a: Seq<char>, b: Seq<char>, i: int) -> bool
    decreases a.len() - i,
{
    if i >= a.len() {
        true
    } else if i >= b.len() {
        false
    } else if a[i] != b[i] {
        (a[i] as u32) < (b[i] as u32)
    } else {
        lex_leq_from(a, b, i + 1)
    }
}

/// `a` comes before `b` (or equals it) in lexicographic order by character code.
pub open spec fn lex_leq(a: Seq<char>, b: Seq<char>) -> bool {
    lex_leq_from(a, b, 0)
}

/// Comparing two labels decides `lex_leq` on their character sequences.
pub fn label_le(a: &Label, b: &Label) -> (r: bool)
    ensures
        r == lex_leq(a@, b@),
{
    let a_len = a.as_str().unicode_len();
    let b_len = b.as_str().unicode_len();
    let mut i: usize = 0;
    loop
        invariant
            a_len == a@.len(),
            b_len == b@.len(),
            0 <= i <= a_len,
            lex_leq(a@, b@) == lex_leq_from(a@, b@, i as int),
        decreases a_len - i,
    {
        if i >= a_len {
            return true;
        }
        if i >= b_len {
            return false;
        }
        let ca = a.as_str().get_char(i);
        let cb = b.as_str().get_char(i);
        if ca != cb {
            return (ca as u32) < (cb as u32);
        }
        i = i + 1;
    }
}

/// Label equality decides equality of the character sequences.
pub fn label_eq(a: &Label, b: &Label) -> (r: bool)
    ensures
        r == (a@ == b@),
{
    *a == *b
}

/// Copies a label.
pub fn clone_label(l: &Label) -> (r: Label)
    ensures
        r@ == l@,
{
    l.clone()
}

/// Copies a configuration.
pub fn clone_cfg(c: &Vec<Label>) -> (r: Vec<Label>)
    ensures
        r.deep_view() == c.deep_view(),
{
    let mut r: Vec<Label> = Vec::new();
    let mut i: usize = 0;
    while i < c.len()
        invariant
            0 <= i <= c.len(),
            r.deep_view().len() == i,
            forall|j: int| 0 <= j < i ==> r.deep_view()[j] == c.deep_view()[j],
        decreases c.len() - i,
    {
        r.push(clone_label(&c[i]));
        i = i + 1;
    }
    proof {
        assert(r.deep_view() =~= c.deep_view());
    }
    r
}

/// Copies a list of configurations.
pub fn clone_cfg_list(l: &Vec<Vec<Label>>) -> (r: Vec<Vec<Label>>)
    ensures
        r.deep_view() == l.deep_view(),
{
    let mut r: Vec<Vec<Label>> = Vec::new();
    let mut i: usize = 0;
    while i < l.len()
        invariant
            0 <= i <= l.len(),
            r.deep_view().len() == i,
            forall|j: int| 0 <= j < i ==> r.deep_view()[j] == l.deep_view()[j],
        decreases l.len() - i,
    {
        r.push(clone_cfg(&l[i]));
        i = i + 1;
    }
    proof {
        assert(r.deep_view() =~= l.deep_view());
    }
    r
}

/// Appends a label, extending the deep view by the label's characters.
pub fn push_label(list: &mut Vec<Label>, l: Label)
    ensures
        final(list).deep_view() == old(list).deep_view().push(l@),
{
    let ghost pre = list@;
    let ghost pre_deep = list.deep_view();
    let ghost lv = l@;
    list.push(l);
    proof {
        assert forall|q: int| 0 <= q < pre.len() implies (#[trigger] list@[q]).deep_view()
            == pre_deep[q] by {
            assert(list@[q] == pre[q]);
        }
        assert(list@[pre.len() as int].deep_view() == lv);
        assert(list.deep_view() =~= pre_deep.push(lv));
    }
}

/// Appends a configuration, extending the deep view by its label sequence.
pub fn push_cfg(list: &mut Vec<Vec<Label>>, c: Vec<Label>)
    ensures
        final(list).deep_view() == old(list).deep_view().push(c.deep_view()),
{
    let ghost pre = list@;
    let ghost pre_deep = list.deep_view();
    let ghost cd = c.deep_view();
    list.push(c);
    proof {
        assert forall|q: int| 0 <= q < pre.len() implies (#[trigger] list@[q]).deep_view()
            == pre_deep[q] by {
            assert(list@[q] == pre[q]);
        }
        assert(list@[pre.len() as int].deep_view() == cd);
        assert(list.deep_view() =~= pre_deep.push(cd));
    }
}

/// The labels of a configuration in canonical form: `x` inserted into the
/// already-sorted `s`, before the first entry that does not precede `x`.
pub open spec fn insert_label_sorted(s: Seq<Seq<char>>, x: Seq<char>) -> Seq<Seq<char>>
    decreases s.len(),
{
    if s.len() == 0 {
        seq![x]
    } else if lex_leq(x, s[0]) {
        seq![x] + s
    } else {
        seq![s[0]] + insert_label_sorted(s.drop_first(), x)
    }
}

/// Sorting a label sequence, defined by insertion from the left.
pub open spec fn sort_labels_spec(c: Seq<Seq<char>>) -> Seq<Seq<char>>
    decreases c.len(),
{
    if c.len() == 0 {
        Seq::empty()
    } else {
        insert_label_sorted(sort_labels_spec(c.drop_last()), c.last())
    }
}

/// Inserting at the first position whose entry does not precede `x` realizes
/// `insert_label_sorted`.
proof fn lemma_insert_label_at(s: Seq<Seq<char>>, x: Seq<char>, k: int)
    requires
        0 <= k <= s.len(),
        forall|j: int| 0 <= j < k ==> !lex_leq(x, s[j]),
        k < s.len() ==> lex_leq(x, s[k]),
    ensures
        insert_label_sorted(s, x) == s.insert(k, x),
    decreases s.len(),
{
    if s.len() == 0 {
        assert(insert_label_sorted(s, x) =~= s.insert(0, x));
    } else if k == 0 {
        assert(insert_label_sorted(s, x) =~= s.insert(0, x));
    } else {
        lemma_insert_label_at(s.drop_first(), x, k - 1);
        assert(seq![s[0]] + s.drop_first().insert(k - 1, x) =~= s.insert(k, x));
    }
}

/// The first position in `v` whose label does not precede `x`.
fn find_insert_pos(v: &Vec<Label>, x: &Label) -> (k: usize)
    ensures
        0 <= k <= v.len(),
        forall|j: int| 0 <= j < k ==> !lex_leq(x@, v.deep_view()[j]),
        k < v.len() ==> lex_leq(x@, v.deep_view()[k as int]),
{
    let mut k: usize = 0;
    while k < v.len()
        invariant
            0 <= k <= v.len(),
            forall|j: int| 0 <= j < k ==> !lex_leq(x@, v.deep_view()[j]),
        decreases v.len() - k,
    {
        if label_le(x, &v[k]) {
            return k;
        }
        k = k + 1;
    }
    k
}

/// Inserts `x` into the sorted label vector `v`, keeping it sorted.
pub fn insert_label(v: &mut Vec<Label>, x: Label)
    ensures
        final(v).deep_view() == insert_label_sorted(old(v).deep_view(), x@),
{
    let k = find_insert_pos(v, &x);
    let ghost dv = v.deep_view();
    let ghost xv = x@;
    proof {
        lemma_insert_label_at(dv, xv, k as int);
    }
    v.insert(k, x);
    proof {
        assert(v.deep_view() =~= dv.insert(k as int, xv));
    }
}

/// Sorts the labels of a configuration into canonical form.
pub fn sort_labels(c: &Vec<Label>) -> (r: Vec<Label>)
    ensures
        r.deep_view() == sort_labels_spec(c.deep_view()),
{
    let mut r: Vec<Label> = Vec::new();
    let mut i: usize = 0;
    while i < c.len()
        invariant
            0 <= i <= c.len(),
            r.deep_view() == sort_labels_spec(c.deep_view().take(i as int)),
        decreases c.len() - i,
    {
        insert_label(&mut r, clone_label(&c[i]));
        proof {
            let dv = c.deep_view();
            assert(dv.take(i + 1).drop_last() =~= dv.take(i as int));
            assert(dv.take(i + 1).last() == dv[i as int]);
        }
        i = i + 1;
    }
    proof {
        assert(c.deep_view().take(c.deep_view().len() as int) =~= c.deep_view());
    }
    r
}

} // verus!
