//! Deterministic ordering of report entries: every collection of a change
//! set is sorted by its destination (primary) path, with a secondary path
//! breaking ties where two entries share a destination.

use vstd::prelude::*;

use crate::paths::{
    lemma_path_le_total, lemma_path_le_transitive, lemma_path_lt_transitive,
    lemma_path_lt_trichotomy, path_le, path_le_exec, path_lt,
};
use crate::records::{ChangedFile, CopiedFile, FileDescription, MissingFile, MovedFile};

verus! {

/// Order on (primary, secondary) path pairs: by the primary path, ties
/// broken by the secondary.
pub open spec fn pair_le(a: (Seq<char>, Seq<char>), b: (Seq<char>, Seq<char>)) -> bool {
    path_lt(a.0, b.0) || (a.0 == b.0 && path_le(a.1, b.1))
}

/// The pair order is total.
pub proof fn lemma_pair_le_total(a: (Seq<char>, Seq<char>), b: (Seq<char>, Seq<char>))
    ensures
        pair_le(a, b) || pair_le(b, a),
        pair_le(a, b) && pair_le(b, a) ==> a.0 == b.0 && a.1 == b.1,
{
    lemma_path_lt_trichotomy(a.0, b.0);
    lemma_path_le_total(a.1, b.1);
}

/// The pair order is transitive.
pub proof fn lemma_pair_le_transitive(
    a: (Seq<char>, Seq<char>),
    b: (Seq<char>, Seq<char>),
    c: (Seq<char>, Seq<char>),
)
    requires
        pair_le(a, b),
        pair_le(b, c),
    ensures
        pair_le(a, c),
{
    if path_lt(a.0, b.0) && path_lt(b.0, c.0) {
        lemma_path_lt_transitive(a.0, b.0, c.0);
    } else if a.0 == b.0 && b.0 == c.0 {
        lemma_path_le_transitive(a.1, b.1, c.1);
    }
}

/// An entry that reports order by a primary path, with a secondary path as
/// tie-breaker.
pub trait PathOrdered: Sized {
    /// The (primary, secondary) key the entry sorts by.
    spec fn sort_key(&self) -> (Seq<char>, Seq<char>);

    /// Compares two entries by their sort keys.
    fn key_le(&self, other: &Self) -> (r: bool)
        ensures
            r == pair_le(self.sort_key(), other.sort_key()),
    ;
}

/// The order on entries given by their sort keys.
pub open spec fn entry_le<T: PathOrdered>(a: T, b: T) -> bool {
    pair_le(a.sort_key(), b.sort_key())
}

/// Whether `s` is sorted by the entry order.
pub open spec fn sorted_entries<T: PathOrdered>(s: Seq<T>) -> bool {
    forall|i: int, j: int| 0 <= i < j < s.len() ==> entry_le(#[trigger] s[i], #[trigger] s[j])
}

/// Sorts entries by their keys: the result is a sorted permutation of the
/// input.
pub fn sort_entries<T: PathOrdered>(v: Vec<T>) -> (r: Vec<T>)
    ensures
        r@.to_multiset() == v@.to_multiset(),
        sorted_entries(r@),
{
    broadcast use vstd::seq_lib::to_multiset_insert;
    broadcast use vstd::seq_lib::group_to_multiset_ensures;
    broadcast use vstd::multiset::group_multiset_axioms;
    broadcast use vstd::multiset::lemma_multiset_empty_len;

    let mut src = v;
    let ghost orig = src@;
    let mut out: Vec<T> = Vec::new();
    proof {
        assert(out@.to_multiset().len() == 0);
        assert(out@.to_multiset().add(src@.to_multiset()) =~= orig.to_multiset());
    }
    while src.len() != 0
        invariant
            sorted_entries(out@),
            out@.to_multiset().add(src@.to_multiset()) == orig.to_multiset(),
        decreases src@.len(),
    {
        let ghost pre_src = src@;
        let x = src.pop().unwrap();
        proof {
            assert(pre_src =~= src@.push(x));
            vstd::seq_lib::to_multiset_build(src@, x);
            assert(out@.to_multiset().insert(x).add(src@.to_multiset()) =~= out@.to_multiset().add(
                src@.to_multiset().insert(x),
            ));
        }
        let mut i: usize = 0;
        while i < out.len() && out[i].key_le(&x)
            invariant
                0 <= i <= out@.len(),
                forall|k: int| 0 <= k < i ==> entry_le(#[trigger] out@[k], x),
                sorted_entries(out@),
            decreases out@.len() - i,
        {
            i = i + 1;
        }
        proof {
            if (i as int) < out@.len() {
                lemma_pair_le_total(out@[i as int].sort_key(), x.sort_key());
            }
            let updated = out@.insert(i as int, x);
            assert forall|p: int, q: int| 0 <= p < q < updated.len() implies entry_le(
                #[trigger] updated[p],
                #[trigger] updated[q],
            ) by {
                if q < i {
                } else if p < i && q == i {
                    assert(updated[p] == out@[p]);
                } else if p < i && q > i {
                    assert(updated[p] == out@[p] && updated[q] == out@[q - 1]);
                } else if p == i && q > i {
                    assert(updated[q] == out@[q - 1]);
                    if i as int <= q - 1 < out@.len() {
                        if (q - 1) > i as int || (q - 1) == i as int {
                            assert(entry_le(x, out@[i as int]));
                            if q - 1 > i as int {
                                assert(entry_le(out@[i as int], out@[q - 1]));
                                lemma_pair_le_transitive(
                                    x.sort_key(),
                                    out@[i as int].sort_key(),
                                    out@[q - 1].sort_key(),
                                );
                            }
                        }
                    }
                } else {
                    assert(updated[p] == out@[p - 1] && updated[q] == out@[q - 1]);
                }
            }
        }
        let ghost pre_out = out@;
        out.insert(i, x);
        proof {
            vstd::seq_lib::to_multiset_insert(pre_out, i as int, x);
            assert(out@.to_multiset().add(src@.to_multiset()) =~= pre_out.to_multiset().add(
                src@.to_multiset().insert(x),
            ));
        }
    }
    proof {
        assert(src@.to_multiset().len() == 0);
        assert(out@.to_multiset().add(src@.to_multiset()) =~= out@.to_multiset());
    }
    out
}

/// The element-wise views of a sequence of values.
pub open spec fn view_seq<T: View>(s: Seq<T>) -> Seq<<T as View>::V> {
    s.map_values(|t: T| t@)
}

/// A sequence of views is as long as the sequence it views.
pub broadcast proof fn lemma_view_seq_len<T: View>(s: Seq<T>)
    ensures
        #[trigger] view_seq(s).len() == s.len(),
{
}

/// The view sequence holds each element's view.
pub broadcast proof fn lemma_view_seq_index<T: View>(s: Seq<T>, i: int)
    requires
        0 <= i < s.len(),
    ensures
        #[trigger] view_seq(s)[i] == s[i]@,
{
}

/// Appending an element extends membership by exactly that element.
pub proof fn lemma_push_contains<A>(s: Seq<A>, v: A, x: A)
    ensures
        s.push(v).contains(x) <==> (s.contains(x) || x == v),
{
    if s.contains(x) {
        let i = choose|i: int| 0 <= i < s.len() && s[i] == x;
        assert(s.push(v)[i] == x);
    }
    if x == v {
        assert(s.push(v)[s.len() as int] == x);
    }
    if s.push(v).contains(x) {
        let i = choose|i: int| 0 <= i < s.push(v).len() && s.push(v)[i] == x;
        if i < s.len() {
            assert(s[i] == x);
        }
    }
}

/// A permutation keeps view-level membership.
pub proof fn lemma_permutation_view_contains<T: View>(a: Seq<T>, b: Seq<T>, x: <T as View>::V)
    requires
        a.to_multiset() == b.to_multiset(),
    ensures
        view_seq(a).contains(x) == view_seq(b).contains(x),
{
    broadcast use vstd::seq_lib::group_to_multiset_ensures;
    broadcast use vstd::multiset::group_multiset_axioms;

    if view_seq(a).contains(x) {
        let i = choose|i: int| 0 <= i < view_seq(a).len() && view_seq(a)[i] == x;
        assert(view_seq(a)[i] == a[i]@);
        assert(a.contains(a[i]));
        assert(a.to_multiset().count(a[i]) > 0);
        assert(b.to_multiset().count(a[i]) > 0);
        assert(b.contains(a[i]));
        let j = choose|j: int| 0 <= j < b.len() && b[j] == a[i];
        assert(view_seq(b)[j] == x);
    }
    if view_seq(b).contains(x) {
        let i = choose|i: int| 0 <= i < view_seq(b).len() && view_seq(b)[i] == x;
        assert(view_seq(b)[i] == b[i]@);
        assert(b.contains(b[i]));
        assert(b.to_multiset().count(b[i]) > 0);
        assert(a.to_multiset().count(b[i]) > 0);
        assert(a.contains(b[i]));
        let j = choose|j: int| 0 <= j < a.len() && a[j] == b[i];
        assert(view_seq(a)[j] == x);
    }
}

/// Two sequences sorted by the pair order, with pairwise distinct keys and
/// the same members, are equal: membership, order, and key distinctness
/// leave no freedom.
pub proof fn lemma_sorted_distinct_unique<T>(
    a: Seq<T>,
    b: Seq<T>,
    key: spec_fn(T) -> (Seq<char>, Seq<char>),
)
    requires
        forall|x: T| a.contains(x) <==> b.contains(x),
        forall|i: int, j: int| 0 <= i < j < a.len() ==> pair_le(key(#[trigger] a[i]), key(#[trigger] a[j])),
        forall|i: int, j: int| 0 <= i < j < a.len() ==> key(#[trigger] a[i]) != key(#[trigger] a[j]),
        forall|i: int, j: int| 0 <= i < j < b.len() ==> pair_le(key(#[trigger] b[i]), key(#[trigger] b[j])),
        forall|i: int, j: int| 0 <= i < j < b.len() ==> key(#[trigger] b[i]) != key(#[trigger] b[j]),
    ensures
        a == b,
    decreases a.len(),
{
    if a.len() == 0 {
        if b.len() > 0 {
            assert(b.contains(b[0]));
            assert(a.contains(b[0]));
        }
        assert(a =~= b);
    } else {
        assert(a.contains(a[0]));
        assert(b.contains(a[0]));
        let j = choose|j: int| 0 <= j < b.len() && b[j] == a[0];
        assert(b.contains(b[0]));
        assert(a.contains(b[0]));
        let i = choose|i: int| 0 <= i < a.len() && a[i] == b[0];
        assert(a[0] == b[0]) by {
            if a[0] != b[0] {
                assert(i != 0 && j != 0);
                assert(pair_le(key(a[0]), key(a[i])));
                assert(pair_le(key(b[0]), key(b[j])));
                lemma_pair_le_total(key(a[0]), key(b[0]));
                assert(key(a[0]) == key(b[0]));
                assert(key(a[0]) != key(a[i]));
            }
        }
        let at = a.drop_first();
        let bt = b.drop_first();
        assert forall|x: T| at.contains(x) <==> bt.contains(x) by {
            lemma_tail_contains(a, x, key);
            lemma_tail_contains(b, x, key);
        }
        assert(forall|i: int| 0 <= i < at.len() ==> at[i] == a[i + 1]);
        assert(forall|i: int| 0 <= i < bt.len() ==> bt[i] == b[i + 1]);
        lemma_sorted_distinct_unique(at, bt, key);
        assert(a =~= b) by {
            assert(forall|i: int| 0 < i < a.len() ==> a[i] == at[i - 1]);
            assert(forall|i: int| 0 < i < b.len() ==> b[i] == bt[i - 1]);
        }
    }
}

/// An element of a key-distinct sequence sits in the tail exactly when it is
/// a member other than the head.
proof fn lemma_tail_contains<T>(s: Seq<T>, x: T, key: spec_fn(T) -> (Seq<char>, Seq<char>))
    requires
        s.len() > 0,
        forall|i: int, j: int| 0 <= i < j < s.len() ==> key(#[trigger] s[i]) != key(#[trigger] s[j]),
    ensures
        s.drop_first().contains(x) <==> (s.contains(x) && x != s[0]),
{
    let t = s.drop_first();
    assert(forall|i: int| 0 <= i < t.len() ==> t[i] == s[i + 1]);
    if t.contains(x) {
        let i = choose|i: int| 0 <= i < t.len() && t[i] == x;
        assert(s[i + 1] == x);
        assert(s.contains(x));
        if x == s[0] {
            assert(key(s[0]) != key(s[i + 1]));
        }
    }
    if s.contains(x) && x != s[0] {
        let i = choose|i: int| 0 <= i < s.len() && s[i] == x;
        assert(i != 0);
        assert(t[i - 1] == x);
    }
}

/// A permutation's views are a permutation of the views.
pub proof fn lemma_permutation_view_multiset<T: View>(a: Seq<T>, b: Seq<T>)
    requires
        a.to_multiset() == b.to_multiset(),
    ensures
        view_seq(a).to_multiset() == view_seq(b).to_multiset(),
    decreases a.len(),
{
    broadcast use vstd::seq_lib::group_to_multiset_ensures;
    broadcast use vstd::multiset::group_multiset_axioms;
    broadcast use lemma_view_seq_len;
    broadcast use lemma_view_seq_index;

    if a.len() == 0 {
        assert(a.to_multiset().len() == a.len());
        assert(b.to_multiset().len() == b.len());
        assert(view_seq(a) =~= view_seq(b));
    } else {
        let x = a.last();
        assert(a.contains(x));
        assert(a.to_multiset().count(x) > 0);
        assert(b.to_multiset().count(x) > 0);
        assert(b.contains(x));
        let j = choose|j: int| 0 <= j < b.len() && b[j] == x;
        let a1 = a.drop_last();
        let b1 = b.remove(j);
        assert(a.remove(a.len() - 1) =~= a1);
        vstd::seq_lib::to_multiset_remove(a, a.len() - 1);
        vstd::seq_lib::to_multiset_remove(b, j);
        assert(a1.to_multiset() =~= b1.to_multiset());
        lemma_permutation_view_multiset(a1, b1);
        assert(view_seq(a) =~= view_seq(a1).push(x@));
        assert(view_seq(a).to_multiset() == view_seq(a1).to_multiset().insert(x@)) by {
            vstd::seq_lib::to_multiset_build(view_seq(a1), x@);
        }
        assert(view_seq(b1) =~= view_seq(b).remove(j));
        vstd::seq_lib::to_multiset_remove(view_seq(b), j);
        assert(view_seq(b)[j] == x@);
        assert(view_seq(b).to_multiset().count(x@) > 0) by {
            assert(view_seq(b).contains(x@));
        }
        assert(view_seq(b1).to_multiset().insert(x@) =~= view_seq(b).to_multiset());
    }
}

/// A permutation of a sequence whose elements have pairwise distinct keys
/// again has pairwise distinct keys.
pub proof fn lemma_permutation_distinct_keys<T, K>(a: Seq<T>, b: Seq<T>, key: spec_fn(T) -> K)
    requires
        a.to_multiset() == b.to_multiset(),
        forall|i: int, j: int| 0 <= i < j < a.len() ==> key(#[trigger] a[i]) != key(#[trigger] a[j]),
    ensures
        forall|i: int, j: int| 0 <= i < j < b.len() ==> key(#[trigger] b[i]) != key(#[trigger] b[j]),
{
    broadcast use vstd::seq_lib::group_to_multiset_ensures;
    broadcast use vstd::multiset::group_multiset_axioms;

    assert(a.no_duplicates()) by {
        assert forall|i: int, j: int|
            0 <= i < a.len() && 0 <= j < a.len() && i != j implies a[i] != a[j] by {
            if i < j {
                assert(key(a[i]) != key(a[j]));
            } else {
                assert(key(a[j]) != key(a[i]));
            }
        }
    }
    a.lemma_multiset_has_no_duplicates();
    b.lemma_multiset_has_no_duplicates_conv();
    assert forall|i: int, j: int| 0 <= i < j < b.len() implies key(#[trigger] b[i]) != key(
        #[trigger] b[j],
    ) by {
        if key(b[i]) == key(b[j]) {
            assert(b[i] != b[j]);
            assert(b.contains(b[i]));
            assert(b.contains(b[j]));
            assert(b.to_multiset().count(b[i]) > 0);
            assert(b.to_multiset().count(b[j]) > 0);
            assert(a.to_multiset().count(b[i]) > 0);
            assert(a.to_multiset().count(b[j]) > 0);
            assert(a.contains(b[i]));
            assert(a.contains(b[j]));
            let i1 = choose|k: int| 0 <= k < a.len() && a[k] == b[i];
            let j1 = choose|k: int| 0 <= k < a.len() && a[k] == b[j];
            assert(i1 != j1);
            if i1 < j1 {
                assert(key(a[i1]) != key(a[j1]));
            } else {
                assert(key(a[j1]) != key(a[i1]));
            }
        }
    }
}

/// A permutation keeps membership.
pub proof fn lemma_permutation_contains<T>(a: Seq<T>, b: Seq<T>, x: T)
    requires
        a.to_multiset() == b.to_multiset(),
    ensures
        a.contains(x) == b.contains(x),
{
    broadcast use vstd::seq_lib::group_to_multiset_ensures;
    broadcast use vstd::multiset::group_multiset_axioms;

    if a.contains(x) {
        assert(a.to_multiset().count(x) > 0);
        assert(b.to_multiset().count(x) > 0);
    }
    if b.contains(x) {
        assert(b.to_multiset().count(x) > 0);
        assert(a.to_multiset().count(x) > 0);
    }
}

impl PathOrdered for ChangedFile {
    open spec fn sort_key(&self) -> (Seq<char>, Seq<char>) {
        (self.path@, Seq::empty())
    }

    fn key_le(&self, other: &Self) -> (r: bool)
        ensures
            r == pair_le(self.sort_key(), other.sort_key()),
    {
        path_le_exec(self.path.as_str(), other.path.as_str())
    }
}

impl PathOrdered for MissingFile {
    open spec fn sort_key(&self) -> (Seq<char>, Seq<char>) {
        (self.path@, Seq::empty())
    }

    fn key_le(&self, other: &Self) -> (r: bool)
        ensures
            r == pair_le(self.sort_key(), other.sort_key()),
    {
        path_le_exec(self.path.as_str(), other.path.as_str())
    }
}

impl PathOrdered for FileDescription {
    open spec fn sort_key(&self) -> (Seq<char>, Seq<char>) {
        (self.path@, Seq::empty())
    }

    fn key_le(&self, other: &Self) -> (r: bool)
        ensures
            r == pair_le(self.sort_key(), other.sort_key()),
    {
        path_le_exec(self.path.as_str(), other.path.as_str())
    }
}

impl PathOrdered for MovedFile {
    open spec fn sort_key(&self) -> (Seq<char>, Seq<char>) {
        (self.new@, self.old@)
    }

    fn key_le(&self, other: &Self) -> (r: bool)
        ensures
            r == pair_le(self.sort_key(), other.sort_key()),
    {
        if self.new == other.new {
            proof {
                lemma_path_lt_trichotomy(self.new@, other.new@);
            }
            path_le_exec(self.old.as_str(), other.old.as_str())
        } else {
            proof {
                lemma_path_lt_trichotomy(self.new@, other.new@);
            }
            path_le_exec(self.new.as_str(), other.new.as_str())
        }
    }
}

impl PathOrdered for CopiedFile {
    open spec fn sort_key(&self) -> (Seq<char>, Seq<char>) {
        (self.new@, self.old@)
    }

    fn key_le(&self, other: &Self) -> (r: bool)
        ensures
            r == pair_le(self.sort_key(), other.sort_key()),
    {
        if self.new == other.new {
            proof {
                lemma_path_lt_trichotomy(self.new@, other.new@);
            }
            path_le_exec(self.old.as_str(), other.old.as_str())
        } else {
            proof {
                lemma_path_lt_trichotomy(self.new@, other.new@);
            }
            path_le_exec(self.new.as_str(), other.new.as_str())
        }
    }
}

impl PathOrdered for String {
    open spec fn sort_key(&self) -> (Seq<char>, Seq<char>) {
        (self@, Seq::empty())
    }

    fn key_le(&self, other: &Self) -> (r: bool)
        ensures
            r == pair_le(self.sort_key(), other.sort_key()),
    {
        path_le_exec(self.as_str(), other.as_str())
    }
}

} // verus!
