//! Orderings of lists: interrupts by number, kept stable for equal numbers.

use vstd::prelude::*;
use vstd::multiset::Multiset;
use crate::model::InterruptData;
use crate::names::{lemma_text_lt_irreflexive, lemma_text_lt_total, lemma_text_lt_transitive, str_lt, text_lt};
use crate::text::views;

verus! {

impl InterruptData {
    /// A copy of this interrupt.
    pub fn copy(&self) -> (r: Self)
        ensures
            r == *self,
    {
        InterruptData { name: self.name.clone(), number: self.number }
    }
}

/// `x` placed into `s` just after the last item whose number is at most
/// `x`'s, counted from the end.
pub open spec fn insert_by_number(s: Seq<InterruptData>, x: InterruptData) -> Seq<InterruptData>
    decreases s.len(),
{
    if s.len() == 0 {
        seq![x]
    } else if s.last().number <= x.number {
        s.push(x)
    } else {
        insert_by_number(s.drop_last(), x).push(s.last())
    }
}

/// The interrupts in ascending order of number; those with equal numbers
/// keep their relative order.
pub open spec fn sort_by_number(s: Seq<InterruptData>) -> Seq<InterruptData>
    decreases s.len(),
{
    if s.len() == 0 {
        Seq::empty()
    } else {
        insert_by_number(sort_by_number(s.drop_last()), s.last())
    }
}

/// Whether the interrupts are in ascending order of number.
pub open spec fn ascending_numbers(s: Seq<InterruptData>) -> bool {
    forall|i: int, j: int| 0 <= i < j < s.len() ==> s[i].number <= s[j].number
}

proof fn lemma_insert_split(s: Seq<InterruptData>, x: InterruptData, j: int)
    requires
        0 < j <= s.len(),
        s[j - 1].number > x.number,
    ensures
        insert_by_number(s.take(j), x) + s.skip(j) == insert_by_number(s.take(j - 1), x) + s.skip(j - 1),
{
    assert(s.take(j).drop_last() =~= s.take(j - 1));
    assert(s.take(j).last() == s[j - 1]);
    assert(s.skip(j - 1) =~= seq![s[j - 1]] + s.skip(j));
    assert(insert_by_number(s.take(j), x) + s.skip(j) =~= insert_by_number(s.take(j - 1), x) + s.skip(j - 1));
}

/// The interrupts sorted by ascending number, stable for equal numbers.
pub fn sorted_by_number(v: &Vec<InterruptData>) -> (r: Vec<InterruptData>)
    ensures
        r@ == sort_by_number(v@),
{
    let mut r: Vec<InterruptData> = Vec::new();
    let mut i: usize = 0;
    while i < v.len()
        invariant
            i <= v.len(),
            r@ == sort_by_number(v@.take(i as int)),
        decreases v.len() - i,
    {
        let x = v[i].copy();
        let mut j: usize = r.len();
        proof {
            assert(r@.take(r.len() as int) =~= r@);
            assert(r@.skip(r.len() as int) =~= Seq::<InterruptData>::empty());
            assert(insert_by_number(r@, x) =~= insert_by_number(r@.take(j as int), x) + r@.skip(j as int));
        }
        while j > 0 && r[j - 1].number > x.number
            invariant
                j <= r.len(),
                insert_by_number(r@, x) == insert_by_number(r@.take(j as int), x) + r@.skip(j as int),
            decreases j,
        {
            proof {
                lemma_insert_split(r@, x, j as int);
            }
            j = j - 1;
        }
        proof {
            if j > 0 {
                assert(r@.take(j as int).last() == r@[j - 1]);
            } else {
                assert(r@.take(0) =~= Seq::<InterruptData>::empty());
            }
            assert(insert_by_number(r@.take(j as int), x) == r@.take(j as int).push(x));
            assert(v@.take(i + 1).drop_last() =~= v@.take(i as int));
            assert(v@.take(i + 1).last() == x);
        }
        r.insert(j, x);
        proof {
            assert(r@ =~= sort_by_number(v@.take(i + 1)));
        }
        i = i + 1;
    }
    proof {
        assert(v@.take(v.len() as int) =~= v@);
    }
    r
}


/// `x` placed into `s` just after the last text, counted from the end,
/// that `x` does not come before.
pub open spec fn insert_text(s: Seq<Seq<char>>, x: Seq<char>) -> Seq<Seq<char>>
    decreases s.len(),
{
    if s.len() == 0 {
        seq![x]
    } else if !text_lt(x, s.last()) {
        s.push(x)
    } else {
        insert_text(s.drop_last(), x).push(s.last())
    }
}

/// The texts in lexicographic order.
pub open spec fn sort_texts(s: Seq<Seq<char>>) -> Seq<Seq<char>>
    decreases s.len(),
{
    if s.len() == 0 {
        Seq::empty()
    } else {
        insert_text(sort_texts(s.drop_last()), s.last())
    }
}

proof fn lemma_insert_text_split(s: Seq<Seq<char>>, x: Seq<char>, j: int)
    requires
        0 < j <= s.len(),
        text_lt(x, s[j - 1]),
    ensures
        insert_text(s.take(j), x) + s.skip(j) == insert_text(s.take(j - 1), x) + s.skip(j - 1),
{
    assert(s.take(j).drop_last() =~= s.take(j - 1));
    assert(s.take(j).last() == s[j - 1]);
    assert(s.skip(j - 1) =~= seq![s[j - 1]] + s.skip(j));
    assert(insert_text(s.take(j), x) + s.skip(j) =~= insert_text(s.take(j - 1), x) + s.skip(j - 1));
}

/// The strings in lexicographic order.
pub fn sorted_texts(v: Vec<String>) -> (r: Vec<String>)
    ensures
        views(r@) == sort_texts(views(v@)),
{
    let mut r: Vec<String> = Vec::new();
    let mut i: usize = 0;
    while i < v.len()
        invariant
            i <= v.len(),
            views(r@) == sort_texts(views(v@.take(i as int))),
        decreases v.len() - i,
    {
        let x = v[i].clone();
        let mut j: usize = r.len();
        proof {
            assert(views(r@).take(r.len() as int) =~= views(r@));
            assert(views(r@).skip(r.len() as int) =~= Seq::<Seq<char>>::empty());
        }
        while j > 0 && str_lt(x.as_str(), r[j - 1].as_str())
            invariant
                j <= r.len(),
                insert_text(views(r@), x@) == insert_text(views(r@).take(j as int), x@) + views(
                    r@,
                ).skip(j as int),
            decreases j,
        {
            proof {
                lemma_insert_text_split(views(r@), x@, j as int);
            }
            j = j - 1;
        }
        proof {
            if j > 0 {
                assert(views(r@).take(j as int).last() == r@[j - 1]@);
            } else {
                assert(views(r@).take(0) =~= Seq::<Seq<char>>::empty());
            }
            assert(insert_text(views(r@).take(j as int), x@) == views(r@).take(j as int).push(x@));
            assert(views(v@.take(i + 1)).drop_last() =~= views(v@.take(i as int)));
            assert(views(v@.take(i + 1)).last() == x@);
        }
        let ghost before = views(r@);
        r.insert(j, x);
        proof {
            assert(views(r@) =~= before.take(j as int).push(x@) + before.skip(j as int));
            assert(views(r@) =~= sort_texts(views(v@.take(i + 1))));
        }
        i = i + 1;
    }
    proof {
        assert(v@.take(v.len() as int) =~= v@);
    }
    r
}


proof fn lemma_insert_by_number(s: Seq<InterruptData>, x: InterruptData)
    requires
        ascending_numbers(s),
    ensures
        ascending_numbers(insert_by_number(s, x)),
        insert_by_number(s, x).to_multiset() == s.to_multiset().insert(x),
        forall|i: int|
            0 <= i < insert_by_number(s, x).len() ==> #[trigger] insert_by_number(s, x)[i] == x
                || s.contains(insert_by_number(s, x)[i]),
    decreases s.len(),
{
    broadcast use vstd::seq_lib::group_to_multiset_ensures;

    if s.len() == 0 {
        assert(s.to_multiset() =~= Multiset::empty());
        assert(seq![x] =~= s.push(x));
    } else if s.last().number <= x.number {
        assert forall|i: int| 0 <= i < s.len() implies s[i].number <= x.number by {
            if i < s.len() - 1 {
                assert(s[i].number <= s[s.len() - 1].number);
            }
        }
    } else {
        let t = s.drop_last();
        let last = s.last();
        assert(ascending_numbers(t));
        lemma_insert_by_number(t, x);
        let r = insert_by_number(t, x);
        assert forall|i: int| 0 <= i < r.len() implies #[trigger] r[i].number <= last.number by {
            if r[i] != x {
                assert(t.contains(r[i]));
                let k = choose|k: int| 0 <= k < t.len() && t[k] == r[i];
                assert(s[k] == t[k]);
            }
        }
        assert(s =~= t.push(last));
        assert forall|i: int| 0 <= i < r.push(last).len() implies #[trigger] r.push(last)[i] == x
            || s.contains(r.push(last)[i]) by {
            if i < r.len() {
                if r[i] != x {
                    assert(t.contains(r[i]));
                    let k = choose|k: int| 0 <= k < t.len() && t[k] == r[i];
                    assert(s[k] == r[i]);
                }
            } else {
                assert(s[s.len() - 1] == last);
            }
        }
    }
}

/// Sorting interrupts by number yields them in ascending order of number,
/// each as often as before.
pub proof fn lemma_sort_by_number(s: Seq<InterruptData>)
    ensures
        ascending_numbers(sort_by_number(s)),
        sort_by_number(s).to_multiset() == s.to_multiset(),
    decreases s.len(),
{
    broadcast use vstd::seq_lib::group_to_multiset_ensures;

    if s.len() == 0 {
        assert(s.to_multiset() =~= Multiset::empty());
        assert(sort_by_number(s).to_multiset() =~= Multiset::empty());
    } else {
        lemma_sort_by_number(s.drop_last());
        lemma_insert_by_number(sort_by_number(s.drop_last()), s.last());
        assert(s =~= s.drop_last().push(s.last()));
    }
}

/// Whether each text is at most the next ones in lexicographic order.
pub open spec fn ascending_texts(s: Seq<Seq<char>>) -> bool {
    forall|i: int, j: int| 0 <= i < j < s.len() ==> !text_lt(s[j], s[i])
}

proof fn lemma_le_chain(a: Seq<char>, b: Seq<char>, c: Seq<char>)
    requires
        !text_lt(b, a),
        !text_lt(c, b),
    ensures
        !text_lt(c, a),
{
    if text_lt(c, a) {
        if a != b {
            lemma_text_lt_total(a, b);
            lemma_text_lt_transitive(c, a, b);
        } else {
            lemma_text_lt_irreflexive(a);
        }
    }
}

proof fn lemma_insert_text(s: Seq<Seq<char>>, x: Seq<char>)
    requires
        ascending_texts(s),
    ensures
        ascending_texts(insert_text(s, x)),
        insert_text(s, x).to_multiset() == s.to_multiset().insert(x),
        forall|i: int|
            0 <= i < insert_text(s, x).len() ==> #[trigger] insert_text(s, x)[i] == x || s.contains(
                insert_text(s, x)[i],
            ),
    decreases s.len(),
{
    broadcast use vstd::seq_lib::group_to_multiset_ensures;

    if s.len() == 0 {
        assert(s.to_multiset() =~= Multiset::empty());
        assert(seq![x] =~= s.push(x));
    } else if !text_lt(x, s.last()) {
        assert forall|i: int| 0 <= i < s.len() implies !text_lt(x, s[i]) by {
            if i < s.len() - 1 {
                lemma_le_chain(s[i], s[s.len() - 1], x);
            }
        }
    } else {
        let t = s.drop_last();
        let last = s.last();
        assert(ascending_texts(t));
        lemma_insert_text(t, x);
        let r = insert_text(t, x);
        assert forall|i: int| 0 <= i < r.len() implies !text_lt(last, #[trigger] r[i]) by {
            if r[i] != x {
                assert(t.contains(r[i]));
                let k = choose|k: int| 0 <= k < t.len() && t[k] == r[i];
                assert(s[k] == t[k]);
            } else {
                if text_lt(last, x) {
                    lemma_text_lt_transitive(x, last, x);
                    lemma_text_lt_irreflexive(x);
                }
            }
        }
        assert(s =~= t.push(last));
        assert forall|i: int| 0 <= i < r.push(last).len() implies #[trigger] r.push(last)[i] == x
            || s.contains(r.push(last)[i]) by {
            if i < r.len() {
                if r[i] != x {
                    assert(t.contains(r[i]));
                    let k = choose|k: int| 0 <= k < t.len() && t[k] == r[i];
                    assert(s[k] == r[i]);
                }
            } else {
                assert(s[s.len() - 1] == last);
            }
        }
    }
}

/// Sorting texts yields them in lexicographic order, each as often as before.
pub proof fn lemma_sort_texts(s: Seq<Seq<char>>)
    ensures
        ascending_texts(sort_texts(s)),
        sort_texts(s).to_multiset() == s.to_multiset(),
    decreases s.len(),
{
    broadcast use vstd::seq_lib::group_to_multiset_ensures;

    if s.len() == 0 {
        assert(s.to_multiset() =~= Multiset::empty());
        assert(sort_texts(s).to_multiset() =~= Multiset::empty());
    } else {
        lemma_sort_texts(s.drop_last());
        lemma_insert_text(sort_texts(s.drop_last()), s.last());
        assert(s =~= s.drop_last().push(s.last()));
    }
}

} // verus!
