//! The ordered set of the annotations seen so far.

use crate::github::{
    lemma_precedes_asymmetric, lemma_precedes_connected, lemma_precedes_irreflexive,
    lemma_precedes_transitive, Annotation, AnnotationView,
};
use crate::order::Precedence;
use crate::views::{lemma_views_empty, lemma_views_insert, views};
use vstd::prelude::*;

verus! {

/// Whether the annotations of `s` stand in their order, each before the next: then no
/// annotation stands in `s` twice.
pub open spec fn sorted(s: Seq<AnnotationView>) -> bool {
    forall|i: int, j: int| 0 <= i < j < s.len() ==> #[trigger] s[i].precedes(#[trigger] s[j])
}

/// The number of annotations of `s` that come before `a`.
pub open spec fn rank_of(s: Seq<AnnotationView>, a: AnnotationView) -> int
    decreases s.len(),
{
    if s.len() == 0 {
        0
    } else if s.last().precedes(a) {
        rank_of(s.drop_last(), a) + 1
    } else {
        rank_of(s.drop_last(), a)
    }
}

/// `s` with `a` in its place, if `a` was not in `s`; else `s`.
pub open spec fn inserted(s: Seq<AnnotationView>, a: AnnotationView) -> Seq<AnnotationView> {
    if s.contains(a) {
        s
    } else {
        s.insert(rank_of(s, a), a)
    }
}

/// The ordered set that holds the annotations of `annotations`.
pub open spec fn collected(annotations: Seq<AnnotationView>) -> Seq<AnnotationView>
    decreases annotations.len(),
{
    if annotations.len() == 0 {
        Seq::empty()
    } else {
        inserted(collected(annotations.drop_last()), annotations.last())
    }
}

/// An ordered sequence without its last annotation is ordered.
proof fn lemma_sorted_drop_last(s: Seq<AnnotationView>)
    requires
        sorted(s),
        s.len() > 0,
    ensures
        sorted(s.drop_last()),
{
    let init = s.drop_last();
    assert forall|i: int, j: int| 0 <= i < j < init.len() implies #[trigger] init[i].precedes(
        #[trigger] init[j],
    ) by {
        assert(s[i].precedes(s[j]));
    }
}

/// The rank of `a` in `s` is between 0 and the length of `s`.
pub proof fn lemma_rank_bounds(s: Seq<AnnotationView>, a: AnnotationView)
    ensures
        0 <= rank_of(s, a) <= s.len(),
    decreases s.len(),
{
    if s.len() > 0 {
        lemma_rank_bounds(s.drop_last(), a);
    }
}

/// Where all before `at` come before `a` and none from `at` on does, `at` is the rank of `a`.
pub proof fn lemma_rank_is(s: Seq<AnnotationView>, a: AnnotationView, at: int)
    requires
        0 <= at <= s.len(),
        forall|i: int| 0 <= i < at ==> (#[trigger] s[i]).precedes(a),
        forall|i: int| at <= i < s.len() ==> !(#[trigger] s[i]).precedes(a),
    ensures
        rank_of(s, a) == at,
    decreases s.len(),
{
    if s.len() > 0 {
        let init = s.drop_last();
        if at == s.len() {
            lemma_rank_is(init, a, at - 1);
        } else {
            lemma_rank_is(init, a, at);
        }
    }
}

/// In an ordered `s`, exactly the annotations before the rank of `a` come before `a`.
pub proof fn lemma_rank_splits(s: Seq<AnnotationView>, a: AnnotationView)
    requires
        sorted(s),
    ensures
        0 <= rank_of(s, a) <= s.len(),
        forall|i: int| 0 <= i < rank_of(s, a) ==> (#[trigger] s[i]).precedes(a),
        forall|i: int| rank_of(s, a) <= i < s.len() ==> !(#[trigger] s[i]).precedes(a),
    decreases s.len(),
{
    lemma_rank_bounds(s, a);
    if s.len() > 0 {
        let init = s.drop_last();
        lemma_sorted_drop_last(s);
        lemma_rank_splits(init, a);
        if s.last().precedes(a) {
            assert forall|i: int| 0 <= i < rank_of(s, a) implies (#[trigger] s[i]).precedes(a) by {
                if i < s.len() - 1 {
                    lemma_precedes_transitive(s[i], s.last(), a);
                }
            }
            assert(rank_of(s, a) == s.len()) by {
                assert forall|i: int| 0 <= i < init.len() implies (#[trigger] init[i]).precedes(
                    a,
                ) by {
                    lemma_precedes_transitive(s[i], s.last(), a);
                }
                lemma_rank_is(init, a, init.len() as int);
            }
        } else {
            assert forall|i: int| 0 <= i < rank_of(s, a) implies (#[trigger] s[i]).precedes(a) by {
                assert(init[i].precedes(a));
            }
            assert forall|i: int| rank_of(s, a) <= i < s.len() implies !(#[trigger] s[i]).precedes(
                a,
            ) by {
                if i < s.len() - 1 {
                    assert(!init[i].precedes(a));
                }
            }
        }
    }
}

/// Putting `a` into an ordered `s` gives an ordered sequence that holds `a` and what `s` held.
pub proof fn lemma_inserted(s: Seq<AnnotationView>, a: AnnotationView)
    requires
        sorted(s),
    ensures
        sorted(inserted(s, a)),
        forall|x: AnnotationView| inserted(s, a).contains(x) <==> (s.contains(x) || x == a),
        inserted(s, a).len() == if s.contains(a) { s.len() } else { s.len() + 1 },
{
    if !s.contains(a) {
        lemma_rank_splits(s, a);
        let at = rank_of(s, a);
        let t = s.insert(at, a);
        assert forall|i: int, j: int| 0 <= i < j < t.len() implies #[trigger] t[i].precedes(
            #[trigger] t[j],
        ) by {
            if i == at {
                lemma_precedes_connected(s[j - 1], a);
            }
        }
        assert forall|x: AnnotationView| t.contains(x) <==> (s.contains(x) || x == a) by {
            if s.contains(x) {
                let i = choose|i: int| 0 <= i < s.len() && s[i] == x;
                if i < at {
                    assert(t[i] == x);
                } else {
                    assert(t[i + 1] == x);
                }
            }
            if x == a {
                assert(t[at] == a);
            }
        }
    }
}

/// An annotation is put into a set once: putting it in again changes nothing.
pub proof fn lemma_inserted_twice(s: Seq<AnnotationView>, a: AnnotationView)
    requires
        sorted(s),
    ensures
        inserted(inserted(s, a), a) == inserted(s, a),
{
    lemma_inserted(s, a);
}

/// Two ordered sequences that hold the same annotations are the same sequence.
pub proof fn lemma_sorted_unique(s: Seq<AnnotationView>, t: Seq<AnnotationView>)
    requires
        sorted(s),
        sorted(t),
        forall|x: AnnotationView| s.contains(x) <==> t.contains(x),
    ensures
        s == t,
    decreases s.len(),
{
    if s.len() == 0 {
        if t.len() > 0 {
            assert(t.contains(t[0]));
        }
    } else {
        assert(s.contains(s.last()));
        let k = choose|k: int| 0 <= k < t.len() && t[k] == s.last();
        assert(t.contains(t.last()));
        let m = choose|m: int| 0 <= m < s.len() && s[m] == t.last();
        if k < t.len() - 1 {
            if m < s.len() - 1 {
                lemma_precedes_asymmetric(s.last(), t.last());
            } else {
                lemma_precedes_irreflexive(s.last());
            }
        }
        let s0 = s.drop_last();
        let t0 = t.drop_last();
        lemma_sorted_drop_last(s);
        lemma_sorted_drop_last(t);
        assert forall|x: AnnotationView| s0.contains(x) <==> t0.contains(x) by {
            if s0.contains(x) {
                let i = choose|i: int| 0 <= i < s0.len() && s0[i] == x;
                lemma_precedes_asymmetric(x, s.last());
                assert(s.contains(x));
                let j = choose|j: int| 0 <= j < t.len() && t[j] == x;
                assert(t0[j] == x);
            }
            if t0.contains(x) {
                let i = choose|i: int| 0 <= i < t0.len() && t0[i] == x;
                assert(t[i].precedes(t[t.len() - 1]));
                lemma_precedes_asymmetric(x, t.last());
                assert(t.contains(x));
                let j = choose|j: int| 0 <= j < s.len() && s[j] == x;
                assert(s0[j] == x);
            }
        }
        lemma_sorted_unique(s0, t0);
        assert(s =~= s0.push(s.last()));
    }
}

/// The set that holds some annotations is ordered and holds them, and nothing else.
pub proof fn lemma_collected(annotations: Seq<AnnotationView>)
    ensures
        sorted(collected(annotations)),
        forall|x: AnnotationView| collected(annotations).contains(x) <==> annotations.contains(x),
    decreases annotations.len(),
{
    if annotations.len() > 0 {
        let init = annotations.drop_last();
        lemma_collected(init);
        lemma_inserted(collected(init), annotations.last());
        assert forall|x: AnnotationView| collected(annotations).contains(x)
            <==> annotations.contains(x) by {
            if init.contains(x) {
                let i = choose|i: int| 0 <= i < init.len() && init[i] == x;
            }
            if annotations.contains(x) {
                let i = choose|i: int| 0 <= i < annotations.len() && annotations[i] == x;
                if i < annotations.len() - 1 {
                    assert(init[i] == x);
                }
            }
        }
    }
}

/// The set does not depend on the order in which the annotations come, nor on how often one
/// comes: two sequences that hold the same annotations give the same set, in the same order.
pub proof fn lemma_collected_any_order(first: Seq<AnnotationView>, second: Seq<AnnotationView>)
    requires
        forall|x: AnnotationView| first.contains(x) <==> second.contains(x),
    ensures
        collected(first) == collected(second),
{
    lemma_collected(first);
    lemma_collected(second);
    assert forall|x: AnnotationView| collected(first).contains(x) <==> collected(second).contains(
        x,
    ) by {
        assert(collected(first).contains(x) <==> first.contains(x));
    }
    lemma_sorted_unique(collected(first), collected(second));
}

/// The annotations seen so far: a set, kept in the order of annotations.
pub struct AnnotationSet {
    items: Vec<Annotation>,
}

impl View for AnnotationSet {
    type V = Seq<AnnotationView>;

    closed spec fn view(&self) -> Seq<AnnotationView> {
        views(self.items@)
    }
}

impl AnnotationSet {
    /// The invariant of the set: its annotations stand in their order.
    pub open spec fn wf(&self) -> bool {
        sorted(self@)
    }

    /// The empty set.
    pub fn new() -> (set: AnnotationSet)
        ensures
            set.wf(),
            set@ == Seq::<AnnotationView>::empty(),
    {
        proof {
            lemma_views_empty::<Annotation>();
        }
        AnnotationSet { items: Vec::new() }
    }

    /// The number of annotations in the set.
    pub fn len(&self) -> (n: usize)
        ensures
            n == self@.len(),
    {
        self.items.len()
    }

    /// The annotations of the set, in their order.
    pub fn items(&self) -> (items: &Vec<Annotation>)
        ensures
            views(items@) == self@,
    {
        &self.items
    }

    /// The place of `annotation` in the set: where it stands, or where it would.
    fn find(&self, annotation: &Annotation) -> (r: (bool, usize))
        requires
            self.wf(),
        ensures
            r.0 == self@.contains(annotation@),
            r.1 == rank_of(self@, annotation@),
            r.1 <= self@.len(),
            r.0 ==> r.1 < self@.len() && self@[r.1 as int] == annotation@,
    {
        let ghost s = self@;
        let ghost a = annotation@;
        let mut low: usize = 0;
        let mut high: usize = self.items.len();
        while low < high
            invariant
                s == self@,
                s == views(self.items@),
                a == annotation@,
                sorted(s),
                low <= high <= s.len(),
                forall|i: int| 0 <= i < low ==> (#[trigger] s[i]).precedes(a),
                forall|i: int| high <= i < s.len() ==> a.precedes(#[trigger] s[i]),
            decreases high - low,
        {
            let middle = low + (high - low) / 2;
            match self.items[middle].compare(annotation) {
                Precedence::Same => {
                    proof {
                        assert forall|i: int| 0 <= i < middle implies (#[trigger] s[i]).precedes(
                            a,
                        ) by {
                            assert(s[i].precedes(s[middle as int]));
                        }
                        assert forall|i: int| middle <= i < s.len() implies !(
                        #[trigger] s[i]).precedes(a) by {
                            if i == middle {
                                lemma_precedes_irreflexive(a);
                            } else {
                                lemma_precedes_asymmetric(a, s[i]);
                            }
                        }
                        lemma_rank_is(s, a, middle as int);
                    }
                    return (true, middle);
                },
                Precedence::Before => {
                    proof {
                        assert forall|i: int| 0 <= i < middle + 1 implies (
                        #[trigger] s[i]).precedes(a) by {
                            if i < middle {
                                lemma_precedes_transitive(s[i], s[middle as int], a);
                            }
                        }
                    }
                    low = middle + 1;
                },
                Precedence::After => {
                    proof {
                        lemma_precedes_connected(s[middle as int], a);
                        assert forall|i: int| middle <= i < s.len() implies a.precedes(
                            #[trigger] s[i],
                        ) by {
                            if i > middle {
                                lemma_precedes_transitive(a, s[middle as int], s[i]);
                            }
                        }
                    }
                    high = middle;
                },
            }
        }
        proof {
            assert forall|i: int| low <= i < s.len() implies !(#[trigger] s[i]).precedes(a) by {
                lemma_precedes_asymmetric(a, s[i]);
            }
            lemma_rank_is(s, a, low as int);
            if s.contains(a) {
                let i = choose|i: int| 0 <= i < s.len() && s[i] == a;
                assert(s[i].precedes(a) || a.precedes(s[i]));
                lemma_precedes_irreflexive(a);
            }
        }
        (false, low)
    }

    /// Whether `annotation` is in the set.
    pub fn contains(&self, annotation: &Annotation) -> (r: bool)
        requires
            self.wf(),
        ensures
            r == self@.contains(annotation@),
    {
        self.find(annotation).0
    }

    /// Adds `annotation` to the set. Returns whether it was added: it is not where the set
    /// holds it already, and the set is then as it was.
    pub fn insert(&mut self, annotation: Annotation) -> (added: bool)
        requires
            old(self).wf(),
        ensures
            final(self).wf(),
            added == !old(self)@.contains(annotation@),
            final(self)@ == inserted(old(self)@, annotation@),
    {
        let (found, at) = self.find(&annotation);
        if found {
            return false;
        }
        proof {
            lemma_inserted(self@, annotation@);
            lemma_views_insert(self.items@, at as int, annotation);
        }
        self.items.insert(at, annotation);
        true
    }
}

} // verus!
