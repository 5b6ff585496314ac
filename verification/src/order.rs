//! Sorting.

use vstd::multiset::Multiset;
use vstd::prelude::*;
use vstd::relations::*;
use vstd::seq_lib::*;

verus! {

/// A total order on positions.
pub trait Order {
    /// The positions that can be ordered.
    spec fn covers(&self, position: usize) -> bool;

    /// Whether one position may stand before another.
    spec fn at_most(&self, a: usize, b: usize) -> bool;

    proof fn is_total(&self)
        ensures
            total_ordering(|a: usize, b: usize| self.at_most(a, b)),
    ;

    /// `at_most`, computed.
    fn may_precede(&self, a: usize, b: usize) -> (may: bool)
        requires
            self.covers(a),
            self.covers(b),
        ensures
            may == self.at_most(a, b),
    ;
}

/// Positions by their keys, and by themselves where the keys are equal.
pub open spec fn key_at_most(keys: Seq<usize>, a: usize, b: usize) -> bool {
    keys[a as int] < keys[b as int] || (keys[a as int] == keys[b as int] && a <= b)
}

/// Positions in the order of their keys. Those with equal keys stay in the order of the
/// positions.
pub open spec fn by_keys(keys: Seq<usize>, positions: Seq<usize>) -> Seq<usize> {
    positions.sort_by(|a: usize, b: usize| key_at_most(keys, a, b))
}

/// The order of positions by their keys.
pub struct KeyOrder<'a> {
    pub keys: &'a Vec<usize>,
}

impl<'a> Order for KeyOrder<'a> {
    open spec fn covers(&self, position: usize) -> bool {
        position < self.keys@.len()
    }

    open spec fn at_most(&self, a: usize, b: usize) -> bool {
        key_at_most(self.keys@, a, b)
    }

    proof fn is_total(&self) {
    }

    fn may_precede(&self, a: usize, b: usize) -> (may: bool) {
        self.keys[a] < self.keys[b] || (self.keys[a] == self.keys[b] && a <= b)
    }
}

/// Texts in the order of their characters, from the first to the last.
pub open spec fn text_at_most(a: Seq<char>, b: Seq<char>) -> bool
    decreases a.len(),
{
    if a.len() == 0 {
        true
    } else if b.len() == 0 {
        false
    } else if a[0] == b[0] {
        text_at_most(a.skip(1), b.skip(1))
    } else {
        a[0] < b[0]
    }
}

/// The order of texts is total.
pub proof fn text_order_is_total(a: Seq<char>, b: Seq<char>, c: Seq<char>)
    ensures
        text_at_most(a, a),
        text_at_most(a, b) || text_at_most(b, a),
        text_at_most(a, b) && text_at_most(b, a) ==> a == b,
        text_at_most(a, b) && text_at_most(b, c) ==> text_at_most(a, c),
    decreases a.len(),
{
    if a.len() > 0 {
        text_order_is_total(a.skip(1), b.skip(1), c.skip(1));
        if b.len() > 0 && a[0] == b[0] && a.skip(1) == b.skip(1) {
            assert(a =~= seq![a[0]] + a.skip(1));
            assert(b =~= seq![b[0]] + b.skip(1));
        }
    } else if b.len() == 0 {
        assert(a =~= b);
    }
}

/// Texts that begin with parts of one length are ordered by these, and by what follows where
/// they are equal.
pub proof fn lemma_text_order_of_parts(
    a: Seq<char>,
    b: Seq<char>,
    a_rest: Seq<char>,
    b_rest: Seq<char>,
)
    requires
        a.len() == b.len(),
    ensures
        text_at_most(a + a_rest, b + b_rest) == if a == b {
            text_at_most(a_rest, b_rest)
        } else {
            text_at_most(a, b)
        },
    decreases a.len(),
{
    if a.len() == 0 {
        assert(a =~= b);
        assert(a + a_rest =~= a_rest);
        assert(b + b_rest =~= b_rest);
    } else {
        lemma_text_order_of_parts(a.skip(1), b.skip(1), a_rest, b_rest);
        assert((a + a_rest).skip(1) =~= a.skip(1) + a_rest);
        assert((b + b_rest).skip(1) =~= b.skip(1) + b_rest);
        if a[0] == b[0] && a.skip(1) == b.skip(1) {
            assert(a =~= seq![a[0]] + a.skip(1));
            assert(b =~= seq![b[0]] + b.skip(1));
        }
    }
}

pub open spec fn char_views(texts: Seq<Vec<char>>) -> Seq<Seq<char>> {
    Seq::new(texts.len(), |i: int| texts[i]@)
}

/// Positions by their texts, and by themselves where the texts are equal.
pub open spec fn named_at_most(texts: Seq<Seq<char>>, a: usize, b: usize) -> bool {
    if texts[a as int] == texts[b as int] {
        a <= b
    } else {
        text_at_most(texts[a as int], texts[b as int])
    }
}

/// All positions below `count`.
pub open spec fn positions_below(count: nat) -> Seq<usize> {
    Seq::new(count, |i: int| i as usize)
}

/// The positions of texts in the order of the texts.
pub open spec fn by_texts(texts: Seq<Seq<char>>) -> Seq<usize> {
    positions_below(texts.len()).sort_by(|a: usize, b: usize| named_at_most(texts, a, b))
}

proof fn lemma_named_order_is_total(texts: Seq<Seq<char>>)
    ensures
        total_ordering(|a: usize, b: usize| named_at_most(texts, a, b)),
{
    let r = |a: usize, b: usize| named_at_most(texts, a, b);
    assert forall|a: usize, b: usize| #[trigger] r(a, b) && #[trigger] r(b, a) implies a == b by {
        text_order_is_total(texts[a as int], texts[b as int], seq![]);
    }
    assert forall|a: usize, b: usize| #[trigger] r(a, b) || #[trigger] r(b, a) by {
        text_order_is_total(texts[a as int], texts[b as int], seq![]);
    }
    assert forall|a: usize, b: usize, c: usize| #[trigger] r(a, b) && #[trigger] r(
        b,
        c,
    ) implies r(a, c) by {
        text_order_is_total(texts[a as int], texts[b as int], texts[c as int]);
        text_order_is_total(texts[b as int], texts[a as int], texts[c as int]);
    }
}

/// Each position of a text is there once, and the texts are in order.
pub proof fn lemma_by_texts(texts: Seq<Seq<char>>)
    requires
        texts.len() <= usize::MAX,
    ensures
        by_texts(texts).len() == texts.len(),
        forall|j: int|
            0 <= j < by_texts(texts).len() ==> (#[trigger] by_texts(texts)[j]) < texts.len(),
        forall|p: usize| p < texts.len() ==> #[trigger] by_texts(texts).contains(p),
        by_texts(texts).no_duplicates(),
        forall|j: int, k: int|
            0 <= j < k < by_texts(texts).len() ==> text_at_most(
                texts[#[trigger] by_texts(texts)[j] as int],
                texts[#[trigger] by_texts(texts)[k] as int],
            ),
{
    broadcast use group_to_multiset_ensures;

    let leq = |a: usize, b: usize| named_at_most(texts, a, b);
    let positions = positions_below(texts.len());
    let sorted = by_texts(texts);
    lemma_named_order_is_total(texts);
    positions.lemma_sort_by_ensures(leq);
    assert(sorted.len() == sorted.to_multiset().len());
    assert(positions.len() == positions.to_multiset().len());
    assert forall|j: int| 0 <= j < sorted.len() implies (#[trigger] sorted[j]) < texts.len() by {
        assert(sorted.contains(sorted[j]));
        assert(positions.contains(sorted[j])) by {
            assert(positions.to_multiset().count(sorted[j]) > 0);
        }
    }
    assert forall|p: usize| p < texts.len() implies #[trigger] sorted.contains(p) by {
        assert(positions[p as int] == p);
        assert(positions.contains(p));
        assert(sorted.to_multiset().count(p) > 0);
    }
    assert(positions.no_duplicates());
    positions.lemma_multiset_has_no_duplicates();
    sorted.lemma_multiset_has_no_duplicates_conv();
    assert forall|j: int, k: int| 0 <= j < k < sorted.len() implies text_at_most(
        texts[#[trigger] sorted[j] as int],
        texts[#[trigger] sorted[k] as int],
    ) by {
        assert(leq(sorted[j], sorted[k]));
        text_order_is_total(texts[sorted[j] as int], texts[sorted[k] as int], seq![]);
    }
}

/// The order of positions by their texts.
pub struct TextOrder<'a> {
    pub texts: &'a Vec<Vec<char>>,
}

impl<'a> Order for TextOrder<'a> {
    open spec fn covers(&self, position: usize) -> bool {
        position < self.texts@.len()
    }

    open spec fn at_most(&self, a: usize, b: usize) -> bool {
        named_at_most(char_views(self.texts@), a, b)
    }

    proof fn is_total(&self) {
        let texts = char_views(self.texts@);
        lemma_named_order_is_total(texts);
        assert((|a: usize, b: usize| self.at_most(a, b)) =~= (|a: usize, b: usize|
            named_at_most(texts, a, b)));
    }

    fn may_precede(&self, a: usize, b: usize) -> (may: bool) {
        let first = &self.texts[a];
        let second = &self.texts[b];
        let mut i: usize = 0;
        assert(first@.skip(0) =~= first@);
        assert(second@.skip(0) =~= second@);
        while i < first.len() && i < second.len()
            invariant
                a < self.texts@.len(),
                b < self.texts@.len(),
                first@ == self.texts@[a as int]@,
                second@ == self.texts@[b as int]@,
                i <= first@.len(),
                i <= second@.len(),
                forall|k: int| 0 <= k < i ==> first@[k] == second@[k],
                text_at_most(first@, second@) == text_at_most(
                    first@.skip(i as int),
                    second@.skip(i as int),
                ),
            decreases first@.len() - i,
        {
            if first[i] != second[i] {
                assert(first@.skip(i as int)[0] == first@[i as int]);
                return first[i] < second[i];
            }
            assert(first@.skip(i as int).skip(1) =~= first@.skip(i + 1));
            assert(second@.skip(i as int).skip(1) =~= second@.skip(i + 1));
            i = i + 1;
        }
        if first.len() == second.len() {
            assert(first@ =~= second@);
            a <= b
        } else {
            first.len() < second.len()
        }
    }
}

pub open spec fn sorted_for<O: Order>(order: O, positions: Seq<usize>) -> bool {
    sorted_by(positions, |a: usize, b: usize| order.at_most(a, b))
}

/// Two sorted lists as one.
fn merge<O: Order>(order: &O, left: &Vec<usize>, right: &Vec<usize>) -> (merged: Vec<usize>)
    requires
        forall|i: int| 0 <= i < left@.len() ==> order.covers(#[trigger] left@[i]),
        forall|i: int| 0 <= i < right@.len() ==> order.covers(#[trigger] right@[i]),
        sorted_for(*order, left@),
        sorted_for(*order, right@),
    ensures
        sorted_for(*order, merged@),
        merged@.to_multiset() == left@.to_multiset().add(right@.to_multiset()),
{
    broadcast use group_to_multiset_ensures;

    let ghost leq = |a: usize, b: usize| order.at_most(a, b);
    let mut merged: Vec<usize> = Vec::new();
    let mut i: usize = 0;
    let mut j: usize = 0;
    proof {
        order.is_total();
        assert(left@.skip(0) =~= left@);
        assert(right@.skip(0) =~= right@);
        assert(merged@.to_multiset() =~= Multiset::empty());
    }
    let ghost whole = left@.to_multiset().add(right@.to_multiset());
    while i < left.len() || j < right.len()
        invariant
            i <= left@.len(),
            j <= right@.len(),
            leq == (|a: usize, b: usize| order.at_most(a, b)),
            total_ordering(leq),
            forall|k: int| 0 <= k < left@.len() ==> order.covers(#[trigger] left@[k]),
            forall|k: int| 0 <= k < right@.len() ==> order.covers(#[trigger] right@[k]),
            sorted_by(left@, leq),
            sorted_by(right@, leq),
            sorted_by(merged@, leq),
            forall|k: int, m: int|
                0 <= k < merged@.len() && i <= m < left@.len() ==> leq(
                    #[trigger] merged@[k],
                    #[trigger] left@[m],
                ),
            forall|k: int, m: int|
                0 <= k < merged@.len() && j <= m < right@.len() ==> leq(
                    #[trigger] merged@[k],
                    #[trigger] right@[m],
                ),
            whole == merged@.to_multiset().add(left@.skip(i as int).to_multiset()).add(
                right@.skip(j as int).to_multiset(),
            ),
        decreases left@.len() - i + right@.len() - j,
    {
        broadcast use group_to_multiset_ensures;

        let ghost before = merged@;
        let from_left = j >= right.len() || (i < left.len() && order.may_precede(
            left[i],
            right[j],
        ));
        let next: usize = if from_left {
            left[i]
        } else {
            right[j]
        };
        proof {
            assert(i < left@.len() && from_left ==> leq(left@[i as int], left@[i as int]));
            assert(j < right@.len() ==> leq(right@[j as int], right@[j as int]));
            if i < left@.len() && j < right@.len() {
                assert(leq(left@[i as int], right@[j as int]) || leq(
                    right@[j as int],
                    left@[i as int],
                ));
            }
            assert(seq![next] =~= Seq::empty().push(next));
            assert(seq![next].to_multiset() =~= Multiset::empty().insert(next));
            if from_left {
                assert(left@.skip(i as int) =~= seq![next] + left@.skip(i + 1));
                lemma_multiset_commutative(seq![next], left@.skip(i + 1));
            } else {
                assert(right@.skip(j as int) =~= seq![next] + right@.skip(j + 1));
                lemma_multiset_commutative(seq![next], right@.skip(j + 1));
            }
        }
        proof {
            assert forall|m: int| i <= m < left@.len() implies leq(next, #[trigger] left@[m]) by {
                assert(m > i ==> leq(left@[i as int], left@[m]));
                if !from_left {
                    assert(leq(right@[j as int], left@[i as int]));
                }
            }
            assert forall|m: int| j <= m < right@.len() implies leq(next, #[trigger] right@[m]) by {
                assert(m > j ==> leq(right@[j as int], right@[m]));
                if from_left {
                    assert(leq(left@[i as int], right@[j as int]));
                }
            }
        }
        merged.push(next);
        if from_left {
            i = i + 1;
        } else {
            j = j + 1;
        }
        proof {
            assert(merged@.to_multiset() =~= before.to_multiset().insert(next));
            assert(whole =~= merged@.to_multiset().add(left@.skip(i as int).to_multiset()).add(
                right@.skip(j as int).to_multiset(),
            ));
        }
    }
    proof {
        assert(left@.skip(i as int) =~= Seq::empty());
        assert(right@.skip(j as int) =~= Seq::empty());
        assert(whole =~= merged@.to_multiset());
    }
    merged
}

/// The positions from `start` to `end` of the list, sorted.
fn sort_range<O: Order>(
    order: &O,
    positions: &Vec<usize>,
    start: usize,
    end: usize,
) -> (sorted: Vec<usize>)
    requires
        start <= end <= positions@.len(),
        forall|i: int| 0 <= i < positions@.len() ==> order.covers(#[trigger] positions@[i]),
    ensures
        sorted_for(*order, sorted@),
        sorted@.to_multiset() == positions@.subrange(start as int, end as int).to_multiset(),
        forall|i: int| 0 <= i < sorted@.len() ==> order.covers(#[trigger] sorted@[i]),
    decreases end - start,
{
    broadcast use group_to_multiset_ensures;

    let ghost range = positions@.subrange(start as int, end as int);
    let mut sorted: Vec<usize> = Vec::new();
    if end - start == 1 {
        sorted.push(positions[start]);
        assert(sorted@ =~= range);
    } else if end > start {
        let middle: usize = start + (end - start) / 2;
        let left = sort_range(order, positions, start, middle);
        let right = sort_range(order, positions, middle, end);
        sorted = merge(order, &left, &right);
        proof {
            let low = positions@.subrange(start as int, middle as int);
            let high = positions@.subrange(middle as int, end as int);
            lemma_multiset_commutative(low, high);
            assert(range =~= low + high);
        }
    } else {
        assert(sorted@ =~= range);
    }
    proof {
        assert forall|i: int| 0 <= i < sorted@.len() implies order.covers(
            #[trigger] sorted@[i],
        ) by {
            assert(sorted@.to_multiset().count(sorted@[i]) > 0);
            assert(range.contains(sorted@[i]));
            let k = choose|k: int| 0 <= k < range.len() && range[k] == sorted@[i];
            assert(positions@[start + k] == sorted@[i]);
        }
    }
    sorted
}

/// The positions, sorted.
pub fn sort_positions<O: Order>(order: &O, positions: &Vec<usize>) -> (sorted: Vec<usize>)
    requires
        forall|i: int| 0 <= i < positions@.len() ==> order.covers(#[trigger] positions@[i]),
    ensures
        sorted_for(*order, sorted@),
        sorted@.to_multiset() == positions@.to_multiset(),
{
    assert(positions@.subrange(0, positions@.len() as int) =~= positions@);
    sort_range(order, positions, 0, positions.len())
}

/// The positions in the order of their keys.
pub fn sort_by_keys(keys: &Vec<usize>, positions: &Vec<usize>) -> (sorted: Vec<usize>)
    requires
        forall|i: int| 0 <= i < positions@.len() ==> (#[trigger] positions@[i]) < keys@.len(),
    ensures
        sorted@ == by_keys(keys@, positions@),
{
    let order = KeyOrder { keys };
    let sorted = sort_positions(&order, positions);
    proof {
        let leq = |a: usize, b: usize| key_at_most(keys@, a, b);
        assert(leq =~= (|a: usize, b: usize| order.at_most(a, b)));
        order.is_total();
        positions@.lemma_sort_by_ensures(leq);
        lemma_sorted_unique(sorted@, positions@.sort_by(leq), leq);
    }
    sorted
}

/// The positions of texts in the order of the texts.
pub fn sort_by_texts(texts: &Vec<Vec<char>>) -> (sorted: Vec<usize>)
    ensures
        sorted@ == by_texts(char_views(texts@)),
{
    let count: usize = texts.len();
    let mut positions: Vec<usize> = Vec::new();
    let mut i: usize = 0;
    while i < count
        invariant
            i <= count,
            positions@ == positions_below(i as nat),
        decreases count - i,
    {
        positions.push(i);
        i = i + 1;
        assert(positions@ =~= positions_below(i as nat));
    }
    let order = TextOrder { texts };
    let sorted = sort_positions(&order, &positions);
    proof {
        let views = char_views(texts@);
        let leq = |a: usize, b: usize| named_at_most(views, a, b);
        assert(leq =~= (|a: usize, b: usize| order.at_most(a, b)));
        lemma_named_order_is_total(views);
        positions@.lemma_sort_by_ensures(leq);
        lemma_sorted_unique(sorted@, positions@.sort_by(leq), leq);
    }
    sorted
}

} // verus!
