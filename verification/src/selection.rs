//! The elements of a sequence that a mask selects.

use vstd::prelude::*;

verus! {

/// How many places `mask` selects.
pub open spec fn count(mask: Seq<bool>) -> nat
    decreases mask.len(),
{
    if mask.len() == 0 {
        0
    } else {
        count(mask.drop_last()) + if mask.last() {
            1nat
        } else {
            0
        }
    }
}

/// The elements of `items` at the places that `mask` selects, in order.
pub open spec fn select<T>(items: Seq<T>, mask: Seq<bool>) -> Seq<T>
    recommends
        items.len() == mask.len(),
    decreases mask.len(),
{
    if mask.len() == 0 {
        Seq::empty()
    } else {
        let front = select(items.drop_last(), mask.drop_last());
        if mask.last() {
            front.push(items.last())
        } else {
            front
        }
    }
}

/// Whether `p` is the place of the selected element number `index`.
pub open spec fn is_place(mask: Seq<bool>, index: int, p: int) -> bool {
    &&& 0 <= p < mask.len()
    &&& mask[p]
    &&& count(mask.take(p)) == index
}

/// Where an element goes that is to become the selected element number
/// `index`: to the place of the one that has this number now, or to the end
/// where there is none.
pub open spec fn is_landing(mask: Seq<bool>, index: int, p: int) -> bool {
    if index < count(mask) {
        is_place(mask, index, p)
    } else {
        p == mask.len()
    }
}

/// Selection goes through the two parts of a concatenation.
proof fn lemma_concat<T>(a: Seq<T>, b: Seq<T>, m: Seq<bool>, n: Seq<bool>)
    requires
        a.len() == m.len(),
        b.len() == n.len(),
    ensures
        count(m + n) == count(m) + count(n),
        select(a + b, m + n) == select(a, m) + select(b, n),
    decreases b.len(),
{
    if b.len() == 0 {
        assert(a + b =~= a);
        assert(m + n =~= m);
        assert(select(a, m) + select(b, n) =~= select(a, m));
    } else {
        lemma_concat(a, b.drop_last(), m, n.drop_last());
        assert((a + b).drop_last() =~= a + b.drop_last());
        assert((m + n).drop_last() =~= m + n.drop_last());
        if n.last() {
            assert(select(a + b, m + n) =~= select(a, m) + select(b, n));
        }
    }
}

/// As many elements come out as the mask selects.
pub proof fn lemma_len<T>(items: Seq<T>, mask: Seq<bool>)
    requires
        items.len() == mask.len(),
    ensures
        select(items, mask).len() == count(mask),
        count(mask) <= mask.len(),
    decreases mask.len(),
{
    if mask.len() > 0 {
        lemma_len(items.drop_last(), mask.drop_last());
    }
}

/// A sequence of one element, split off.
proof fn lemma_single<T>(x: T, keep: bool)
    ensures
        count(seq![keep]) == if keep {
            1nat
        } else {
            0
        },
        select(seq![x], seq![keep]) == if keep {
            seq![x]
        } else {
            Seq::empty()
        },
{
    assert(seq![keep].drop_last() =~= Seq::empty());
    assert(seq![x].drop_last() =~= Seq::empty());
    assert(count(Seq::empty()) == 0);
    assert(select(Seq::<T>::empty(), Seq::empty()) =~= Seq::empty());
    assert(Seq::<T>::empty().push(x) =~= seq![x]);
}

/// The selection, cut at the element with index `p`.
proof fn lemma_split<T>(items: Seq<T>, mask: Seq<bool>, p: int)
    requires
        items.len() == mask.len(),
        0 <= p < items.len(),
    ensures
        select(items, mask) == select(items.take(p), mask.take(p)) + select(
            seq![items[p]],
            seq![mask[p]],
        ) + select(items.skip(p + 1), mask.skip(p + 1)),
        count(mask) == count(mask.take(p)) + count(seq![mask[p]]) + count(mask.skip(p + 1)),
        select(items.take(p), mask.take(p)).len() == count(mask.take(p)),
{
    let (a, m) = (items.take(p), mask.take(p));
    let (b, n) = (seq![items[p]], seq![mask[p]]);
    let (c, o) = (items.skip(p + 1), mask.skip(p + 1));
    assert(items =~= a + b + c);
    assert(mask =~= m + n + o);
    lemma_concat(a + b, c, m + n, o);
    lemma_concat(a, b, m, n);
    lemma_len(a, m);
}

/// Everything in front of a place and everything from it on.
proof fn lemma_cut<T>(items: Seq<T>, mask: Seq<bool>, p: int)
    requires
        items.len() == mask.len(),
        0 <= p <= items.len(),
    ensures
        select(items, mask) == select(items.take(p), mask.take(p)) + select(
            items.skip(p),
            mask.skip(p),
        ),
        count(mask) == count(mask.take(p)) + count(mask.skip(p)),
        select(items.take(p), mask.take(p)).len() == count(mask.take(p)),
{
    assert(items =~= items.take(p) + items.skip(p));
    assert(mask =~= mask.take(p) + mask.skip(p));
    lemma_concat(items.take(p), items.skip(p), mask.take(p), mask.skip(p));
    lemma_len(items.take(p), mask.take(p));
}

/// An element inserted and selected is inserted into the selection, after as
/// many elements as are selected in front of it.
pub proof fn lemma_insert<T>(items: Seq<T>, mask: Seq<bool>, p: int, x: T)
    requires
        items.len() == mask.len(),
        0 <= p <= items.len(),
    ensures
        count(mask.take(p)) <= count(mask),
        select(items.insert(p, x), mask.insert(p, true)) == select(items, mask).insert(
            count(mask.take(p)) as int,
            x,
        ),
{
    let (longer, wider) = (items.insert(p, x), mask.insert(p, true));
    lemma_cut(items, mask, p);
    lemma_split(longer, wider, p);
    lemma_single(x, true);
    assert(longer.take(p) =~= items.take(p));
    assert(wider.take(p) =~= mask.take(p));
    assert(longer.skip(p + 1) =~= items.skip(p));
    assert(wider.skip(p + 1) =~= mask.skip(p));
    assert(select(longer, wider) =~= select(items, mask).insert(count(mask.take(p)) as int, x));
}

/// A selected element is found in the selection after as many elements as are
/// selected in front of it. Taking it out, or no longer selecting it, takes it
/// out of the selection there, and changing it changes the selection there. An
/// element that is not selected can be taken out with no effect.
pub proof fn lemma_at<T>(items: Seq<T>, mask: Seq<bool>, p: int, x: T)
    requires
        items.len() == mask.len(),
        0 <= p < items.len(),
    ensures
        mask[p] ==> {
            let index = count(mask.take(p)) as int;
            &&& 0 <= index < select(items, mask).len()
            &&& select(items, mask)[index] == items[p]
            &&& select(items.remove(p), mask.remove(p)) == select(items, mask).remove(index)
            &&& select(items, mask.update(p, false)) == select(items, mask).remove(index)
            &&& select(items.update(p, x), mask) == select(items, mask).update(index, x)
        },
        !mask[p] ==> select(items.remove(p), mask.remove(p)) == select(items, mask),
{
    let index = count(mask.take(p)) as int;
    let all = select(items, mask);
    lemma_split(items, mask, p);
    lemma_single(items[p], true);
    lemma_single(items[p], false);
    lemma_single(x, true);
    let shorter = items.remove(p);
    let narrower = mask.remove(p);
    lemma_cut(shorter, narrower, p);
    assert(shorter.take(p) =~= items.take(p));
    assert(narrower.take(p) =~= mask.take(p));
    assert(shorter.skip(p) =~= items.skip(p + 1));
    assert(narrower.skip(p) =~= mask.skip(p + 1));
    if mask[p] {
        let unset = mask.update(p, false);
        lemma_split(items, unset, p);
        assert(unset.take(p) =~= mask.take(p));
        assert(unset.skip(p + 1) =~= mask.skip(p + 1));
        let changed = items.update(p, x);
        lemma_split(changed, mask, p);
        assert(changed.take(p) =~= items.take(p));
        assert(changed.skip(p + 1) =~= items.skip(p + 1));
        assert(select(shorter, narrower) =~= all.remove(index));
        assert(select(items, unset) =~= all.remove(index));
        assert(select(changed, mask) =~= all.update(index, x));
    } else {
        assert(select(shorter, narrower) =~= all);
    }
}

/// A mask that selects everything selects the whole sequence.
pub proof fn lemma_full<T>(items: Seq<T>, mask: Seq<bool>)
    requires
        items.len() == mask.len(),
        forall|i: int| 0 <= i < mask.len() ==> mask[i],
    ensures
        select(items, mask) == items,
        count(mask) == mask.len(),
    decreases mask.len(),
{
    if mask.len() > 0 {
        lemma_full(items.drop_last(), mask.drop_last());
        assert(items.drop_last().push(items.last()) =~= items);
    } else {
        assert(items =~= Seq::empty());
    }
}

/// The place of a selected element: its number is in range, and no other place
/// has this number.
pub proof fn lemma_place(mask: Seq<bool>, index: int, p: int)
    requires
        is_place(mask, index, p),
    ensures
        0 <= index < count(mask),
        forall|q: int| is_place(mask, index, q) ==> q == p,
{
    lemma_split(mask, mask, p);
    lemma_single(mask[p], true);
    assert forall|q: int| is_place(mask, index, q) implies q == p by {
        let (low, high) = if p < q {
            (p, q)
        } else {
            (q, p)
        };
        if low < high {
            lemma_split(mask.take(high), mask.take(high), low);
            lemma_single(mask[low], true);
            assert(mask.take(high).take(low) =~= mask.take(low));
        }
    }
}

} // verus!
