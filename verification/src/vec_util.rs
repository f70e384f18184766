use vstd::prelude::*;

use crate::card::Card;

verus! {

/// An element-for-element copy of a vector of plain values.
pub fn copy_vec<T: Copy>(v: &Vec<T>) -> (r: Vec<T>)
    ensures
        r@ == v@,
{
    let mut r: Vec<T> = Vec::new();
    let mut i: usize = 0;
    while i < v.len()
        invariant
            i <= v@.len(),
            r@ =~= v@.subrange(0, i as int),
        decreases v@.len() - i,
    {
        r.push(v[i]);
        proof {
            assert(r@ =~= v@.subrange(0, i + 1));
        }
        i = i + 1;
    }
    proof {
        assert(r@ =~= v@);
    }
    r
}

/// A copy of the values at positions `a..b`.
pub fn sub_vec<T: Copy>(v: &Vec<T>, a: usize, b: usize) -> (r: Vec<T>)
    requires
        a <= b <= v@.len(),
    ensures
        r@ == v@.subrange(a as int, b as int),
{
    let mut r: Vec<T> = Vec::new();
    let mut i: usize = a;
    while i < b
        invariant
            a <= i <= b <= v@.len(),
            r@ =~= v@.subrange(a as int, i as int),
        decreases b - i,
    {
        r.push(v[i]);
        proof {
            assert(r@ =~= v@.subrange(a as int, i + 1));
        }
        i = i + 1;
    }
    proof {
        assert(r@ =~= v@.subrange(a as int, b as int));
    }
    r
}

/// The cards of `v` that are not in `rem`, in order.
pub fn filter_out(v: &Vec<Card>, rem: &Vec<Card>) -> (r: Vec<Card>)
    requires
        v@.no_duplicates(),
    ensures
        r@.no_duplicates(),
        forall|c: Card| #[trigger] r@.contains(c) <==> (v@.contains(c) && !rem@.contains(c)),
{
    let mut r: Vec<Card> = Vec::new();
    let mut i: usize = 0;
    while i < v.len()
        invariant
            i <= v@.len(),
            v@.no_duplicates(),
            r@.no_duplicates(),
            forall|c: Card|
                #[trigger] r@.contains(c) <==> (v@.subrange(0, i as int).contains(c)
                    && !rem@.contains(c)),
        decreases v@.len() - i,
    {
        let card = v[i];
        if !vec_contains(rem, &card) {
            let ghost rpre = r@;
            proof {
                if rpre.contains(card) {
                    let k = choose|k: int|
                        0 <= k < i && #[trigger] v@.subrange(0, i as int)[k] == card;
                    assert(v@[k] == v@[i as int]);
                    assert(false);
                }
            }
            r.push(card);
            proof {
                assert forall|c: Card| #[trigger] r@.contains(c) implies (v@.subrange(
                    0,
                    i + 1,
                ).contains(c) && !rem@.contains(c)) by {
                    let k = choose|k: int| 0 <= k < r@.len() && r@[k] == c;
                    if k < r@.len() - 1 {
                        assert(rpre[k] == c);
                        assert(rpre.contains(c));
                        let m = choose|m: int|
                            0 <= m < i && #[trigger] v@.subrange(0, i as int)[m] == c;
                        assert(v@.subrange(0, i + 1)[m] == c);
                    } else {
                        assert(c == card);
                        assert(v@.subrange(0, i + 1)[i as int] == c);
                    }
                }
                assert forall|c: Card|
                    (v@.subrange(0, i + 1).contains(c) && !rem@.contains(
                        c,
                    )) implies #[trigger] r@.contains(c) by {
                    let m = choose|m: int|
                        0 <= m < i + 1 && #[trigger] v@.subrange(0, i + 1)[m] == c;
                    if m < i {
                        assert(v@.subrange(0, i as int)[m] == c);
                        assert(rpre.contains(c));
                        let k = choose|k: int| 0 <= k < rpre.len() && rpre[k] == c;
                        assert(r@[k] == c);
                    } else {
                        assert(c == card);
                        assert(r@[r@.len() - 1] == c);
                    }
                }
            }
        } else {
            proof {
                assert forall|c: Card| #[trigger] r@.contains(c) implies (v@.subrange(
                    0,
                    i + 1,
                ).contains(c) && !rem@.contains(c)) by {
                    let m = choose|m: int|
                        0 <= m < i && #[trigger] v@.subrange(0, i as int)[m] == c;
                    assert(v@.subrange(0, i + 1)[m] == c);
                }
                assert forall|c: Card|
                    (v@.subrange(0, i + 1).contains(c) && !rem@.contains(
                        c,
                    )) implies #[trigger] r@.contains(c) by {
                    let m = choose|m: int|
                        0 <= m < i + 1 && #[trigger] v@.subrange(0, i + 1)[m] == c;
                    if m < i {
                        assert(v@.subrange(0, i as int)[m] == c);
                    } else {
                        assert(c == card);
                        assert(false);
                    }
                }
            }
        }
        i = i + 1;
    }
    proof {
        assert(v@.subrange(0, v@.len() as int) =~= v@);
    }
    r
}

/// One step of filtering a run of distinct cards: the kept card extends
/// the collected prefix.
pub proof fn lemma_push_filter_step(
    rpre: Seq<Card>,
    r: Seq<Card>,
    src: Seq<Card>,
    i: int,
    card: Card,
    pred: spec_fn(Card) -> bool,
)
    requires
        0 <= i < src.len(),
        src[i] == card,
        pred(card),
        r == rpre.push(card),
        forall|c: Card| #[trigger] rpre.contains(c) <==> (src.subrange(0, i).contains(c) && pred(c)),
    ensures
        forall|c: Card|
            #[trigger] r.contains(c) <==> (src.subrange(0, i + 1).contains(c) && pred(c)),
{
    assert forall|c: Card| #[trigger] r.contains(c) implies (src.subrange(0, i + 1).contains(c)
        && pred(c)) by {
        let k = choose|k: int| 0 <= k < r.len() && r[k] == c;
        if k < r.len() - 1 {
            assert(rpre[k] == c);
            assert(rpre.contains(c));
            let m = choose|m: int| 0 <= m < i && #[trigger] src.subrange(0, i)[m] == c;
            assert(src.subrange(0, i + 1)[m] == c);
        } else {
            assert(c == card);
            assert(src.subrange(0, i + 1)[i] == c);
        }
    }
    assert forall|c: Card|
        (src.subrange(0, i + 1).contains(c) && pred(c)) implies #[trigger] r.contains(c) by {
        let m = choose|m: int| 0 <= m < i + 1 && #[trigger] src.subrange(0, i + 1)[m] == c;
        if m < i {
            assert(src.subrange(0, i)[m] == c);
            assert(rpre.contains(c));
            let k = choose|k: int| 0 <= k < rpre.len() && rpre[k] == c;
            assert(r[k] == c);
        } else {
            assert(c == card);
            assert(r[r.len() - 1] == c);
        }
    }
}

/// One step of filtering a run of distinct cards: a dropped card changes
/// nothing.
pub proof fn lemma_skip_filter_step(
    r: Seq<Card>,
    src: Seq<Card>,
    i: int,
    card: Card,
    pred: spec_fn(Card) -> bool,
)
    requires
        0 <= i < src.len(),
        src[i] == card,
        !pred(card),
        forall|c: Card| #[trigger] r.contains(c) <==> (src.subrange(0, i).contains(c) && pred(c)),
    ensures
        forall|c: Card|
            #[trigger] r.contains(c) <==> (src.subrange(0, i + 1).contains(c) && pred(c)),
{
    assert forall|c: Card| #[trigger] r.contains(c) implies (src.subrange(0, i + 1).contains(c)
        && pred(c)) by {
        let m = choose|m: int| 0 <= m < i && #[trigger] src.subrange(0, i)[m] == c;
        assert(src.subrange(0, i + 1)[m] == c);
    }
    assert forall|c: Card|
        (src.subrange(0, i + 1).contains(c) && pred(c)) implies #[trigger] r.contains(c) by {
        let m = choose|m: int| 0 <= m < i + 1 && #[trigger] src.subrange(0, i + 1)[m] == c;
        if m < i {
            assert(src.subrange(0, i)[m] == c);
        } else {
            assert(c == card);
            assert(false);
        }
    }
}

/// The size of a disjoint union is the sum of the sizes.
pub proof fn lemma_len_disjoint_union<A>(s1: Set<A>, s2: Set<A>)
    requires
        s1.finite(),
        s2.finite(),
        s1.disjoint(s2),
    ensures
        s1.union(s2).len() == s1.len() + s2.len(),
    decreases s1.len(),
{
    broadcast use vstd::set::group_set_axioms;

    if s1.is_empty() {
        assert(s1.union(s2) =~= s2);
        assert(s1.len() == 0);
    } else {
        let a = s1.choose();
        assert(!s2.contains(a));
        assert(s1.union(s2).remove(a) =~= s1.remove(a).union(s2));
        assert(s1.remove(a).disjoint(s2));
        lemma_len_disjoint_union(s1.remove(a), s2);
        assert(s1.union(s2).contains(a));
        assert(s1.union(s2).len() == s1.union(s2).remove(a).len() + 1);
    }
}

/// Removing a covered selection of distinct cards from a run of distinct
/// cards leaves exactly the difference in count.
pub proof fn lemma_filter_out_len(orig: Seq<Card>, rem: Seq<Card>, result: Seq<Card>)
    requires
        orig.no_duplicates(),
        rem.no_duplicates(),
        result.no_duplicates(),
        forall|c: Card| #[trigger] rem.contains(c) ==> orig.contains(c),
        forall|c: Card| #[trigger] result.contains(c) <==> (orig.contains(c) && !rem.contains(c)),
    ensures
        result.len() == orig.len() - rem.len(),
{
    broadcast use vstd::set::group_set_axioms;

    orig.unique_seq_to_set();
    rem.unique_seq_to_set();
    result.unique_seq_to_set();
    assert(orig.to_set() =~= result.to_set().union(rem.to_set()));
    assert(result.to_set().disjoint(rem.to_set()));
    lemma_len_disjoint_union(result.to_set(), rem.to_set());
}

/// Whether the vector holds the card.
pub fn vec_contains(v: &Vec<Card>, x: &Card) -> (r: bool)
    ensures
        r == v@.contains(*x),
{
    let mut i: usize = 0;
    while i < v.len()
        invariant
            i <= v@.len(),
            forall|j: int| 0 <= j < i ==> v@[j] != *x,
        decreases v@.len() - i,
    {
        if v[i] == *x {
            return true;
        }
        i = i + 1;
    }
    false
}

} // verus!
