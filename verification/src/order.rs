//! Putting things in the order of their keys.

use vstd::prelude::*;

verus! {

/// `sorted` with `x` behind the last pair whose key is no greater.
pub open spec fn inserted<T>(sorted: Seq<(int, T)>, x: (int, T)) -> Seq<(int, T)>
    decreases sorted.len(),
{
    if sorted.len() == 0 {
        seq![x]
    } else if sorted.last().0 <= x.0 {
        sorted.push(x)
    } else {
        inserted(sorted.drop_last(), x).push(sorted.last())
    }
}

/// The pairs in the order of their keys; pairs of equal key keep their
/// order.
pub open spec fn sorted<T>(pairs: Seq<(int, T)>) -> Seq<(int, T)>
    decreases pairs.len(),
{
    if pairs.len() == 0 {
        Seq::empty()
    } else {
        inserted(sorted(pairs.drop_last()), pairs.last())
    }
}

/// Each item with its key.
pub open spec fn keyed<T>(items: Seq<T>, keys: Seq<u128>) -> Seq<(int, T)> {
    Seq::new(items.len(), |i: int| (keys[i] as int, items[i]))
}

/// The items of the pairs.
pub open spec fn items_of<T>(pairs: Seq<(int, T)>) -> Seq<T> {
    Seq::new(pairs.len(), |i: int| pairs[i].1)
}

/// The items in the order of their keys; items of equal key keep their
/// order.
pub open spec fn sorted_by<T>(items: Seq<T>, keys: Seq<u128>) -> Seq<T> {
    items_of(sorted(keyed(items, keys)))
}

/// The keys never fall.
pub open spec fn rising<T>(pairs: Seq<(int, T)>) -> bool {
    forall|i: int, j: int| 0 <= i <= j < pairs.len() ==> pairs[i].0 <= pairs[j].0
}

/// Inserting puts the pair at some place and moves no other; the keys still
/// never fall.
pub proof fn lemma_inserted<T>(s: Seq<(int, T)>, x: (int, T)) -> (p: int)
    ensures
        0 <= p <= s.len(),
        inserted(s, x) == s.insert(p, x),
        rising(s) ==> rising(inserted(s, x)),
        forall|i: int| p <= i < s.len() ==> (#[trigger] s[i]).0 > x.0,
    decreases s.len(),
{
    if s.len() == 0 {
        assert(seq![x] =~= s.insert(0, x));
        0
    } else if s.last().0 <= x.0 {
        assert(s.push(x) =~= s.insert(s.len() as int, x));
        s.len() as int
    } else {
        let p = lemma_inserted(s.drop_last(), x);
        let r = inserted(s, x);
        assert(s.drop_last().insert(p, x).push(s.last()) =~= s.insert(p, x));
        if rising(s) {
            assert(rising(s.drop_last())) by {
                assert forall|i: int, j: int| 0 <= i <= j < s.drop_last().len() implies s.drop_last()[i].0
                    <= s.drop_last()[j].0 by {
                    assert(s[i].0 <= s[j].0);
                }
            }
            assert forall|i: int, j: int| 0 <= i <= j < r.len() implies r[i].0 <= r[j].0 by {
                let r0 = inserted(s.drop_last(), x);
                if j < r.len() - 1 {
                    assert(r[i] == r0[i] && r[j] == r0[j]);
                } else if i < j {
                    assert(r[i] == r0[i]);
                    if i < p {
                        assert(r0[i] == s[i]);
                        assert(s[i].0 <= s[s.len() - 1].0);
                    } else if i > p {
                        assert(r0[i] == s[i - 1]);
                        assert(s[i - 1].0 <= s[s.len() - 1].0);
                    }
                }
            }
        }
        assert forall|i: int| p <= i < s.len() implies (#[trigger] s[i]).0 > x.0 by {
            if i < s.len() - 1 {
                assert(s.drop_last()[i] == s[i]);
            }
        }
        p
    }
}

/// Sorting keeps the pairs and puts their keys in rising order.
pub proof fn lemma_sorted<T>(pairs: Seq<(int, T)>)
    ensures
        sorted(pairs).len() == pairs.len(),
        sorted(pairs).to_multiset() == pairs.to_multiset(),
        rising(sorted(pairs)),
    decreases pairs.len(),
{
    broadcast use vstd::seq_lib::group_to_multiset_ensures;

    if pairs.len() > 0 {
        lemma_sorted(pairs.drop_last());
        let s = sorted(pairs.drop_last());
        let p = lemma_inserted(s, pairs.last());
        vstd::seq_lib::to_multiset_insert(s, p, pairs.last());
        assert(pairs =~= pairs.drop_last().push(pairs.last()));
        assert(pairs.to_multiset() =~= pairs.drop_last().to_multiset().insert(pairs.last()));
    } else {
        assert(sorted(pairs) =~= pairs);
    }
}

/// Puts `items` in the order of their keys; items of equal key keep their
/// order.
pub fn sort_by_keys<T>(items: Vec<T>, keys: &Vec<u128>) -> (out: Vec<T>)
    requires
        items.len() == keys.len(),
    ensures
        out@ == sorted_by(items@, keys@),
        out@.len() == items@.len(),
{
    let ghost all = keyed(items@, keys@);
    let mut items = items;
    let mut out: Vec<T> = Vec::new();
    let mut out_keys: Vec<u128> = Vec::new();
    let mut done: usize = 0;
    assert(keyed(out@, out_keys@) =~= sorted(all.take(0)));
    // the items in reverse, so that they can be taken one by one from the first on
    let mut rest: Vec<T> = Vec::new();
    while items.len() > 0
        invariant
            items@.len() + rest@.len() == keys@.len(),
            forall|j: int| 0 <= j < items@.len() ==> items@[j] == all[j].1,
            forall|j: int|
                0 <= j < rest@.len() ==> rest@[j] == all[keys@.len() - 1 - j].1,
            all.len() == keys@.len(),
            forall|j: int| 0 <= j < all.len() ==> (#[trigger] all[j]).0 == keys@[j],
        decreases items.len(),
    {
        match items.pop() {
            Some(x) => {
                rest.push(x);
            },
            None => {},
        }
    }
    while done < keys.len()
        invariant
            done <= keys@.len(),
            rest@.len() == keys@.len() - done,
            all.len() == keys@.len(),
            forall|j: int| 0 <= j < all.len() ==> (#[trigger] all[j]).0 == keys@[j],
            forall|j: int|
                0 <= j < rest@.len() ==> rest@[j] == all[keys@.len() - 1 - j].1,
            out@.len() == out_keys@.len(),
            keyed(out@, out_keys@) == sorted(all.take(done as int)),
        decreases keys.len() - done,
    {
        let key = keys[done];
        let ghost before = keyed(out@, out_keys@);
        let ghost ov = out@;
        let ghost kv = out_keys@;
        match rest.pop() {
            Some(x) => {
                let ghost pair = (key as int, x);
                assert(pair == all[done as int]);
                let mut p: usize = out.len();
                assert(before.take(p as int) == before);
                assert(inserted(before.take(p as int), pair) + before.skip(p as int) =~= inserted(
                    before,
                    pair,
                ));
                while p > 0 && out_keys[p - 1] > key
                    invariant
                        p <= out@.len(),
                        out@ == ov,
                        out_keys@ == kv,
                        ov.len() == kv.len(),
                        before == keyed(ov, kv),
                        pair.0 == key,
                        inserted(before.take(p as int), pair) + before.skip(p as int) == inserted(
                            before,
                            pair,
                        ),
                    decreases p,
                {
                    proof {
                        let head = before.take(p as int);
                        assert(head.last() == before[p - 1]);
                        assert(head.drop_last() == before.take(p - 1));
                        assert(inserted(before.take(p - 1), pair) + before.skip(p - 1) =~= inserted(
                            head,
                            pair,
                        ) + before.skip(p as int));
                    }
                    p -= 1;
                }
                proof {
                    let head = before.take(p as int);
                    if p > 0 {
                        assert(head.last() == before[p - 1]);
                    }
                    assert(inserted(head, pair) == head.push(pair));
                    assert(head.push(pair) + before.skip(p as int) =~= before.insert(p as int, pair));
                    assert(all.take(done + 1).drop_last() == all.take(done as int));
                    assert(all.take(done + 1).last() == pair);
                }
                out.insert(p, x);
                out_keys.insert(p, key);
                assert(keyed(out@, out_keys@) =~= before.insert(p as int, pair));
            },
            None => {},
        }
        done += 1;
    }
    proof {
        assert(all.take(done as int) == all);
        lemma_sorted(all);
        assert(out@ =~= items_of(keyed(out@, out_keys@)));
    }
    out
}

/// The pairs with `f` applied to each item.
pub open spec fn mapped<T, U>(pairs: Seq<(int, T)>, f: spec_fn(T) -> U) -> Seq<(int, U)> {
    Seq::new(pairs.len(), |i: int| (pairs[i].0, f(pairs[i].1)))
}

/// Where a pair is put depends on the keys alone.
pub proof fn lemma_inserted_mapped<T, U>(s: Seq<(int, T)>, x: (int, T), f: spec_fn(T) -> U)
    ensures
        mapped(inserted(s, x), f) == inserted(mapped(s, f), (x.0, f(x.1))),
    decreases s.len(),
{
    let y = (x.0, f(x.1));
    if s.len() == 0 {
        assert(mapped(seq![x], f) =~= seq![y]);
    } else if s.last().0 <= x.0 {
        assert(mapped(s.push(x), f) =~= mapped(s, f).push(y));
    } else {
        lemma_inserted_mapped(s.drop_last(), x, f);
        assert(mapped(s, f).drop_last() =~= mapped(s.drop_last(), f));
        assert(mapped(inserted(s.drop_last(), x).push(s.last()), f) =~= mapped(
            inserted(s.drop_last(), x),
            f,
        ).push(mapped(s, f).last()));
    }
}

/// The order that sorting gives depends on the keys alone.
pub proof fn lemma_sorted_mapped<T, U>(pairs: Seq<(int, T)>, f: spec_fn(T) -> U)
    ensures
        mapped(sorted(pairs), f) == sorted(mapped(pairs, f)),
    decreases pairs.len(),
{
    if pairs.len() == 0 {
        assert(mapped(sorted(pairs), f) =~= sorted(mapped(pairs, f)));
    } else {
        lemma_sorted_mapped(pairs.drop_last(), f);
        lemma_inserted_mapped(sorted(pairs.drop_last()), pairs.last(), f);
        assert(mapped(pairs, f).drop_last() =~= mapped(pairs.drop_last(), f));
    }
}

/// Sorting items and then looking at something of each is sorting what is
/// looked at.
pub proof fn lemma_sorted_by_mapped<T, U>(items: Seq<T>, keys: Seq<u128>, f: spec_fn(T) -> U)
    ensures
        sorted_by(items, keys).map_values(f) == sorted_by(items.map_values(f), keys),
{
    lemma_sorted_mapped(keyed(items, keys), f);
    assert(mapped(keyed(items, keys), f) =~= keyed(items.map_values(f), keys));
    assert(sorted_by(items, keys).map_values(f) =~= items_of(mapped(sorted(keyed(items, keys)), f)));
}

} // verus!
