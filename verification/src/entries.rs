//! The collections behind a `TickArraySequence`: the tick arrays keyed by their
//! account address, and the ascending start indices of the arrays loaded.
use vstd::prelude::*;
use vstd::relations::sorted_by;

use solana_program::pubkey::Pubkey;

use crate::pubkey::{pubkey_of_bytes, pubkey_to_bytes};
use crate::types::TickArrayFacade;

verus! {

/// The map that inserting each pair of `s` in turn builds: a later pair for a key
/// replaces an earlier one.
pub open spec fn map_of(s: Seq<(Pubkey, TickArrayFacade)>) -> Map<Pubkey, TickArrayFacade>
    decreases s.len(),
{
    if s.len() == 0 {
        Map::empty()
    } else {
        map_of(s.drop_last()).insert(s.last().0, s.last().1)
    }
}

/// No two pairs of `s` share a key.
pub open spec fn distinct_keys(s: Seq<(Pubkey, TickArrayFacade)>) -> bool {
    forall|i: int, j: int|
        0 <= i < s.len() && 0 <= j < s.len() && i != j ==> #[trigger] s[i].0 != #[trigger] s[j].0
}

/// No two pairs of `s` hold tick arrays with the same start index.
pub open spec fn distinct_starts(s: Seq<(Pubkey, TickArrayFacade)>) -> bool {
    forall|i: int, j: int|
        0 <= i < s.len() && 0 <= j < s.len() && i != j ==> #[trigger] s[i].1.start_tick_index
            != #[trigger] s[j].1.start_tick_index
}

/// The start indices of the tick arrays of `s`, in the order of `s`.
pub open spec fn starts_of(s: Seq<(Pubkey, TickArrayFacade)>) -> Seq<i32> {
    s.map_values(|e: (Pubkey, TickArrayFacade)| e.1.start_tick_index)
}

/// `m` without the tick arrays that start at `start`.
pub open spec fn without_start(m: Map<Pubkey, TickArrayFacade>, start: i32) -> Map<
    Pubkey,
    TickArrayFacade,
> {
    m.restrict(m.dom().filter(|k: Pubkey| m[k].start_tick_index != start))
}

/// Each element of `s` is larger than the one before it.
pub open spec fn strictly_increasing(s: Seq<i32>) -> bool {
    forall|i: int, j: int| 0 <= i < j < s.len() ==> #[trigger] s[i] < #[trigger] s[j]
}

/// The order `<=` on `i32`, as a relation.
pub open spec fn le_i32() -> spec_fn(i32, i32) -> bool {
    |a: i32, b: i32| a <= b
}

/// The elements of a finite set of integers in ascending order.
pub open spec fn ascending(set: Set<i32>) -> Seq<i32> {
    choose|s: Seq<i32>| strictly_increasing(s) && s.to_set() == set
}

/// The map after adding the pairs of `added` to `m` in turn: each pair first drops
/// every tick array that starts where its own does, then goes in under its key.
pub open spec fn add_arrays(
    m: Map<Pubkey, TickArrayFacade>,
    added: Seq<(Pubkey, TickArrayFacade)>,
) -> Map<Pubkey, TickArrayFacade>
    decreases added.len(),
{
    if added.len() == 0 {
        m
    } else {
        let e = added.last();
        without_start(add_arrays(m, added.drop_last()), e.1.start_tick_index).insert(e.0, e.1)
    }
}

/// For pairs with distinct keys, the map holds exactly their keys, each with its
/// own tick array.
pub proof fn lemma_map_of_distinct(s: Seq<(Pubkey, TickArrayFacade)>)
    requires
        distinct_keys(s),
    ensures
        forall|k: Pubkey|
            #[trigger] map_of(s).dom().contains(k) <==> exists|i: int|
                0 <= i < s.len() && #[trigger] s[i].0 == k,
        forall|i: int| 0 <= i < s.len() ==> #[trigger] map_of(s)[s[i].0] == s[i].1,
    decreases s.len(),
{
    if s.len() > 0 {
        let t = s.drop_last();
        assert(distinct_keys(t));
        lemma_map_of_distinct(t);
        let n = s.len() - 1;
        assert(map_of(s) == map_of(t).insert(s.last().0, s.last().1));
        assert forall|k: Pubkey| #[trigger] map_of(s).dom().contains(k) implies exists|i: int|
            0 <= i < s.len() && #[trigger] s[i].0 == k by {
            if k != s[n].0 {
                assert(map_of(s) == map_of(t).insert(s.last().0, s.last().1));
                assert(map_of(t).dom().contains(k));
                let i = choose|i: int| 0 <= i < t.len() && #[trigger] t[i].0 == k;
                assert(s[i].0 == k);
            } else {
                assert(s[n].0 == k);
            }
        }
        assert forall|k: Pubkey|
            (exists|i: int| 0 <= i < s.len() && #[trigger] s[i].0 == k) implies #[trigger] map_of(
            s,
        ).dom().contains(k) by {
            let i = choose|i: int| 0 <= i < s.len() && #[trigger] s[i].0 == k;
            if i < n {
                assert(t[i].0 == k);
                assert(map_of(t).dom().contains(k));
            }
        }
        assert forall|i: int| 0 <= i < s.len() implies #[trigger] map_of(s)[s[i].0] == s[i].1 by {
            if i < n {
                assert(t[i] == s[i]);
                assert(s[i].0 != s[n].0);
                assert(map_of(t)[t[i].0] == t[i].1);
            }
        }
    }
}

/// Pairs with distinct keys, each of which also stands in `v`, have distinct start
/// indices when those of `v` are distinct.
pub proof fn lemma_distinct_starts_of_subset(
    r: Seq<(Pubkey, TickArrayFacade)>,
    v: Seq<(Pubkey, TickArrayFacade)>,
)
    requires
        distinct_keys(r),
        distinct_starts(v),
        forall|i: int| 0 <= i < r.len() ==> v.contains(#[trigger] r[i]),
    ensures
        distinct_starts(r),
{
    assert forall|i: int, j: int| 0 <= i < r.len() && 0 <= j < r.len() && i != j implies #[trigger] r[i].1.start_tick_index
        != #[trigger] r[j].1.start_tick_index by {
        assert(v.contains(r[i]));
        assert(v.contains(r[j]));
        let a = choose|a: int| 0 <= a < v.len() && v[a] == r[i];
        let b = choose|b: int| 0 <= b < v.len() && v[b] == r[j];
        assert(r[i].0 != r[j].0);
        assert(a != b);
    }
}

/// Pairs with distinct keys, each of which is `(key, facade)` or stands in `kept`,
/// have distinct start indices when those of `kept` are distinct and differ from
/// that of `facade`.
pub proof fn lemma_distinct_starts_after_insert(
    kept: Seq<(Pubkey, TickArrayFacade)>,
    r: Seq<(Pubkey, TickArrayFacade)>,
    key: Pubkey,
    facade: TickArrayFacade,
)
    requires
        distinct_keys(r),
        distinct_starts(kept),
        forall|i: int| 0 <= i < r.len() ==> #[trigger] r[i] == (key, facade) || kept.contains(r[i]),
        forall|i: int|
            0 <= i < kept.len() ==> #[trigger] kept[i].1.start_tick_index != facade.start_tick_index,
    ensures
        distinct_starts(r),
{
    assert forall|a: int, b: int| 0 <= a < r.len() && 0 <= b < r.len() && a != b implies #[trigger] r[a].1.start_tick_index
        != #[trigger] r[b].1.start_tick_index by {
        assert(r[a].0 != r[b].0);
        if r[a] == (key, facade) {
            assert(kept.contains(r[b]));
            let y = choose|y: int| 0 <= y < kept.len() && kept[y] == r[b];
        } else if r[b] == (key, facade) {
            assert(kept.contains(r[a]));
            let x = choose|x: int| 0 <= x < kept.len() && kept[x] == r[a];
        } else {
            assert(kept.contains(r[a]));
            assert(kept.contains(r[b]));
            let x = choose|x: int| 0 <= x < kept.len() && kept[x] == r[a];
            let y = choose|y: int| 0 <= y < kept.len() && kept[y] == r[b];
            assert(x != y);
        }
    }
}

/// One more pair adds its start index to the set of start indices.
pub proof fn lemma_starts_of_take_next(s: Seq<(Pubkey, TickArrayFacade)>, i: int)
    requires
        0 <= i < s.len(),
    ensures
        starts_of(s.take(i + 1)).to_set() == starts_of(s.take(i)).to_set().insert(
            s[i].1.start_tick_index,
        ),
{
    let t0 = s.take(i);
    let t1 = s.take(i + 1);
    let x0 = s[i].1.start_tick_index;
    assert(starts_of(t1) =~= starts_of(t0).push(x0));
    assert forall|x: i32| #[trigger] starts_of(t1).contains(x) <==> starts_of(t0).contains(x) || x
        == x0 by {
        if starts_of(t1).contains(x) && x != x0 {
            let j = choose|j: int| 0 <= j < starts_of(t1).len() && starts_of(t1)[j] == x;
            assert(starts_of(t0)[j] == x);
        }
        if starts_of(t0).contains(x) {
            let j = choose|j: int| 0 <= j < starts_of(t0).len() && starts_of(t0)[j] == x;
            assert(starts_of(t1)[j] == x);
        }
        if x == x0 {
            assert(starts_of(t1)[i] == x);
        }
    }
    assert(starts_of(t1).to_set() =~= starts_of(t0).to_set().insert(x0));
}

/// Two strictly increasing sequences with the same elements are equal.
pub proof fn lemma_strictly_increasing_unique(x: Seq<i32>, y: Seq<i32>)
    requires
        strictly_increasing(x),
        strictly_increasing(y),
        x.to_set() == y.to_set(),
    ensures
        x == y,
{
    broadcast use vstd::seq_lib::group_to_multiset_ensures;
    broadcast use vstd::multiset::group_multiset_axioms;

    lemma_le_total();
    assert(x.no_duplicates());
    assert(y.no_duplicates());
    x.lemma_multiset_has_no_duplicates();
    y.lemma_multiset_has_no_duplicates();
    assert forall|e: i32| x.to_multiset().count(e) == y.to_multiset().count(e) by {
        assert(x.to_set().contains(e) <==> x.contains(e));
        assert(y.to_set().contains(e) <==> y.contains(e));
        if x.contains(e) {
            assert(x.to_multiset().contains(e));
            assert(y.to_multiset().contains(e));
        } else {
            assert(!y.contains(e));
        }
    }
    assert(x.to_multiset() =~= y.to_multiset());
    assert(sorted_by(x, le_i32()));
    assert(sorted_by(y, le_i32()));
    vstd::seq_lib::lemma_sorted_unique(x, y, le_i32());
}

/// A strictly increasing sequence is the ascending order of its own elements.
pub proof fn lemma_ascending_of(s: Seq<i32>)
    requires
        strictly_increasing(s),
    ensures
        ascending(s.to_set()) == s,
{
    let a = ascending(s.to_set());
    assert(strictly_increasing(a) && a.to_set() == s.to_set());
    lemma_strictly_increasing_unique(a, s);
}

/// `<=` on `i32` is a total order.
pub proof fn lemma_le_total()
    ensures
        vstd::relations::total_ordering(le_i32()),
{
}

/// Two sequences of pairs that ascend strictly by key and hold the same pairs are
/// equal.
pub proof fn lemma_sorted_same_elements(
    x: Seq<(Pubkey, TickArrayFacade)>,
    y: Seq<(Pubkey, TickArrayFacade)>,
)
    requires
        sorted_by_key(x),
        sorted_by_key(y),
        forall|e: (Pubkey, TickArrayFacade)| x.contains(e) <==> y.contains(e),
    ensures
        x == y,
    decreases x.len(),
{
    if x.len() == 0 {
        if y.len() > 0 {
            assert(y.contains(y[0]));
        }
        assert(x =~= y);
    } else {
        assert(x.contains(x[0]));
        assert(y.len() > 0);
        assert(y.contains(y[0]));
        let i = choose|i: int| 0 <= i < x.len() && x[i] == y[0];
        let j = choose|j: int| 0 <= j < y.len() && y[j] == x[0];
        if i > 0 && j > 0 {
            assert(key_before(x[0].0, x[i].0));
            assert(key_before(y[0].0, y[j].0));
            lemma_bytes_before_asymmetric(key_bytes(x[0].0), key_bytes(x[i].0));
        } else if i > 0 {
            assert(y[0] == x[0]);
        }
        assert(x[0] == y[0]);
        let x1 = x.drop_first();
        let y1 = y.drop_first();
        assert forall|e: (Pubkey, TickArrayFacade)| x1.contains(e) <==> y1.contains(e) by {
            if x1.contains(e) {
                let a = choose|a: int| 0 <= a < x1.len() && x1[a] == e;
                assert(x[a + 1] == e);
                assert(key_before(x[0].0, x[a + 1].0));
                assert(y.contains(e));
                let b = choose|b: int| 0 <= b < y.len() && y[b] == e;
                if b == 0 {
                    assert(key_before(e.0, e.0));
                }
                assert(y1[b - 1] == e);
            }
            if y1.contains(e) {
                let a = choose|a: int| 0 <= a < y1.len() && y1[a] == e;
                assert(y[a + 1] == e);
                assert(key_before(y[0].0, y[a + 1].0));
                assert(x.contains(e));
                let b = choose|b: int| 0 <= b < x.len() && x[b] == e;
                if b == 0 {
                    assert(key_before(e.0, e.0));
                }
                assert(x1[b - 1] == e);
            }
        }
        assert(sorted_by_key(x1)) by {
            assert forall|a: int, b: int| 0 <= a < b < x1.len() implies #[trigger] key_before(
                x1[a].0,
                x1[b].0,
            ) by {
                assert(key_before(x[a + 1].0, x[b + 1].0));
            }
        }
        assert(sorted_by_key(y1)) by {
            assert forall|a: int, b: int| 0 <= a < b < y1.len() implies #[trigger] key_before(
                y1[a].0,
                y1[b].0,
            ) by {
                assert(key_before(y[a + 1].0, y[b + 1].0));
            }
        }
        lemma_sorted_same_elements(x1, y1);
        assert(x =~= y) by {
            assert forall|a: int| 0 <= a < x.len() implies x[a] == y[a] by {
                if a > 0 {
                    assert(x[a] == x1[a - 1]);
                    assert(y[a] == y1[a - 1]);
                }
            }
        }
    }
}

/// Mapping two sequences that hold the same elements, counted with their
/// repetitions, gives sequences that do too.
pub proof fn lemma_map_values_to_multiset<A, B>(x: Seq<A>, y: Seq<A>, f: spec_fn(A) -> B)
    requires
        x.to_multiset() == y.to_multiset(),
    ensures
        x.map_values(f).to_multiset() == y.map_values(f).to_multiset(),
    decreases x.len(),
{
    broadcast use vstd::seq_lib::group_to_multiset_ensures;
    broadcast use vstd::multiset::group_multiset_axioms;

    if x.len() == 0 {
        assert(y.to_multiset().len() == 0);
        assert(y.len() == 0);
        assert(x.map_values(f) =~= y.map_values(f));
    } else {
        let e = x[0];
        assert(x.to_multiset().count(e) > 0);
        assert(y.contains(e));
        let j = choose|j: int| 0 <= j < y.len() && y[j] == e;
        let x1 = x.drop_first();
        let y1 = y.remove(j);
        assert(x =~= x1.insert(0, e));
        assert(y =~= y1.insert(j, e));
        vstd::seq_lib::to_multiset_insert(x1, 0, e);
        vstd::seq_lib::to_multiset_insert(y1, j, e);
        assert(x1.to_multiset() =~= y1.to_multiset()) by {
            assert forall|a: A| x1.to_multiset().count(a) == y1.to_multiset().count(a) by {
                assert(x1.to_multiset().insert(e).count(a) == y1.to_multiset().insert(e).count(a));
            }
        }
        lemma_map_values_to_multiset(x1, y1, f);
        assert(x.map_values(f) =~= x1.map_values(f).insert(0, f(e)));
        assert(y.map_values(f) =~= y1.map_values(f).insert(j, f(e)));
        vstd::seq_lib::to_multiset_insert(x1.map_values(f), 0, f(e));
        vstd::seq_lib::to_multiset_insert(y1.map_values(f), j, f(e));
    }
}

/// The addresses of the pairs of `s`, in the order of `s`.
pub open spec fn keys_of(s: Seq<(Pubkey, TickArrayFacade)>) -> Seq<Pubkey> {
    s.map_values(|e: (Pubkey, TickArrayFacade)| e.0)
}

/// The tick arrays of `m` that adding the pairs of `s` leaves alone: those under an
/// address that no pair of `s` uses, starting where no array of `s` starts.
pub open spec fn untouched(
    m: Map<Pubkey, TickArrayFacade>,
    s: Seq<(Pubkey, TickArrayFacade)>,
) -> Map<Pubkey, TickArrayFacade> {
    m.restrict(
        m.dom().filter(
            |k: Pubkey| !keys_of(s).contains(k) && !starts_of(s).contains(m[k].start_tick_index),
        ),
    )
}

/// Adding pairs to a map gives the arrays it leaves alone, together with what
/// adding the same pairs to an empty map gives; the latter sits under addresses of
/// the pairs only.
pub proof fn lemma_add_arrays_split(
    m: Map<Pubkey, TickArrayFacade>,
    s: Seq<(Pubkey, TickArrayFacade)>,
)
    ensures
        add_arrays(m, s) == untouched(m, s).union_prefer_right(add_arrays(Map::empty(), s)),
        forall|k: Pubkey|
            #[trigger] add_arrays(Map::empty(), s).dom().contains(k) ==> keys_of(s).contains(k),
    decreases s.len(),
{
    if s.len() == 0 {
        assert(untouched(m, s) =~= m);
        assert(add_arrays(m, s).union_prefer_right(Map::<Pubkey, TickArrayFacade>::empty())
            =~= add_arrays(m, s));
    } else {
        let t = s.drop_last();
        let e = s.last();
        let k = e.0;
        let st = e.1.start_tick_index;
        lemma_add_arrays_split(m, t);
        let at = add_arrays(m, t);
        let a0t = add_arrays(Map::<Pubkey, TickArrayFacade>::empty(), t);
        let a0s = add_arrays(Map::<Pubkey, TickArrayFacade>::empty(), s);
        assert(add_arrays(m, s) == without_start(at, st).insert(k, e.1));
        assert(a0s == without_start(a0t, st).insert(k, e.1));
        assert(keys_of(s) =~= keys_of(t).push(k));
        assert(starts_of(s) =~= starts_of(t).push(st));
        assert forall|q: Pubkey| #[trigger] keys_of(s).contains(q) <==> keys_of(t).contains(q) || q == k by {
            if keys_of(s).contains(q) {
                let i = choose|i: int| 0 <= i < keys_of(s).len() && keys_of(s)[i] == q;
                if i < t.len() {
                    assert(keys_of(t)[i] == q);
                }
            }
            if keys_of(t).contains(q) {
                let i = choose|i: int| 0 <= i < keys_of(t).len() && keys_of(t)[i] == q;
                assert(keys_of(s)[i] == q);
            }
            if q == k {
                assert(keys_of(s)[t.len() as int] == q);
            }
        }
        assert forall|x: i32| #[trigger] starts_of(s).contains(x) <==> starts_of(t).contains(x) || x == st by {
            if starts_of(s).contains(x) {
                let i = choose|i: int| 0 <= i < starts_of(s).len() && starts_of(s)[i] == x;
                if i < t.len() {
                    assert(starts_of(t)[i] == x);
                }
            }
            if starts_of(t).contains(x) {
                let i = choose|i: int| 0 <= i < starts_of(t).len() && starts_of(t)[i] == x;
                assert(starts_of(s)[i] == x);
            }
            if x == st {
                assert(starts_of(s)[t.len() as int] == x);
            }
        }
        let lhs = add_arrays(m, s);
        let rhs = untouched(m, s).union_prefer_right(a0s);
        assert forall|q: Pubkey| #[trigger] lhs.dom().contains(q) <==> rhs.dom().contains(q) by {
            if q != k {
                if lhs.dom().contains(q) {
                    assert(at.dom().contains(q));
                    if !a0t.dom().contains(q) {
                        assert(untouched(m, t).dom().contains(q));
                        assert(untouched(m, s).dom().contains(q));
                    } else {
                        assert(a0s.dom().contains(q));
                    }
                }
                if rhs.dom().contains(q) {
                    if a0s.dom().contains(q) {
                        assert(a0t.dom().contains(q));
                    } else {
                        assert(untouched(m, s).dom().contains(q));
                        assert(untouched(m, t).dom().contains(q));
                    }
                }
            }
        }
        assert forall|q: Pubkey| #[trigger] lhs.dom().contains(q) implies lhs[q] == rhs[q] by {
            if q != k {
                if !a0t.dom().contains(q) {
                    assert(untouched(m, t).dom().contains(q));
                }
            }
        }
        assert(lhs =~= rhs);
        assert forall|q: Pubkey| #[trigger] a0s.dom().contains(q) implies keys_of(s).contains(q) by {
            if q != k {
                assert(a0t.dom().contains(q));
            }
        }
    }
}

/// Adding the same pairs a second time changes nothing.
pub proof fn lemma_add_arrays_twice(
    m: Map<Pubkey, TickArrayFacade>,
    s: Seq<(Pubkey, TickArrayFacade)>,
)
    ensures
        add_arrays(add_arrays(m, s), s) == add_arrays(m, s),
{
    let a = add_arrays(m, s);
    let a0 = add_arrays(Map::<Pubkey, TickArrayFacade>::empty(), s);
    lemma_add_arrays_split(m, s);
    lemma_add_arrays_split(a, s);
    assert(untouched(a, s) =~= untouched(m, s)) by {
        assert forall|q: Pubkey| #[trigger] untouched(a, s).dom().contains(q) <==> untouched(
            m,
            s,
        ).dom().contains(q) by {
            if a0.dom().contains(q) {
                assert(keys_of(s).contains(q));
            }
        }
        assert forall|q: Pubkey| #[trigger] untouched(a, s).dom().contains(q) implies untouched(
            a,
            s,
        )[q] == untouched(m, s)[q] by {
            if a0.dom().contains(q) {
                assert(keys_of(s).contains(q));
            }
        }
    }
}

/// Whether two byte arrays hold the same bytes.
fn bytes_eq(a: &[u8; 32], b: &[u8; 32]) -> (same: bool)
    ensures
        same == (a@ == b@),
{
    let mut i: usize = 0;
    while i < 32
        invariant
            0 <= i <= 32,
            forall|j: int| 0 <= j < i ==> a@[j] == b@[j],
        decreases 32 - i,
    {
        if a[i] != b[i] {
            return false;
        }
        i = i + 1;
    }
    assert(a@ =~= b@);
    true
}

/// `a` comes before `b` in the byte-wise (lexicographic) order: at the first
/// position where they differ, the byte of `a` is the smaller.
pub open spec fn bytes_before(a: Seq<u8>, b: Seq<u8>) -> bool {
    exists|i: int|
        0 <= i < a.len() && i < b.len() && #[trigger] a[i] < #[trigger] b[i] && forall|j: int|
            0 <= j < i ==> a[j] == b[j]
}

/// The 32 bytes that name the address `key`.
pub open spec fn key_bytes(key: Pubkey) -> Seq<u8> {
    choose|x: Seq<u8>| x.len() == 32 && #[trigger] pubkey_of_bytes(x) == key
}

/// The address `a` comes before `b` in the byte-wise order of their bytes.
pub open spec fn key_before(a: Pubkey, b: Pubkey) -> bool {
    bytes_before(key_bytes(a), key_bytes(b))
}

/// The keys of `s` ascend strictly in the byte-wise order.
pub open spec fn sorted_by_key(s: Seq<(Pubkey, TickArrayFacade)>) -> bool {
    forall|i: int, j: int| 0 <= i < j < s.len() ==> #[trigger] key_before(s[i].0, s[j].0)
}

/// The byte-wise order is transitive.
pub proof fn lemma_bytes_before_transitive(a: Seq<u8>, b: Seq<u8>, c: Seq<u8>)
    requires
        bytes_before(a, b),
        bytes_before(b, c),
    ensures
        bytes_before(a, c),
{
    let i = choose|i: int|
        0 <= i < a.len() && i < b.len() && #[trigger] a[i] < #[trigger] b[i] && forall|j: int|
            0 <= j < i ==> a[j] == b[j];
    let k = choose|k: int|
        0 <= k < b.len() && k < c.len() && #[trigger] b[k] < #[trigger] c[k] && forall|j: int|
            0 <= j < k ==> b[j] == c[j];
    if i <= k {
        assert(a[i] < c[i]);
        assert(forall|j: int| 0 <= j < i ==> a[j] == c[j]);
    } else {
        assert(a[k] < c[k]);
        assert(forall|j: int| 0 <= j < k ==> a[j] == c[j]);
    }
}

/// Before an index where two sequences differ lies a first one.
proof fn lemma_first_difference(a: Seq<u8>, b: Seq<u8>, i: int)
    requires
        0 <= i < a.len(),
        i < b.len(),
        a[i] != b[i],
    ensures
        exists|k: int|
            0 <= k <= i && #[trigger] a[k] != #[trigger] b[k] && forall|j: int|
                0 <= j < k ==> a[j] == b[j],
    decreases i,
{
    if exists|j: int| 0 <= j < i && #[trigger] a[j] != #[trigger] b[j] {
        let j = choose|j: int| 0 <= j < i && #[trigger] a[j] != #[trigger] b[j];
        lemma_first_difference(a, b, j);
    } else {
        assert(forall|j: int| 0 <= j < i ==> a[j] == b[j]);
    }
}

/// Of two different byte sequences of one length, one comes first.
pub proof fn lemma_bytes_before_total(a: Seq<u8>, b: Seq<u8>)
    requires
        a.len() == b.len(),
        a != b,
    ensures
        bytes_before(a, b) || bytes_before(b, a),
{
    if forall|j: int| 0 <= j < a.len() ==> a[j] == b[j] {
        assert(a =~= b);
    }
    let i = choose|i: int| !(0 <= i < a.len() ==> a[i] == b[i]);
    lemma_first_difference(a, b, i);
    let k = choose|k: int|
        0 <= k <= i && #[trigger] a[k] != #[trigger] b[k] && forall|j: int|
            0 <= j < k ==> a[j] == b[j];
    if a[k] < b[k] {
        assert(bytes_before(a, b));
    } else {
        assert(b[k] < a[k]);
        assert(forall|j: int| 0 <= j < k ==> b[j] == a[j]);
        assert(bytes_before(b, a));
    }
}

/// Of two byte sequences, at most one comes before the other.
pub proof fn lemma_bytes_before_asymmetric(a: Seq<u8>, b: Seq<u8>)
    requires
        bytes_before(a, b),
    ensures
        !bytes_before(b, a),
{
    if bytes_before(b, a) {
        lemma_bytes_before_transitive(a, b, a);
    }
}

/// Whether `a` comes before `b` in the byte-wise order.
fn bytes_less(a: &[u8; 32], b: &[u8; 32]) -> (less: bool)
    ensures
        less == bytes_before(a@, b@),
{
    let mut i: usize = 0;
    while i < 32
        invariant
            0 <= i <= 32,
            forall|j: int| 0 <= j < i ==> a@[j] == b@[j],
        decreases 32 - i,
    {
        if a[i] != b[i] {
            proof {
                if a@[i as int] < b@[i as int] {
                    assert(bytes_before(a@, b@));
                } else if bytes_before(a@, b@) {
                    let k = choose|k: int|
                        0 <= k < a@.len() && k < b@.len() && #[trigger] a@[k] < #[trigger] b@[k]
                            && forall|j: int| 0 <= j < k ==> a@[j] == b@[j];
                    if k > i {
                        assert(a@[i as int] == b@[i as int]);
                    }
                }
            }
            return a[i] < b[i];
        }
        i = i + 1;
    }
    proof {
        if bytes_before(a@, b@) {
            let k = choose|k: int|
                0 <= k < a@.len() && k < b@.len() && #[trigger] a@[k] < #[trigger] b@[k]
                    && forall|j: int| 0 <= j < k ==> a@[j] == b@[j];
            assert(a@[k] == b@[k]);
        }
    }
    false
}

/// The position of the pair with key `key`, if there is one.
pub fn find_key(v: &Vec<(Pubkey, TickArrayFacade)>, key: &Pubkey) -> (found: Option<usize>)
    ensures
        match found {
            Some(i) => i < v@.len() && v@[i as int].0 == *key,
            None => forall|i: int| 0 <= i < v@.len() ==> #[trigger] v@[i].0 != *key,
        },
{
    let key_bytes = pubkey_to_bytes(key);
    let mut i: usize = 0;
    while i < v.len()
        invariant
            0 <= i <= v@.len(),
            pubkey_of_bytes(key_bytes@) == *key,
            forall|other: Seq<u8>|
                other.len() == 32 && #[trigger] pubkey_of_bytes(other) == *key ==> other
                    == key_bytes@,
            forall|j: int| 0 <= j < i ==> #[trigger] v@[j].0 != *key,
        decreases v@.len() - i,
    {
        let b = pubkey_to_bytes(&v[i].0);
        if bytes_eq(&b, &key_bytes) {
            return Some(i);
        }
        assert(b@.len() == 32);
        i = i + 1;
    }
    None
}

/// The position before which `key` goes in the byte-wise order of the keys: the
/// first pair whose key `key` comes before, or the end.
fn key_position(v: &Vec<(Pubkey, TickArrayFacade)>, key: &Pubkey) -> (p: usize)
    ensures
        p <= v@.len(),
        forall|j: int| 0 <= j < p ==> !key_before(*key, #[trigger] v@[j].0),
        forall|j: int|
            0 <= j < p ==> #[trigger] v@[j].0 == *key || key_before(v@[j].0, *key),
        p < v@.len() ==> key_before(*key, v@[p as int].0),
{
    let key_bytes = pubkey_to_bytes(key);
    let mut p: usize = 0;
    proof {
        assert(crate::entries::key_bytes(*key) == key_bytes@);
    }
    while p < v.len()
        invariant
            0 <= p <= v@.len(),
            pubkey_of_bytes(key_bytes@) == *key,
            crate::entries::key_bytes(*key) == key_bytes@,
            forall|j: int| 0 <= j < p ==> !key_before(*key, #[trigger] v@[j].0),
            forall|j: int|
                0 <= j < p ==> #[trigger] v@[j].0 == *key || key_before(v@[j].0, *key),
        decreases v@.len() - p,
    {
        let b = pubkey_to_bytes(&v[p].0);
        let less = bytes_less(&key_bytes, &b);
        proof {
            let other = v@[p as int].0;
            assert(b@.len() == 32);
            assert(key_bytes@.len() == 32);
            assert(crate::entries::key_bytes(other) == b@);
            if !less {
                if key_bytes@ == b@ {
                    assert(other == *key);
                } else {
                    lemma_bytes_before_total(key_bytes@, b@);
                    assert(key_before(other, *key));
                }
            }
        }
        if less {
            return p;
        }
        p = p + 1;
    }
    p
}

/// Inserts the pair `(key, facade)`, replacing the pair with that key if there is
/// one. Pairs are kept in the byte-wise order of their keys.
pub fn insert_entry(v: &mut Vec<(Pubkey, TickArrayFacade)>, key: Pubkey, facade: TickArrayFacade)
    requires
        distinct_keys(old(v)@),
    ensures
        distinct_keys(final(v)@),
        sorted_by_key(old(v)@) ==> sorted_by_key(final(v)@),
        map_of(final(v)@) == map_of(old(v)@).insert(key, facade),
        final(v)@.contains((key, facade)),
        forall|i: int|
            0 <= i < final(v)@.len() ==> #[trigger] final(v)@[i] == (key, facade) || old(
                v,
            )@.contains(final(v)@[i]),
{
    let ghost old_v = v@;
    proof {
        lemma_map_of_distinct(old_v);
    }
    match find_key(v, &key) {
        Some(i) => {
            v.set(i, (key, facade));
            let ghost new_v = v@;
            assert(forall|j: int| 0 <= j < new_v.len() ==> #[trigger] new_v[j].0 == old_v[j].0);
            assert forall|j: int| 0 <= j < new_v.len() && j != i implies #[trigger] old_v.contains(
                new_v[j],
            ) by {
                assert(old_v[j] == new_v[j]);
            }
            assert(new_v[i as int] == (key, facade));
            assert(distinct_keys(new_v));
            proof {
                lemma_map_of_distinct(new_v);
            }
            assert forall|k: Pubkey| #[trigger]
                map_of(new_v).dom().contains(k) <==> map_of(old_v).insert(
                    key,
                    facade,
                ).dom().contains(k) by {
                if map_of(old_v).dom().contains(k) {
                    let j = choose|j: int| 0 <= j < old_v.len() && #[trigger] old_v[j].0 == k;
                    assert(new_v[j].0 == k);
                }
                if k == key {
                    assert(new_v[i as int].0 == k);
                }
                if map_of(new_v).dom().contains(k) {
                    let j = choose|j: int| 0 <= j < new_v.len() && #[trigger] new_v[j].0 == k;
                    assert(old_v[j].0 == k);
                }
            }
            assert forall|k: Pubkey| #[trigger]
                map_of(new_v).dom().contains(k) implies map_of(new_v)[k] == map_of(
                old_v,
            ).insert(key, facade)[k] by {
                let j = choose|j: int| 0 <= j < new_v.len() && #[trigger] new_v[j].0 == k;
                if j != i {
                    assert(old_v[j] == new_v[j]);
                    assert(old_v[j].0 != old_v[i as int].0);
                }
            }
            assert(map_of(new_v) =~= map_of(old_v).insert(key, facade));
            assert(sorted_by_key(old_v) ==> sorted_by_key(new_v)) by {
                if sorted_by_key(old_v) {
                    assert forall|a: int, b: int| 0 <= a < b < new_v.len() implies #[trigger] key_before(
                        new_v[a].0,
                        new_v[b].0,
                    ) by {
                        assert(key_before(old_v[a].0, old_v[b].0));
                    }
                }
            }
        },
        None => {
            let p = key_position(v, &key);
            v.insert(p, (key, facade));
            let ghost new_v = v@;
            assert(new_v[p as int] == (key, facade));
            assert forall|j: int| 0 <= j < new_v.len() && j != p implies #[trigger] old_v.contains(
                new_v[j],
            ) by {
                if j < p {
                    assert(old_v[j] == new_v[j]);
                } else {
                    assert(old_v[j - 1] == new_v[j]);
                }
            }
            assert(distinct_keys(new_v)) by {
                assert forall|a: int, b: int|
                    0 <= a < new_v.len() && 0 <= b < new_v.len() && a != b implies #[trigger] new_v[a].0
                    != #[trigger] new_v[b].0 by {
                    let a2 = if a < p { a } else { a - 1 };
                    let b2 = if b < p { b } else { b - 1 };
                    if a != p && b != p {
                        assert(old_v[a2] == new_v[a]);
                        assert(old_v[b2] == new_v[b]);
                    } else if a != p {
                        assert(old_v[a2] == new_v[a]);
                    } else {
                        assert(old_v[b2] == new_v[b]);
                    }
                }
            }
            proof {
                lemma_map_of_distinct(new_v);
            }
            assert forall|k: Pubkey| #[trigger]
                map_of(new_v).dom().contains(k) <==> map_of(old_v).insert(
                    key,
                    facade,
                ).dom().contains(k) by {
                if map_of(old_v).dom().contains(k) {
                    let j = choose|j: int| 0 <= j < old_v.len() && #[trigger] old_v[j].0 == k;
                    if j < p {
                        assert(new_v[j].0 == k);
                    } else {
                        assert(new_v[j + 1].0 == k);
                    }
                }
                if k == key {
                    assert(new_v[p as int].0 == k);
                }
                if map_of(new_v).dom().contains(k) && k != key {
                    let j = choose|j: int| 0 <= j < new_v.len() && #[trigger] new_v[j].0 == k;
                    if j < p {
                        assert(old_v[j].0 == k);
                    } else {
                        assert(old_v[j - 1].0 == k);
                    }
                }
            }
            assert forall|k: Pubkey| #[trigger]
                map_of(new_v).dom().contains(k) implies map_of(new_v)[k] == map_of(
                old_v,
            ).insert(key, facade)[k] by {
                let j = choose|j: int| 0 <= j < new_v.len() && #[trigger] new_v[j].0 == k;
                if j < p {
                    assert(old_v[j] == new_v[j]);
                } else if j > p {
                    assert(old_v[j - 1] == new_v[j]);
                }
            }
            assert(map_of(new_v) =~= map_of(old_v).insert(key, facade));
            assert(sorted_by_key(old_v) ==> sorted_by_key(new_v)) by {
                if sorted_by_key(old_v) {
                    assert forall|a: int, b: int| 0 <= a < b < new_v.len() implies #[trigger] key_before(
                        new_v[a].0,
                        new_v[b].0,
                    ) by {
                        if a != p && b != p {
                            let a2 = if a < p { a } else { a - 1 };
                            let b2 = if b < p { b } else { b - 1 };
                            assert(old_v[a2] == new_v[a] && old_v[b2] == new_v[b]);
                            assert(key_before(old_v[a2].0, old_v[b2].0));
                        } else if a == p {
                            assert(new_v[b] == old_v[b - 1]);
                            assert(key_before(key, old_v[p as int].0));
                            if b - 1 > p {
                                assert(key_before(old_v[p as int].0, old_v[b - 1].0));
                                lemma_bytes_before_transitive(
                                    key_bytes(key),
                                    key_bytes(old_v[p as int].0),
                                    key_bytes(old_v[b - 1].0),
                                );
                            }
                        } else {
                            assert(new_v[a] == old_v[a]);
                            assert(old_v[a].0 != key);
                        }
                    }
                }
            }
        },
    }
}

/// The pairs of `v` whose tick array does not start at `start`, in their order.
pub fn remove_start(v: &Vec<(Pubkey, TickArrayFacade)>, start: i32) -> (kept: Vec<
    (Pubkey, TickArrayFacade),
>)
    requires
        distinct_keys(v@),
    ensures
        distinct_keys(kept@),
        sorted_by_key(v@) ==> sorted_by_key(kept@),
        map_of(kept@) == without_start(map_of(v@), start),
        forall|i: int| 0 <= i < kept@.len() ==> v@.contains(#[trigger] kept@[i]),
        forall|i: int|
            0 <= i < kept@.len() ==> #[trigger] kept@[i].1.start_tick_index != start,
{
    let mut kept: Vec<(Pubkey, TickArrayFacade)> = Vec::new();
    let ghost mut pos: Seq<int> = Seq::empty();
    let mut i: usize = 0;
    while i < v.len()
        invariant
            0 <= i <= v@.len(),
            kept@.len() == pos.len(),
            forall|a: int| 0 <= a < pos.len() ==> 0 <= #[trigger] pos[a] < i,
            forall|a: int, b: int| 0 <= a < b < pos.len() ==> #[trigger] pos[a] < #[trigger] pos[b],
            forall|a: int| 0 <= a < pos.len() ==> #[trigger] kept@[a] == v@[pos[a]],
            forall|a: int|
                0 <= a < kept@.len() ==> #[trigger] kept@[a].1.start_tick_index != start,
            forall|j: int|
                0 <= j < i && #[trigger] v@[j].1.start_tick_index != start ==> exists|a: int|
                    0 <= a < pos.len() && pos[a] == j,
        decreases v@.len() - i,
    {
        let ghost old_pos = pos;
        if v[i].1.start_tick_index != start {
            kept.push(v[i]);
            proof {
                pos = pos.push(i as int);
            }
        }
        proof {
            assert forall|j: int|
                0 <= j < i + 1 && #[trigger] v@[j].1.start_tick_index != start implies exists|a: int|
                0 <= a < pos.len() && pos[a] == j by {
                if j == i {
                    assert(pos[pos.len() - 1] == j);
                } else {
                    assert(v@[j].1.start_tick_index != start);
                    let a = choose|a: int| 0 <= a < old_pos.len() && old_pos[a] == j;
                    assert(pos[a] == j);
                }
            }
        }
        i = i + 1;
    }
    let ghost r = kept@;
    assert(distinct_keys(r)) by {
        assert forall|a: int, b: int|
            0 <= a < r.len() && 0 <= b < r.len() && a != b implies #[trigger] r[a].0
            != #[trigger] r[b].0 by {
            assert(r[a] == v@[pos[a]]);
            assert(r[b] == v@[pos[b]]);
            assert(pos[a] != pos[b]);
        }
    }
    assert forall|a: int| 0 <= a < r.len() implies v@.contains(#[trigger] r[a]) by {
        assert(r[a] == v@[pos[a]]);
    }
    assert(sorted_by_key(v@) ==> sorted_by_key(r)) by {
        if sorted_by_key(v@) {
            assert forall|a: int, b: int| 0 <= a < b < r.len() implies #[trigger] key_before(
                r[a].0,
                r[b].0,
            ) by {
                assert(r[a] == v@[pos[a]]);
                assert(r[b] == v@[pos[b]]);
                assert(key_before(v@[pos[a]].0, v@[pos[b]].0));
            }
        }
    }
    proof {
        lemma_map_of_distinct(v@);
        lemma_map_of_distinct(r);
        let m = map_of(v@);
        let w = without_start(m, start);
        assert forall|k: Pubkey| #[trigger] map_of(r).dom().contains(k) <==> w.dom().contains(k) by {
            if map_of(r).dom().contains(k) {
                let a = choose|a: int| 0 <= a < r.len() && #[trigger] r[a].0 == k;
                assert(r[a] == v@[pos[a]]);
                assert(m.dom().contains(k));
                assert(m[k] == v@[pos[a]].1);
            }
            if w.dom().contains(k) {
                assert(m.dom().contains(k));
                let j = choose|j: int| 0 <= j < v@.len() && #[trigger] v@[j].0 == k;
                assert(m[v@[j].0] == v@[j].1);
                assert(v@[j].1.start_tick_index != start);
                let a = choose|a: int| 0 <= a < pos.len() && pos[a] == j;
                assert(r[a].0 == k);
            }
        }
        assert forall|k: Pubkey| #[trigger] map_of(r).dom().contains(k) implies map_of(r)[k] == w[k] by {
            let a = choose|a: int| 0 <= a < r.len() && #[trigger] r[a].0 == k;
            assert(r[a] == v@[pos[a]]);
            assert(m[v@[pos[a]].0] == v@[pos[a]].1);
        }
        assert(map_of(r) =~= w);
    }
    kept
}

/// Adds `x` to the ascending start indices `v`, unless it is there already.
pub fn insert_start(v: &mut Vec<i32>, x: i32)
    requires
        strictly_increasing(old(v)@),
    ensures
        strictly_increasing(final(v)@),
        final(v)@.to_set() == old(v)@.to_set().insert(x),
{
    let ghost old_v = v@;
    let mut p: usize = 0;
    while p < v.len() && v[p] < x
        invariant
            0 <= p <= v@.len(),
            v@ == old_v,
            forall|j: int| 0 <= j < p ==> #[trigger] v@[j] < x,
        decreases v@.len() - p,
    {
        p = p + 1;
    }
    if p < v.len() && v[p] == x {
        assert(old_v.to_set().insert(x) =~= old_v.to_set());
        return;
    }
    v.insert(p, x);
    let ghost new_v = v@;
    assert(strictly_increasing(new_v)) by {
        assert forall|a: int, b: int| 0 <= a < b < new_v.len() implies #[trigger] new_v[a]
            < #[trigger] new_v[b] by {
            if b < p {
                assert(new_v[a] == old_v[a] && new_v[b] == old_v[b]);
            } else if b == p {
                assert(new_v[a] == old_v[a]);
            } else if a < p {
                assert(new_v[a] == old_v[a] && new_v[b] == old_v[b - 1]);
                assert(old_v[p as int] > x);
            } else if a == p {
                assert(new_v[b] == old_v[b - 1]);
                assert(old_v[p as int] > x);
                assert(old_v[p as int] <= old_v[b - 1]);
            } else {
                assert(new_v[a] == old_v[a - 1] && new_v[b] == old_v[b - 1]);
            }
        }
    }
    assert forall|e: i32| #[trigger] new_v.to_set().contains(e) <==> old_v.to_set().insert(
        x,
    ).contains(e) by {
        if new_v.contains(e) {
            let j = choose|j: int| 0 <= j < new_v.len() && new_v[j] == e;
            if j < p {
                assert(old_v[j] == e);
            } else if j > p {
                assert(old_v[j - 1] == e);
            }
        }
        if old_v.contains(e) {
            let j = choose|j: int| 0 <= j < old_v.len() && old_v[j] == e;
            if j < p {
                assert(new_v[j] == e);
            } else {
                assert(new_v[j + 1] == e);
            }
        }
        if e == x {
            assert(new_v[p as int] == e);
        }
    }
    assert(new_v.to_set() =~= old_v.to_set().insert(x));
}

/// Adds `x` to the ascending sequence `v`, which may hold equal elements.
pub fn insert_ascending(v: &mut Vec<i32>, x: i32)
    requires
        sorted_by(old(v)@, le_i32()),
    ensures
        sorted_by(final(v)@, le_i32()),
        final(v)@.to_multiset() == old(v)@.to_multiset().insert(x),
{
    let ghost old_v = v@;
    let mut p: usize = 0;
    while p < v.len() && v[p] <= x
        invariant
            0 <= p <= v@.len(),
            v@ == old_v,
            forall|j: int| 0 <= j < p ==> #[trigger] v@[j] <= x,
        decreases v@.len() - p,
    {
        p = p + 1;
    }
    v.insert(p, x);
    proof {
        vstd::seq_lib::to_multiset_insert(old_v, p as int, x);
    }
    let ghost new_v = v@;
    assert(sorted_by(new_v, le_i32())) by {
        assert forall|a: int, b: int| 0 <= a < b < new_v.len() implies le_i32()(
            #[trigger] new_v[a],
            #[trigger] new_v[b],
        ) by {
            assert(sorted_by(old_v, le_i32()));
            if b < p {
                assert(new_v[a] == old_v[a] && new_v[b] == old_v[b]);
                assert(le_i32()(old_v[a], old_v[b]));
            } else if b == p {
                assert(new_v[a] == old_v[a]);
            } else if a < p {
                assert(new_v[a] == old_v[a] && new_v[b] == old_v[b - 1]);
                assert(le_i32()(old_v[p as int], old_v[b - 1]));
            } else if a == p {
                assert(new_v[b] == old_v[b - 1]);
                assert(le_i32()(old_v[p as int], old_v[b - 1]));
            } else {
                assert(new_v[a] == old_v[a - 1] && new_v[b] == old_v[b - 1]);
                assert(le_i32()(old_v[a - 1], old_v[b - 1]));
            }
        }
    }
}

/// Whether `x` is one of the elements of `v`.
pub fn contains_start(v: &Vec<i32>, x: i32) -> (found: bool)
    ensures
        found == v@.contains(x),
{
    let mut i: usize = 0;
    while i < v.len()
        invariant
            0 <= i <= v@.len(),
            forall|j: int| 0 <= j < i ==> #[trigger] v@[j] != x,
        decreases v@.len() - i,
    {
        if v[i] == x {
            assert(v@[i as int] == x);
            return true;
        }
        i = i + 1;
    }
    false
}

} // verus!
