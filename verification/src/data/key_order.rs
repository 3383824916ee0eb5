//! The order of stable keys and the dense positions that it gives them.
//!
//! A key is modelled by its two raw parts, the base label and the
//! disambiguator. Keys are ordered by base first and by disambiguator second.
//! The dense order of a finite set of keys is the one sequence that lists the
//! set in ascending order; the dense position of a key is its place in it.

use vstd::prelude::*;
use vstd::std_specs::btree::increasing_seq;
use vstd::std_specs::cmp::OrdSpec;

verus! {

/// Key `a` comes strictly before key `b`.
pub open spec fn precedes(a: (u32, u32), b: (u32, u32)) -> bool {
    a.0 < b.0 || (a.0 == b.0 && a.1 < b.1)
}

/// The keys of `s` stand in strictly ascending order.
pub open spec fn ascending(s: Seq<(u32, u32)>) -> bool {
    forall|i: int, j: int| 0 <= i < j < s.len() ==> precedes(#[trigger] s[i], #[trigger] s[j])
}

/// `s` lists exactly the keys of `keys`, in strictly ascending order.
pub open spec fn lists(s: Seq<(u32, u32)>, keys: Set<(u32, u32)>) -> bool {
    &&& ascending(s)
    &&& forall|k: (u32, u32)| keys.contains(k) <==> s.contains(k)
}

/// The keys of `keys` in ascending order: position `p` holds the key of dense
/// position `p`.
pub open spec fn dense_order(keys: Set<(u32, u32)>) -> Seq<(u32, u32)> {
    choose|s: Seq<(u32, u32)>| lists(s, keys)
}

/// The key at dense position `p` among `keys`.
pub open spec fn key_at(keys: Set<(u32, u32)>, p: int) -> (u32, u32) {
    dense_order(keys)[p]
}

/// The dense position of key `k` among `keys`.
pub open spec fn position_of(keys: Set<(u32, u32)>, k: (u32, u32)) -> int {
    dense_order(keys).index_of(k)
}

/// Every key of `keys` that carries the base label `base` has a disambiguator
/// below `free`.
pub open spec fn below_free(keys: Set<(u32, u32)>, base: u32, free: nat) -> bool {
    forall|k: (u32, u32)| keys.contains(k) && k.0 == base ==> k.1 < free
}

/// The key that insertion number `i` of a run of insertions under `base` gives
/// out, counting from 0, where `free` is the first disambiguator that no key
/// of the base has had when the run begins.
pub open spec fn nth_key(base: u32, free: nat, i: nat) -> (u32, u32) {
    (base, (free + i) as u32)
}

/// The set of keys after a run of `n` insertions under `base`.
pub open spec fn keys_after(keys: Set<(u32, u32)>, base: u32, free: nat, n: nat) -> Set<
    (u32, u32),
>
    decreases n,
{
    if n == 0 {
        keys
    } else {
        keys_after(keys, base, free, (n - 1) as nat).insert(nth_key(base, free, (n - 1) as nat))
    }
}

/// The test that a key comes strictly before `k`.
pub open spec fn comes_before(k: (u32, u32)) -> spec_fn((u32, u32)) -> bool {
    |j: (u32, u32)| precedes(j, k)
}

/// The rank of `k` among `keys`: how many keys of `keys` come before it.
pub open spec fn rank(keys: Set<(u32, u32)>, k: (u32, u32)) -> nat {
    keys.filter(comes_before(k)).len()
}

/// A strictly ascending sequence holds no key twice.
pub proof fn ascending_no_duplicates(s: Seq<(u32, u32)>)
    requires
        ascending(s),
    ensures
        s.no_duplicates(),
{
    assert forall|i: int, j: int| 0 <= i < s.len() && 0 <= j < s.len() && i != j implies s[i]
        != s[j] by {
        if i < j {
            assert(precedes(s[i], s[j]));
        } else {
            assert(precedes(s[j], s[i]));
        }
    }
}

/// A set of keys that some sequence lists is finite and as large as the
/// sequence is long.
pub proof fn listed_len(s: Seq<(u32, u32)>, keys: Set<(u32, u32)>)
    requires
        lists(s, keys),
    ensures
        keys.finite(),
        keys.len() == s.len(),
{
    ascending_no_duplicates(s);
    s.unique_seq_to_set();
    vstd::seq_lib::seq_to_set_is_finite(s);
    assert(s.to_set() =~= keys);
}

/// Without its last key, an ascending listing lists the set without that key.
proof fn lists_drop_last(s: Seq<(u32, u32)>, keys: Set<(u32, u32)>)
    requires
        lists(s, keys),
        s.len() > 0,
    ensures
        lists(s.drop_last(), keys.remove(s.last())),
{
    let rest = s.drop_last();
    ascending_no_duplicates(s);
    assert forall|k: (u32, u32)| keys.remove(s.last()).contains(k) <==> rest.contains(k) by {
        if keys.remove(s.last()).contains(k) {
            assert(s.contains(k));
            let i = choose|i: int| 0 <= i < s.len() && s[i] == k;
            assert(rest[i] == k);
        }
        if rest.contains(k) {
            let i = choose|i: int| 0 <= i < rest.len() && rest[i] == k;
            assert(s[i] == k);
            assert(precedes(s[i], s[s.len() - 1]));
        }
    }
}

/// Two ascending listings of one set of keys end in the same key.
proof fn lists_same_last(s1: Seq<(u32, u32)>, s2: Seq<(u32, u32)>, keys: Set<(u32, u32)>)
    requires
        lists(s1, keys),
        lists(s2, keys),
        s1.len() > 0,
        s2.len() > 0,
    ensures
        s1.last() == s2.last(),
{
    assert(s1.contains(s1.last())) by {
        assert(s1[s1.len() - 1] == s1.last());
    }
    assert(s2.contains(s2.last())) by {
        assert(s2[s2.len() - 1] == s2.last());
    }
    let j = choose|j: int| 0 <= j < s2.len() && s2[j] == s1.last();
    let i = choose|i: int| 0 <= i < s1.len() && s1[i] == s2.last();
    if j < s2.len() - 1 {
        assert(precedes(s2[j], s2[s2.len() - 1]));
        if i < s1.len() - 1 {
            assert(precedes(s1[i], s1[s1.len() - 1]));
        }
    }
}

/// A set of keys has at most one ascending listing.
pub proof fn listing_unique(s1: Seq<(u32, u32)>, s2: Seq<(u32, u32)>, keys: Set<(u32, u32)>)
    requires
        lists(s1, keys),
        lists(s2, keys),
    ensures
        s1 == s2,
    decreases s1.len(),
{
    listed_len(s1, keys);
    listed_len(s2, keys);
    if s1.len() > 0 {
        lists_same_last(s1, s2, keys);
        lists_drop_last(s1, keys);
        lists_drop_last(s2, keys);
        listing_unique(s1.drop_last(), s2.drop_last(), keys.remove(s1.last()));
        assert(s1 =~= s1.drop_last().push(s1.last()));
        assert(s2 =~= s2.drop_last().push(s2.last()));
    }
    assert(s1 =~= s2);
}

/// Whatever sequence lists a set of keys in ascending order is its dense order.
pub proof fn dense_order_is(s: Seq<(u32, u32)>, keys: Set<(u32, u32)>)
    requires
        lists(s, keys),
    ensures
        dense_order(keys) == s,
        lists(dense_order(keys), keys),
{
    listing_unique(dense_order(keys), s, keys);
}

/// `s` with key `k` put in at the place that keeps the order ascending.
pub open spec fn with_key(s: Seq<(u32, u32)>, k: (u32, u32)) -> Seq<(u32, u32)>
    decreases s.len(),
{
    if s.len() == 0 {
        seq![k]
    } else if precedes(s.last(), k) {
        s.push(k)
    } else {
        with_key(s.drop_last(), k).push(s.last())
    }
}

/// Putting a new key into an ascending listing gives an ascending listing of
/// the old keys and the new one.
proof fn with_key_lists(s: Seq<(u32, u32)>, keys: Set<(u32, u32)>, k: (u32, u32))
    requires
        lists(s, keys),
        !keys.contains(k),
    ensures
        lists(with_key(s, k), keys.insert(k)),
    decreases s.len(),
{
    let t = with_key(s, k);
    if s.len() == 0 {
        assert(t[0] == k);
        assert forall|x: (u32, u32)| keys.insert(k).contains(x) <==> t.contains(x) by {
            if keys.contains(x) {
                assert(s.contains(x));
            }
        }
    } else if precedes(s.last(), k) {
        assert forall|i: int, j: int| 0 <= i < j < t.len() implies precedes(
            #[trigger] t[i],
            #[trigger] t[j],
        ) by {
            if j == s.len() && i < s.len() - 1 {
                assert(precedes(s[i], s[s.len() - 1]));
            }
        }
        assert forall|x: (u32, u32)| keys.insert(k).contains(x) <==> t.contains(x) by {
            if keys.contains(x) {
                let i = choose|i: int| 0 <= i < s.len() && s[i] == x;
                assert(t[i] == x);
            }
            if x == k {
                assert(t[s.len() as int] == x);
            }
            if t.contains(x) {
                let i = choose|i: int| 0 <= i < t.len() && t[i] == x;
                if i < s.len() {
                    assert(s[i] == x);
                }
            }
        }
    } else {
        let last = s.last();
        let rest = s.drop_last();
        let u = with_key(rest, k);
        assert(s.contains(last)) by {
            assert(s[s.len() - 1] == last);
        }
        lists_drop_last(s, keys);
        with_key_lists(rest, keys.remove(last), k);
        assert forall|i: int, j: int| 0 <= i < j < t.len() implies precedes(
            #[trigger] t[i],
            #[trigger] t[j],
        ) by {
            if j == u.len() {
                assert(u.contains(u[i]));
                if u[i] != k {
                    assert(rest.contains(u[i]));
                    let m = choose|m: int| 0 <= m < rest.len() && rest[m] == u[i];
                    assert(precedes(s[m], s[s.len() - 1]));
                }
            } else {
                assert(precedes(u[i], u[j]));
            }
        }
        assert forall|x: (u32, u32)| keys.insert(k).contains(x) <==> t.contains(x) by {
            if keys.insert(k).contains(x) {
                if x == last {
                    assert(t[u.len() as int] == x);
                } else {
                    assert(keys.remove(last).insert(k).contains(x));
                    let i = choose|i: int| 0 <= i < u.len() && u[i] == x;
                    assert(t[i] == x);
                }
            }
            if t.contains(x) {
                let i = choose|i: int| 0 <= i < t.len() && t[i] == x;
                if i < u.len() {
                    assert(u[i] == x);
                    assert(u.contains(x));
                }
            }
        }
    }
}

/// Every finite set of keys has an ascending listing.
pub proof fn listing_exists(keys: Set<(u32, u32)>)
    requires
        keys.finite(),
    ensures
        lists(dense_order(keys), keys),
    decreases keys.len(),
{
    if keys.len() == 0 {
        let none = Seq::<(u32, u32)>::empty();
        assert forall|k: (u32, u32)| keys.contains(k) <==> none.contains(k) by {
            if keys.contains(k) {
                assert(keys.len() > 0);
            }
        }
        assert(lists(none, keys));
    } else {
        let k = keys.choose();
        listing_exists(keys.remove(k));
        with_key_lists(dense_order(keys.remove(k)), keys.remove(k), k);
        assert(keys.remove(k).insert(k) =~= keys);
        assert(lists(with_key(dense_order(keys.remove(k)), k), keys));
    }
}

/// The dense order of a finite set of keys is strictly ascending, holds each
/// key of the set once and nothing else, whatever order the keys came in.
pub proof fn law_dense_order_ascending(keys: Set<(u32, u32)>)
    requires
        keys.finite(),
    ensures
        ascending(dense_order(keys)),
        dense_order(keys).no_duplicates(),
        dense_order(keys).len() == keys.len(),
        forall|k: (u32, u32)| keys.contains(k) <==> dense_order(keys).contains(k),
{
    listing_exists(keys);
    ascending_no_duplicates(dense_order(keys));
    listed_len(dense_order(keys), keys);
}

/// The key at the dense position of a key is that key.
pub proof fn law_position_then_key(keys: Set<(u32, u32)>, k: (u32, u32))
    requires
        keys.finite(),
        keys.contains(k),
    ensures
        0 <= position_of(keys, k) < keys.len(),
        key_at(keys, position_of(keys, k)) == k,
{
    law_dense_order_ascending(keys);
    assert(dense_order(keys).contains(k));
}

/// The dense position of the key at a position is that position.
pub proof fn law_key_then_position(keys: Set<(u32, u32)>, p: int)
    requires
        keys.finite(),
        0 <= p < keys.len(),
    ensures
        keys.contains(key_at(keys, p)),
        position_of(keys, key_at(keys, p)) == p,
{
    law_dense_order_ascending(keys);
    let order = dense_order(keys);
    assert(order.contains(order[p]));
    let q = order.index_of(order[p]);
    assert(0 <= q < order.len() && order[q] == order[p]);
}

/// The dense position of a key is its rank: the number of keys before it.
pub proof fn law_position_is_rank(keys: Set<(u32, u32)>, k: (u32, u32))
    requires
        keys.finite(),
        keys.contains(k),
    ensures
        position_of(keys, k) == rank(keys, k),
{
    law_position_then_key(keys, k);
    law_dense_order_ascending(keys);
    let order = dense_order(keys);
    let p = position_of(keys, k);
    let lower = order.take(p);
    let before = keys.filter(comes_before(k));
    assert forall|x: (u32, u32)| before.contains(x) <==> lower.to_set().contains(x) by {
        if keys.contains(x) && precedes(x, k) {
            let i = choose|i: int| 0 <= i < order.len() && order[i] == x;
            if i > p {
                assert(precedes(order[p], order[i]));
            }
            assert(lower[i] == x);
        }
        if lower.contains(x) {
            let i = choose|i: int| 0 <= i < lower.len() && lower[i] == x;
            assert(order[i] == x);
            assert(order.contains(x));
            assert(precedes(order[i], order[p]));
        }
    }
    assert(before =~= lower.to_set());
    lower.unique_seq_to_set();
}

/// Taking a key out moves every later key one position down and leaves the
/// earlier keys where they are.
pub proof fn law_remove_shifts(keys: Set<(u32, u32)>, k: (u32, u32), other: (u32, u32))
    requires
        keys.finite(),
        keys.contains(k),
        keys.contains(other),
        other != k,
    ensures
        position_of(keys.remove(k), other) == if precedes(k, other) {
            position_of(keys, other) - 1
        } else {
            position_of(keys, other)
        },
{
    law_position_is_rank(keys, other);
    law_position_is_rank(keys.remove(k), other);
    let lower = keys.filter(comes_before(other));
    if precedes(k, other) {
        assert(keys.remove(k).filter(comes_before(other)) =~= lower.remove(k));
    } else {
        assert(keys.remove(k).filter(comes_before(other)) =~= lower);
    }
}

/// Putting a new key in moves every later key one position up and leaves the
/// earlier keys where they are.
pub proof fn law_insert_shifts(keys: Set<(u32, u32)>, k: (u32, u32), other: (u32, u32))
    requires
        keys.finite(),
        !keys.contains(k),
        keys.contains(other),
    ensures
        position_of(keys.insert(k), other) == if precedes(k, other) {
            position_of(keys, other) + 1
        } else {
            position_of(keys, other)
        },
{
    law_position_is_rank(keys, other);
    law_position_is_rank(keys.insert(k), other);
    let lower = keys.filter(comes_before(other));
    if precedes(k, other) {
        assert(keys.insert(k).filter(comes_before(other)) =~= lower.insert(k));
    } else {
        assert(keys.insert(k).filter(comes_before(other)) =~= lower);
    }
}

/// What a run of insertions under one base label has done to the set of keys:
/// it holds the old keys and the keys given out, and nothing else.
proof fn keys_after_holds(keys: Set<(u32, u32)>, base: u32, free: nat, n: nat)
    requires
        keys.finite(),
        below_free(keys, base, free),
        free + n <= 0x1_0000_0000,
    ensures
        keys_after(keys, base, free, n).finite(),
        keys_after(keys, base, free, n).len() == keys.len() + n,
        below_free(keys_after(keys, base, free, n), base, free + n),
        forall|k: (u32, u32)| #[trigger]
            keys_after(keys, base, free, n).contains(k) <==> keys.contains(k) || (k.0 == base
                && free <= k.1 < free + n),
    decreases n,
{
    if n > 0 {
        keys_after_holds(keys, base, free, (n - 1) as nat);
    }
}

/// A run of insertions under one base label gives out a different key each
/// time, each of them a key that the map did not hold before; it keeps every
/// key that the map held, and the map grows by one key with each.
pub proof fn law_repeated_inserts(keys: Set<(u32, u32)>, base: u32, free: nat, n: nat)
    requires
        keys.finite(),
        below_free(keys, base, free),
        free + n <= 0x1_0000_0000,
    ensures
        forall|i: nat, j: nat|
            i < j < n ==> #[trigger] nth_key(base, free, i) != #[trigger] nth_key(base, free, j),
        forall|i: nat|
            i < n ==> !keys_after(keys, base, free, i).contains(#[trigger] nth_key(base, free, i)),
        forall|k: (u32, u32)| keys.contains(k) ==> keys_after(keys, base, free, n).contains(k),
        keys_after(keys, base, free, n).finite(),
        keys_after(keys, base, free, n).len() == keys.len() + n,
        below_free(keys_after(keys, base, free, n), base, free + n),
{
    keys_after_holds(keys, base, free, n);
    assert forall|i: nat| i < n implies !keys_after(keys, base, free, i).contains(
        #[trigger] nth_key(base, free, i),
    ) by {
        keys_after_holds(keys, base, free, i);
    }
}

/// A key that was given out is not given out again, whether it was removed or
/// not: the keys of a base label are numbered upwards, so that a key given out
/// when the first free disambiguator was `earlier` differs from one given out
/// when it was `later`.
pub proof fn law_key_not_reissued(base: u32, earlier: nat, later: nat)
    requires
        earlier < later <= u32::MAX,
    ensures
        nth_key(base, later, 0) != nth_key(base, earlier, 0),
{
}

/// Taking a key out of a set leaves every key of a base label below the
/// disambiguators that were free for it.
pub proof fn law_remove_keeps_free(keys: Set<(u32, u32)>, k: (u32, u32), base: u32, free: nat)
    requires
        below_free(keys, base, free),
    ensures
        below_free(keys.remove(k), base, free),
{
}

/// What an ordered table of the standard library calls increasing is ascending
/// in the order of keys.
pub proof fn increasing_is_ascending(s: Seq<&(u32, u32)>)
    requires
        increasing_seq(s),
    ensures
        ascending(s.unref()),
{
    broadcast use {vstd::laws_cmp::group_laws_cmp, vstd::std_specs::btree::group_btree_axioms};

    assert(forall|i: int, j: int|
        0 <= i < j < s.len() ==> OrdSpec::cmp_spec(&s[i], &s[j]) is Less);
    assert forall|i: int, j: int| 0 <= i < j < s.len() implies precedes(
        #[trigger] s.unref()[i],
        #[trigger] s.unref()[j],
    ) by {
        assert(OrdSpec::cmp_spec(&s[i], &s[j]) is Less);
    }
}

} // verus!
