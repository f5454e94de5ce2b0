//! Records kept in a sequence under distinct 128-bit keys.
//!
//! Writing a record replaces the one under the same key and moves it to the
//! end, as a table that deletes the old row and appends the new one does.

use vstd::prelude::*;

verus! {

/// No two records share a key.
pub open spec fn unique_keys<T>(s: Seq<T>, key: spec_fn(T) -> u128) -> bool {
    forall|i: int, j: int|
        0 <= i < s.len() && 0 <= j < s.len() && i != j ==> key(#[trigger] s[i]) != key(
            #[trigger] s[j],
        )
}

/// Some record has key `k`.
pub open spec fn has_key<T>(s: Seq<T>, key: spec_fn(T) -> u128, k: u128) -> bool {
    exists|i: int| 0 <= i < s.len() && key(#[trigger] s[i]) == k
}

/// The position of a record with key `k`.
pub open spec fn key_index<T>(s: Seq<T>, key: spec_fn(T) -> u128, k: u128) -> int {
    choose|i: int| 0 <= i < s.len() && key(#[trigger] s[i]) == k
}

/// The record with key `k`, if any.
pub open spec fn lookup<T>(s: Seq<T>, key: spec_fn(T) -> u128, k: u128) -> Option<T> {
    if has_key(s, key, k) {
        Some(s[key_index(s, key, k)])
    } else {
        None
    }
}

/// `s` with `x` written: the record under the same key, if any, leaves, and
/// `x` goes to the end.
pub open spec fn upsert<T>(s: Seq<T>, key: spec_fn(T) -> u128, x: T) -> Seq<T> {
    if has_key(s, key, key(x)) {
        s.remove(key_index(s, key, key(x))).push(x)
    } else {
        s.push(x)
    }
}

/// `s` without the record under key `k`.
pub open spec fn remove_key<T>(s: Seq<T>, key: spec_fn(T) -> u128, k: u128) -> Seq<T> {
    if has_key(s, key, k) {
        s.remove(key_index(s, key, k))
    } else {
        s
    }
}

/// With distinct keys, the record at position `i` is the one found under its
/// key.
pub proof fn lemma_key_index<T>(s: Seq<T>, key: spec_fn(T) -> u128, i: int)
    requires
        unique_keys(s, key),
        0 <= i < s.len(),
    ensures
        has_key(s, key, key(s[i])),
        key_index(s, key, key(s[i])) == i,
{
    assert(0 <= i < s.len() && key(s[i]) == key(s[i]));
    let k = key_index(s, key, key(s[i]));
    if k != i {
        assert(key(s[k]) != key(s[i]));
    }
}

/// Removing a record keeps the keys distinct.
pub proof fn lemma_remove_unique<T>(s: Seq<T>, key: spec_fn(T) -> u128, i: int)
    requires
        unique_keys(s, key),
        0 <= i < s.len(),
    ensures
        unique_keys(s.remove(i), key),
        forall|k: u128| #[trigger] has_key(s.remove(i), key, k) <==> (has_key(s, key, k) && k != key(s[i])),
{
    let t = s.remove(i);
    assert forall|a: int, b: int|
        0 <= a < t.len() && 0 <= b < t.len() && a != b implies key(#[trigger] t[a]) != key(
        #[trigger] t[b],
    ) by {
        let sa = if a < i { a } else { a + 1 };
        let sb = if b < i { b } else { b + 1 };
        assert(t[a] == s[sa] && t[b] == s[sb]);
    }
    assert forall|k: u128| #[trigger] has_key(t, key, k) <==> (has_key(s, key, k) && k != key(s[i])) by {
        if has_key(t, key, k) {
            let a = choose|a: int| 0 <= a < t.len() && key(#[trigger] t[a]) == k;
            let sa = if a < i { a } else { a + 1 };
            assert(t[a] == s[sa]);
            assert(sa != i);
        }
        if has_key(s, key, k) && k != key(s[i]) {
            let b = choose|b: int| 0 <= b < s.len() && key(#[trigger] s[b]) == k;
            if b < i {
                assert(t[b] == s[b]);
            } else {
                assert(t[b - 1] == s[b]);
            }
        }
    }
}

/// Writing keeps the keys distinct, and the written record is found under
/// its key.
pub proof fn lemma_upsert<T>(s: Seq<T>, key: spec_fn(T) -> u128, x: T)
    requires
        unique_keys(s, key),
    ensures
        unique_keys(upsert(s, key, x), key),
        upsert(s, key, x).len() > 0,
        upsert(s, key, x).last() == x,
        forall|k: u128| #[trigger] has_key(upsert(s, key, x), key, k) <==> (has_key(s, key, k) || k == key(x)),
{
    let base = if has_key(s, key, key(x)) {
        s.remove(key_index(s, key, key(x)))
    } else {
        s
    };
    if has_key(s, key, key(x)) {
        let i = key_index(s, key, key(x));
        lemma_remove_unique(s, key, i);
    }
    assert(!has_key(base, key, key(x)));
    let t = base.push(x);
    assert(upsert(s, key, x) == t);
    assert forall|a: int, b: int|
        0 <= a < t.len() && 0 <= b < t.len() && a != b implies key(#[trigger] t[a]) != key(
        #[trigger] t[b],
    ) by {
        if a < base.len() && b < base.len() {
            assert(t[a] == base[a] && t[b] == base[b]);
        } else if a < base.len() {
            assert(t[a] == base[a]);
        } else {
            assert(t[b] == base[b]);
        }
    }
    assert forall|k: u128| #[trigger] has_key(t, key, k) <==> (has_key(s, key, k) || k == key(x)) by {
        if has_key(t, key, k) {
            let a = choose|a: int| 0 <= a < t.len() && key(#[trigger] t[a]) == k;
            if a < base.len() {
                assert(t[a] == base[a]);
                assert(has_key(base, key, k));
            }
        }
        if has_key(s, key, k) && k != key(x) {
            assert(has_key(base, key, k));
            let b = choose|b: int| 0 <= b < base.len() && key(#[trigger] base[b]) == k;
            assert(t[b] == base[b]);
        }
        if k == key(x) {
            assert(t[base.len() as int] == x);
        }
    }
}

/// Reading a key right after writing a record under it gives that record.
pub proof fn law_read_after_write<T>(s: Seq<T>, key: spec_fn(T) -> u128, x: T)
    requires
        unique_keys(s, key),
    ensures
        lookup(upsert(s, key, x), key, key(x)) == Some(x),
{
    lemma_upsert(s, key, x);
    let t = upsert(s, key, x);
    lemma_key_index(t, key, t.len() - 1);
}

/// Writing a record leaves what is read under every other key unchanged.
pub proof fn law_write_leaves_other_keys<T>(s: Seq<T>, key: spec_fn(T) -> u128, x: T, k: u128)
    requires
        unique_keys(s, key),
        k != key(x),
    ensures
        lookup(upsert(s, key, x), key, k) == lookup(s, key, k),
{
    lemma_upsert(s, key, x);
    let t = upsert(s, key, x);
    if has_key(s, key, k) {
        let i = key_index(s, key, k);
        lemma_key_index(s, key, i);
        let base = if has_key(s, key, key(x)) {
            s.remove(key_index(s, key, key(x)))
        } else {
            s
        };
        assert(t == base.push(x));
        let j = key_index(t, key, k);
        lemma_key_index(t, key, j);
        assert(j < t.len() - 1);
        assert(t[j] == base[j]);
        if has_key(s, key, key(x)) {
            let r = key_index(s, key, key(x));
            let sj = if j < r { j } else { j + 1 };
            assert(base[j] == s[sj]);
            lemma_key_index(s, key, sj);
        } else {
            lemma_key_index(s, key, j);
        }
    }
}

/// After a record is removed, nothing is read under its key; every other key
/// reads as before.
pub proof fn law_remove_then_read<T>(s: Seq<T>, key: spec_fn(T) -> u128, k: u128, other: u128)
    requires
        unique_keys(s, key),
        other != k,
    ensures
        lookup(remove_key(s, key, k), key, k) == None::<T>,
        lookup(remove_key(s, key, k), key, other) == lookup(s, key, other),
        unique_keys(remove_key(s, key, k), key),
{
    if has_key(s, key, k) {
        let i = key_index(s, key, k);
        lemma_key_index(s, key, i);
        lemma_remove_unique(s, key, i);
        let t = s.remove(i);
        if has_key(s, key, other) {
            let j = key_index(s, key, other);
            lemma_key_index(s, key, j);
            let tj = key_index(t, key, other);
            lemma_key_index(t, key, tj);
            let sj = if tj < i { tj } else { tj + 1 };
            assert(t[tj] == s[sj]);
            lemma_key_index(s, key, sj);
        }
    }
}

} // verus!
