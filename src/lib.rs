use vstd::prelude::*;

pub mod app_state;
pub mod commands;
pub mod compat;
pub mod data_server;
pub mod ledger;
pub mod mutation_tracker;
pub mod packets;
pub mod permissions;
pub mod reconcile;
pub mod roster_order;
pub mod serialization;

verus! {

/// Numeric identifier of a profile.
#[derive(Clone, Copy, Debug, PartialEq, Eq, Structural, Hash)]
pub struct ProfilID(pub u32);

/// Numeric identifier of a class.
#[derive(Clone, Copy, Debug, PartialEq, Eq, Structural, Hash)]
pub struct ClassID(pub u32);

/// A login: a unique name and its password.
#[derive(Clone, Debug)]
pub struct Identity {
    pub name: String,
    pub password: String,
}

impl Identity {
    /// A copy whose strings hold the same text.
    pub fn duplicate(&self) -> (r: Identity)
        ensures
            r == *self,
    {
        Identity { name: self.name.clone(), password: self.password.clone() }
    }
}

/// Position of the first occurrence of `k` in `keys`, or -1 when it does not occur.
pub open spec fn first_pos<K>(keys: Seq<K>, k: K) -> int
    decreases keys.len(),
{
    if keys.len() == 0 {
        -1
    } else {
        let p = first_pos(keys.drop_last(), k);
        if p >= 0 {
            p
        } else if keys.last() == k {
            keys.len() - 1
        } else {
            -1
        }
    }
}

/// The position an optional index stands for, -1 for none.
pub open spec fn opt_pos(r: Option<usize>) -> int {
    match r {
        Some(i) => i as int,
        None => -1,
    }
}

/// `first_pos` is either -1 or the index of a first match.
pub proof fn lemma_first_pos<K>(keys: Seq<K>, k: K)
    ensures
        -1 <= first_pos(keys, k) < keys.len(),
        first_pos(keys, k) >= 0 ==> keys[first_pos(keys, k)] == k,
        forall|j: int| 0 <= j < keys.len() && (first_pos(keys, k) < 0 || j < first_pos(keys, k))
            ==> keys[j] != k,
    decreases keys.len(),
{
    if keys.len() > 0 {
        let init = keys.drop_last();
        lemma_first_pos(init, k);
        assert forall|j: int|
            0 <= j < keys.len() && (first_pos(keys, k) < 0 || j < first_pos(keys, k)) implies keys[j]
            != k by {
            if j < keys.len() - 1 {
                assert(keys[j] == init[j]);
            }
        }
    }
}

/// A first match in a prefix is the first match of the whole sequence.
pub proof fn lemma_first_pos_prefix<K>(keys: Seq<K>, n: int, k: K)
    requires
        0 <= n <= keys.len(),
        first_pos(keys.take(n), k) >= 0,
    ensures
        first_pos(keys, k) == first_pos(keys.take(n), k),
    decreases keys.len() - n,
{
    if n < keys.len() {
        assert(keys.take(n + 1).drop_last() =~= keys.take(n));
        lemma_first_pos_prefix(keys, n + 1, k);
    } else {
        assert(keys.take(n) =~= keys);
    }
}

/// The step of a forward search: extending the searched prefix by one element.
pub proof fn lemma_first_pos_step<K>(keys: Seq<K>, i: int, k: K)
    requires
        0 <= i < keys.len(),
        first_pos(keys.take(i), k) == -1,
    ensures
        first_pos(keys.take(i + 1), k) == (if keys[i] == k { i } else { -1 }),
        keys[i] == k ==> first_pos(keys, k) == i,
{
    assert(keys.take(i + 1).drop_last() =~= keys.take(i));
    if keys[i] == k {
        lemma_first_pos_prefix(keys, i + 1, k);
    }
}

/// A search that covered every element without a match.
pub proof fn lemma_first_pos_done<K>(keys: Seq<K>, k: K)
    requires
        first_pos(keys.take(keys.len() as int), k) == -1,
    ensures
        first_pos(keys, k) == -1,
{
    assert(keys.take(keys.len() as int) =~= keys);
}

/// In a sequence without duplicates each element is its own first match.
pub proof fn lemma_first_pos_distinct<K>(keys: Seq<K>, i: int)
    requires
        keys.no_duplicates(),
        0 <= i < keys.len(),
    ensures
        first_pos(keys, keys[i]) == i,
{
    lemma_first_pos(keys, keys[i]);
}

/// An element occurs exactly when it has a first match.
pub proof fn lemma_first_pos_contains<K>(keys: Seq<K>, k: K)
    ensures
        keys.contains(k) <==> first_pos(keys, k) >= 0,
{
    lemma_first_pos(keys, k);
    if first_pos(keys, k) >= 0 {
        assert(keys[first_pos(keys, k)] == k);
    }
}

/// Appending an absent element keeps a sequence free of duplicates.
pub proof fn lemma_no_dup_push<K>(s: Seq<K>, x: K)
    requires
        s.no_duplicates(),
        !s.contains(x),
    ensures
        s.push(x).no_duplicates(),
        forall|y: K| s.push(x).contains(y) <==> (s.contains(y) || y == x),
{
    let t = s.push(x);
    assert forall|i: int, j: int| 0 <= i < t.len() && 0 <= j < t.len() && i != j implies t[i] != t[j] by {
        if i < s.len() && j < s.len() {
            assert(t[i] == s[i] && t[j] == s[j]);
        } else if i < s.len() {
            assert(t[i] == s[i]);
        } else {
            assert(t[j] == s[j]);
        }
    }
    assert forall|y: K| t.contains(y) <==> (s.contains(y) || y == x) by {
        if t.contains(y) {
            let w = choose|w: int| 0 <= w < t.len() && t[w] == y;
            if w < s.len() {
                assert(s[w] == y);
            }
        }
        if s.contains(y) {
            let w = choose|w: int| 0 <= w < s.len() && s[w] == y;
            assert(t[w] == y);
        }
        if y == x {
            assert(t[s.len() as int] == y);
        }
    }
}

/// Removing an element keeps a sequence free of duplicates, and removes exactly
/// that element.
pub proof fn lemma_no_dup_remove<K>(s: Seq<K>, i: int)
    requires
        s.no_duplicates(),
        0 <= i < s.len(),
    ensures
        s.remove(i).no_duplicates(),
        forall|y: K| s.remove(i).contains(y) <==> (s.contains(y) && y != s[i]),
{
    let t = s.remove(i);
    assert forall|a: int, b: int| 0 <= a < t.len() && 0 <= b < t.len() && a != b implies t[a] != t[b] by {
        let a2 = if a < i { a } else { a + 1 };
        let b2 = if b < i { b } else { b + 1 };
        assert(t[a] == s[a2] && t[b] == s[b2]);
    }
    assert forall|y: K| t.contains(y) <==> (s.contains(y) && y != s[i]) by {
        if t.contains(y) {
            let w = choose|w: int| 0 <= w < t.len() && t[w] == y;
            let w2 = if w < i { w } else { w + 1 };
            assert(s[w2] == y);
        }
        if s.contains(y) && y != s[i] {
            let w = choose|w: int| 0 <= w < s.len() && s[w] == y;
            if w < i {
                assert(t[w] == y);
            } else {
                assert(t[w - 1] == y);
            }
        }
    }
}

/// Replacing an element by an absent one keeps a sequence free of duplicates.
pub proof fn lemma_no_dup_update<K>(s: Seq<K>, i: int, x: K)
    requires
        s.no_duplicates(),
        0 <= i < s.len(),
        !s.contains(x),
    ensures
        s.update(i, x).no_duplicates(),
{
    let t = s.update(i, x);
    assert forall|a: int, b: int| 0 <= a < t.len() && 0 <= b < t.len() && a != b implies t[a] != t[b] by {
        if a == i {
            assert(s[b] == t[b]);
        } else if b == i {
            assert(s[a] == t[a]);
        }
    }
}

} // verus!
