//! Tables of records that carry unique numeric ids handed out in order.
use vstd::prelude::*;

verus! {

/// A record identified by a numeric key.
pub trait Keyed {
    spec fn key(&self) -> usize;

    fn get_key(&self) -> (r: usize)
        ensures
            r == self.key(),
    ;
}

/// Keys are pairwise distinct and below `next`, which is at least 1.
pub open spec fn keys_wf<T: Keyed>(s: Seq<T>, next: usize) -> bool {
    &&& next >= 1
    &&& forall|i: int| 0 <= i < s.len() ==> #[trigger] s[i].key() < next
    &&& forall|i: int, j: int|
        0 <= i < s.len() && 0 <= j < s.len() && i != j ==> #[trigger] s[i].key() != #[trigger] s[j].key()
}

/// Whether some record has key `k`.
pub open spec fn has_key<T: Keyed>(s: Seq<T>, k: usize) -> bool {
    exists|i: int| 0 <= i < s.len() && #[trigger] s[i].key() == k
}

/// The position of the record with key `k` (meaningful when `has_key`).
pub open spec fn key_index<T: Keyed>(s: Seq<T>, k: usize) -> int {
    choose|i: int| 0 <= i < s.len() && #[trigger] s[i].key() == k
}

/// The record with key `k` (meaningful when `has_key`).
pub open spec fn by_key<T: Keyed>(s: Seq<T>, k: usize) -> T {
    s[key_index(s, k)]
}

/// In a well-formed table, the record at `i` is the one with its key.
pub proof fn lemma_key_index<T: Keyed>(s: Seq<T>, next: usize, i: int)
    requires
        keys_wf(s, next),
        0 <= i < s.len(),
    ensures
        has_key(s, s[i].key()),
        key_index(s, s[i].key()) == i,
{
    let k = s[i].key();
    assert(0 <= i < s.len() && s[i].key() == k);
    let j = key_index(s, k);
    if j != i {
        assert(s[i].key() != s[j].key());
    }
}

/// Removing a record keeps a table well formed.
pub proof fn lemma_remove_wf<T: Keyed>(s: Seq<T>, next: usize, i: int)
    requires
        keys_wf(s, next),
        0 <= i < s.len(),
    ensures
        keys_wf(s.remove(i), next),
{
    let r = s.remove(i);
    assert forall|a: int, b: int| 0 <= a < r.len() && 0 <= b < r.len() && a != b implies #[trigger] r[a].key()
        != #[trigger] r[b].key() by {
        let a2 = if a < i { a } else { a + 1 };
        let b2 = if b < i { b } else { b + 1 };
        assert(r[a] == s[a2]);
        assert(r[b] == s[b2]);
    }
    assert forall|a: int| 0 <= a < r.len() implies #[trigger] r[a].key() < next by {
        let a2 = if a < i { a } else { a + 1 };
        assert(r[a] == s[a2]);
    }
}

/// Appending a record with key `next` keeps the table well formed with the
/// following counter.
pub proof fn lemma_push_wf<T: Keyed>(s: Seq<T>, next: usize, x: T)
    requires
        keys_wf(s, next),
        x.key() == next,
        next < usize::MAX,
    ensures
        keys_wf(s.push(x), (next + 1) as usize),
        !has_key(s, next),
        has_key(s.push(x), next),
        key_index(s.push(x), next) == s.len(),
{
    let p = s.push(x);
    assert forall|a: int| 0 <= a < p.len() implies #[trigger] p[a].key() < next + 1 by {
        if a < s.len() {
            assert(p[a] == s[a]);
        }
    }
    assert forall|a: int, b: int| 0 <= a < p.len() && 0 <= b < p.len() && a != b implies #[trigger] p[a].key()
        != #[trigger] p[b].key() by {
        if a < s.len() {
            assert(p[a] == s[a]);
        }
        if b < s.len() {
            assert(p[b] == s[b]);
        }
    }
    assert(p[s.len() as int] == x);
    lemma_key_index(p, (next + 1) as usize, s.len() as int);
}

/// Replacing a record by one with the same key keeps the table well formed.
pub proof fn lemma_update_wf<T: Keyed>(s: Seq<T>, next: usize, i: int, x: T)
    requires
        keys_wf(s, next),
        0 <= i < s.len(),
        x.key() == s[i].key(),
    ensures
        keys_wf(s.update(i, x), next),
        forall|k: usize| has_key(s.update(i, x), k) == has_key(s, k),
        forall|k: usize| has_key(s, k) ==> key_index(s.update(i, x), k) == key_index(s, k),
{
    let u = s.update(i, x);
    assert forall|a: int| 0 <= a < u.len() implies #[trigger] u[a].key() == s[a].key() by {}
    assert forall|a: int| 0 <= a < u.len() implies #[trigger] u[a].key() < next by {
        assert(u[a].key() == s[a].key());
    }
    assert forall|a: int, b: int| 0 <= a < u.len() && 0 <= b < u.len() && a != b implies #[trigger] u[a].key()
        != #[trigger] u[b].key() by {
        assert(u[a].key() == s[a].key());
        assert(u[b].key() == s[b].key());
    }
    assert forall|k: usize| has_key(u, k) == has_key(s, k) by {
        if has_key(u, k) {
            let j = choose|j: int| 0 <= j < u.len() && #[trigger] u[j].key() == k;
            assert(s[j].key() == k);
        }
        if has_key(s, k) {
            let j = choose|j: int| 0 <= j < s.len() && #[trigger] s[j].key() == k;
            assert(u[j].key() == k);
        }
    }
    assert forall|k: usize| has_key(s, k) implies key_index(u, k) == key_index(s, k) by {
        let j = key_index(s, k);
        lemma_key_index(s, next, j);
        assert(u[j].key() == k);
        lemma_key_index(u, next, j);
    }
}

/// Position of the record with key `k`.
pub fn find_key<T: Keyed>(v: &Vec<T>, k: usize) -> (r: Option<usize>)
    ensures
        match r {
            Some(i) => i < v@.len() && v@[i as int].key() == k,
            None => !has_key(v@, k),
        },
{
    let n = v.len();
    let mut i: usize = 0;
    while i < n
        invariant
            n == v@.len(),
            i <= n,
            forall|j: int| 0 <= j < i ==> #[trigger] v@[j].key() != k,
        decreases n - i,
    {
        if v[i].get_key() == k {
            return Some(i);
        }
        i = i + 1;
    }
    None
}

/// Drops the record with key `k`; tells whether there was one.
pub fn remove_key<T: Keyed>(v: &mut Vec<T>, next: Ghost<usize>, k: usize) -> (r: bool)
    requires
        keys_wf(old(v)@, next@),
    ensures
        r == has_key(old(v)@, k),
        r ==> final(v)@ == old(v)@.remove(key_index(old(v)@, k)),
        !r ==> final(v)@ == old(v)@,
        keys_wf(final(v)@, next@),
{
    match find_key(v, k) {
        Some(i) => {
            proof {
                lemma_key_index(v@, next@, i as int);
                lemma_remove_wf(v@, next@, i as int);
            }
            v.remove(i);
            true
        }
        None => false,
    }
}

} // verus!
