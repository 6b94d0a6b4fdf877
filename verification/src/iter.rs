//! The cursor-less iteration protocol: the first live key is found by
//! scanning buckets from index zero, and each next key is found by
//! re-hashing the previous key, relocating it in its chain, and falling
//! through to the next non-empty bucket when the chain is exhausted.

use vstd::prelude::*;
use crate::table::{
    chain_has, chain_unique, copy_bytes, find_live, lemma_bucket_in_range, lemma_chain_value_at,
    live_at, Record, Table,
};

verus! {

/// The keys of the live records of the chain from position `j` on, in
/// chain order.
pub open spec fn chain_keys_from(c: Seq<Record>, j: int) -> Seq<Seq<u8>>
    decreases c.len() - j,
{
    if j < 0 || j >= c.len() {
        Seq::empty()
    } else if c[j].dead {
        chain_keys_from(c, j + 1)
    } else {
        seq![c[j].key@] + chain_keys_from(c, j + 1)
    }
}

/// The live keys the iteration yields from bucket `i` on: each chain's
/// keys in chain order, buckets in directory order.
pub open spec fn keys_from(t: Table, i: int) -> Seq<Seq<u8>>
    decreases t.n() - i,
{
    if i < 0 || i >= t.n() {
        Seq::empty()
    } else {
        chain_keys_from(t.chain(i), 0) + keys_from(t, i + 1)
    }
}

/// Every live key, in the order the iteration protocol walks them.
pub open spec fn key_seq(t: Table) -> Seq<Seq<u8>> {
    keys_from(t, 0)
}

/// The first live position of the chain from `j` on.
pub open spec fn first_live_from(c: Seq<Record>, j: int) -> Option<int>
    decreases c.len() - j,
{
    if j < 0 || j >= c.len() {
        None
    } else if !c[j].dead {
        Some(j)
    } else {
        first_live_from(c, j + 1)
    }
}

/// The head of the iteration from bucket `i` on, if any bucket from `i`
/// on holds a live record.
pub open spec fn bucket_first(t: Table, i: int) -> Option<Seq<u8>> {
    if keys_from(t, i).len() == 0 {
        None
    } else {
        Some(keys_from(t, i)[0])
    }
}

/// The key the iteration yields after `prev`: the next live record of
/// `prev`'s chain, else the first live record of a later bucket. A `prev`
/// that is no longer present falls through to the later buckets as well.
pub open spec fn successor(t: Table, prev: Seq<u8>) -> Option<Seq<u8>> {
    let b = t.bucket_of(prev);
    let c = t.chain(b);
    if chain_has(c, prev) {
        let j = choose|j: int| live_at(c, j, prev);
        match first_live_from(c, j + 1) {
            Some(j2) => Some(c[j2].key@),
            None => bucket_first(t, b + 1),
        }
    } else {
        bucket_first(t, b + 1)
    }
}

/// The chain's key walk from `j` on starts at its first live position.
pub proof fn lemma_chain_keys_head(c: Seq<Record>, j: int)
    requires
        0 <= j <= c.len(),
    ensures
        match first_live_from(c, j) {
            None => chain_keys_from(c, j) == Seq::<Seq<u8>>::empty(),
            Some(j2) => chain_keys_from(c, j) == seq![c[j2].key@] + chain_keys_from(c, j2 + 1),
        },
    decreases c.len() - j,
{
    if j < c.len() && c[j].dead {
        lemma_chain_keys_head(c, j + 1);
    }
}

/// The index of the first live record of the chain from `from` on.
fn find_first_live(chain: &Vec<Record>, from: usize) -> (r: Option<usize>)
    requires
        from <= chain@.len(),
    ensures
        match r {
            Some(j) => from <= j < chain@.len() && !chain@[j as int].dead && (forall|x: int|
                from <= x < j ==> chain@[x].dead),
            None => forall|x: int| from <= x < chain@.len() ==> chain@[x].dead,
        },
{
    let n = chain.len();
    let mut i: usize = from;
    while i < n
        invariant
            from <= i <= n,
            n == chain@.len(),
            forall|x: int| from <= x < i ==> chain@[x].dead,
        decreases n - i,
    {
        if !chain[i].dead {
            return Some(i);
        }
        i = i + 1;
    }
    None
}

/// A live position behind an all-dead stretch is the first live position.
pub proof fn lemma_first_live_of(c: Seq<Record>, from: int, j: int)
    requires
        0 <= from <= j < c.len(),
        !c[j].dead,
        forall|x: int| from <= x < j ==> c[x].dead,
    ensures
        first_live_from(c, from) == Some(j),
    decreases j - from,
{
    if from < j {
        lemma_first_live_of(c, from + 1, j);
    }
}

/// A chain with no live record from `from` on has no first live position.
pub proof fn lemma_no_live_from(c: Seq<Record>, from: int)
    requires
        0 <= from <= c.len(),
        forall|x: int| from <= x < c.len() ==> c[x].dead,
    ensures
        first_live_from(c, from) is None,
    decreases c.len() - from,
{
    if from < c.len() {
        lemma_no_live_from(c, from + 1);
    }
}

/// The shape of `successor` when `prev` sits live at `j` and the next
/// live record of its chain sits at `j2`.
proof fn lemma_successor_within(t: Table, prev: Seq<u8>, b: int, j: int, j2: int)
    requires
        t.wf(),
        b == t.bucket_of(prev),
        live_at(t.chain(b), j, prev),
        first_live_from(t.chain(b), j + 1) == Some(j2),
    ensures
        successor(t, prev) == Some(t.chain(b)[j2].key@),
{
    let c = t.chain(b);
    lemma_bucket_in_range(t, prev);
    assert(chain_unique(c));
    assert(chain_has(c, prev));
    let jj = choose|x: int| live_at(c, x, prev);
    assert(live_at(c, jj, prev));
    assert(jj == j);
}

/// The shape of `successor` when `prev` sits live at `j` with no live
/// record behind it in its chain: the walk falls to the later buckets.
proof fn lemma_successor_fall(t: Table, prev: Seq<u8>, b: int, j: int)
    requires
        t.wf(),
        b == t.bucket_of(prev),
        live_at(t.chain(b), j, prev),
        first_live_from(t.chain(b), j + 1) is None,
    ensures
        successor(t, prev) == bucket_first(t, b + 1),
{
    let c = t.chain(b);
    lemma_bucket_in_range(t, prev);
    assert(chain_unique(c));
    assert(chain_has(c, prev));
    let jj = choose|x: int| live_at(c, x, prev);
    assert(live_at(c, jj, prev));
    assert(jj == j);
}

/// The first live key of any bucket from `start` on, walking the
/// directory upward; the head of `keys_from` at `start`.
fn first_from_bucket(t: &Table, start: usize) -> (r: Option<Vec<u8>>)
    requires
        t.wf(),
        start <= t.buckets@.len(),
    ensures
        match r {
            None => keys_from(*t, start as int).len() == 0,
            Some(k) => keys_from(*t, start as int).len() > 0 && k@ == keys_from(
                *t,
                start as int,
            )[0],
        },
        r is None <==> bucket_first(*t, start as int) is None,
        r matches Some(k) ==> bucket_first(*t, start as int) == Some(k@),
{
    let n = t.buckets.len();
    let mut i: usize = start;
    while i < n
        invariant
            start <= i <= n,
            n == t.buckets@.len(),
            t.wf(),
            keys_from(*t, start as int) == keys_from(*t, i as int),
        decreases n - i,
    {
        match find_first_live(&t.buckets[i], 0) {
            Some(j) => {
                proof {
                    lemma_first_live_of(t.chain(i as int), 0, j as int);
                    lemma_chain_keys_head(t.chain(i as int), 0);
                    assert(keys_from(*t, i as int) == chain_keys_from(t.chain(i as int), 0)
                        + keys_from(*t, i as int + 1));
                }
                return Some(copy_bytes(t.buckets[i][j].key.as_slice()));
            },
            None => {
                proof {
                    lemma_no_live_from(t.chain(i as int), 0);
                    lemma_chain_keys_head(t.chain(i as int), 0);
                    assert(keys_from(*t, i as int) =~= keys_from(*t, i as int + 1));
                }
            },
        }
        i = i + 1;
    }
    None
}

/// The first key of the iteration: the first live record found scanning
/// buckets from index zero.
pub fn table_first_key(t: &Table) -> (r: Option<Vec<u8>>)
    requires
        t.wf(),
    ensures
        match r {
            None => key_seq(*t).len() == 0,
            Some(k) => key_seq(*t).len() > 0 && k@ == key_seq(*t)[0],
        },
{
    first_from_bucket(t, 0)
}

/// The key after `prev` in the iteration order: `prev` is re-hashed and
/// relocated in its chain, and the walk continues behind it, falling
/// through to the next non-empty bucket.
pub fn table_next_key(t: &Table, prev: &[u8]) -> (r: Option<Vec<u8>>)
    requires
        t.wf(),
    ensures
        match r {
            None => successor(*t, prev@) is None,
            Some(k) => successor(*t, prev@) == Some(k@),
        },
{
    let b = t.bucket_index(prev);
    let clen = t.buckets[b].len();
    match find_live(&t.buckets[b], prev) {
        Some(j) => {
            proof {
                assert(j < clen);
            }
            match find_first_live(&t.buckets[b], j + 1) {
                Some(j2) => {
                    proof {
                        lemma_first_live_of(t.chain(b as int), j + 1, j2 as int);
                        lemma_successor_within(*t, prev@, b as int, j as int, j2 as int);
                    }
                    Some(copy_bytes(t.buckets[b][j2].key.as_slice()))
                },
                None => {
                    proof {
                        lemma_no_live_from(t.chain(b as int), j + 1);
                        lemma_successor_fall(*t, prev@, b as int, j as int);
                    }
                    first_from_bucket(t, b + 1)
                },
            }
        },
        None => first_from_bucket(t, b + 1),
    }
}

/// A key is in `seq![a] + s` exactly when it is `a` or in `s`.
proof fn lemma_cons_contains(a: Seq<u8>, s: Seq<Seq<u8>>, k: Seq<u8>)
    ensures
        (seq![a] + s).contains(k) <==> (a == k || s.contains(k)),
{
    if (seq![a] + s).contains(k) {
        let i = choose|i: int| 0 <= i < (seq![a] + s).len() && (seq![a] + s)[i] == k;
        if i > 0 {
            assert(s[i - 1] == k);
        }
    }
    if s.contains(k) {
        let i = choose|i: int| 0 <= i < s.len() && s[i] == k;
        assert((seq![a] + s)[i + 1] == k);
    }
    if a == k {
        assert((seq![a] + s)[0] == k);
    }
}

/// A key is in `s1 + s2` exactly when it is in one of the two.
proof fn lemma_concat_contains(s1: Seq<Seq<u8>>, s2: Seq<Seq<u8>>, k: Seq<u8>)
    ensures
        (s1 + s2).contains(k) <==> (s1.contains(k) || s2.contains(k)),
{
    if (s1 + s2).contains(k) {
        let i = choose|i: int| 0 <= i < (s1 + s2).len() && (s1 + s2)[i] == k;
        if i >= s1.len() {
            assert(s2[i - s1.len()] == k);
        }
    }
    if s1.contains(k) {
        let i = choose|i: int| 0 <= i < s1.len() && s1[i] == k;
        assert((s1 + s2)[i] == k);
    }
    if s2.contains(k) {
        let i = choose|i: int| 0 <= i < s2.len() && s2[i] == k;
        assert((s1 + s2)[s1.len() + i] == k);
    }
}

/// The chain's key walk from `j` on carries exactly the keys of the
/// chain's live records from `j` on.
proof fn lemma_chain_keys_has(c: Seq<Record>, j: int, k: Seq<u8>)
    requires
        0 <= j <= c.len(),
    ensures
        chain_keys_from(c, j).contains(k) <==> exists|x: int|
            j <= x < c.len() && live_at(c, x, k),
    decreases c.len() - j,
{
    if j < c.len() {
        lemma_chain_keys_has(c, j + 1, k);
        if c[j].dead {
            if exists|x: int| j <= x < c.len() && live_at(c, x, k) {
                let x = choose|x: int| j <= x < c.len() && live_at(c, x, k);
                assert(x != j);
                assert(j + 1 <= x < c.len() && live_at(c, x, k));
            }
        } else {
            lemma_cons_contains(c[j].key@, chain_keys_from(c, j + 1), k);
            if c[j].key@ == k {
                assert(live_at(c, j, k));
            }
            if exists|x: int| j <= x < c.len() && live_at(c, x, k) {
                let x = choose|x: int| j <= x < c.len() && live_at(c, x, k);
                if x != j {
                    assert(j + 1 <= x < c.len() && live_at(c, x, k));
                }
            }
        }
    }
}

/// The walk from bucket `i` on carries exactly the live keys of the
/// buckets from `i` on.
proof fn lemma_keys_from_has(t: Table, i: int, k: Seq<u8>)
    requires
        t.wf(),
        0 <= i <= t.n(),
    ensures
        keys_from(t, i).contains(k) <==> exists|b: int|
            i <= b < t.n() && chain_has(#[trigger] t.chain(b), k),
    decreases t.n() - i,
{
    if i < t.n() {
        lemma_keys_from_has(t, i + 1, k);
        lemma_chain_keys_has(t.chain(i), 0, k);
        lemma_concat_contains(chain_keys_from(t.chain(i), 0), keys_from(t, i + 1), k);
        if chain_has(t.chain(i), k) {
            assert(i <= i < t.n() && chain_has(t.chain(i), k));
        }
        if exists|b: int| i <= b < t.n() && chain_has(#[trigger] t.chain(b), k) {
            let b = choose|b: int| i <= b < t.n() && chain_has(#[trigger] t.chain(b), k);
            if b != i {
                assert(i + 1 <= b < t.n() && chain_has(t.chain(b), k));
            }
        }
    }
}

/// Iteration completeness, one half of the walk's correctness: the keys
/// the walk yields, taken as a set, are exactly the keys of the store.
pub proof fn lemma_iteration_covers(t: Table)
    requires
        t.wf(),
    ensures
        forall|k: Seq<u8>| #[trigger] key_seq(t).contains(k) <==> t.as_map().dom().contains(k),
{
    assert forall|k: Seq<u8>| #[trigger] key_seq(t).contains(k) <==> t.as_map().dom().contains(
        k,
    ) by {
        lemma_keys_from_has(t, 0, k);
        lemma_bucket_in_range(t, k);
        if exists|b: int| 0 <= b < t.n() && chain_has(#[trigger] t.chain(b), k) {
            let b = choose|b: int| 0 <= b < t.n() && chain_has(#[trigger] t.chain(b), k);
            let x = choose|x: int| live_at(t.chain(b), x, k);
            assert(live_at(t.chain(b), x, k));
            assert(t.rec_ok(b, x));
            assert(b == t.bucket_of(k));
        }
        if t.spec_contains(k) {
            assert(0 <= t.bucket_of(k) < t.n() && chain_has(t.chain(t.bucket_of(k)), k));
        }
    }
}

/// A cons sequence has no duplicates when the tail has none and does not
/// hold the head.
proof fn lemma_cons_nodup(a: Seq<u8>, s: Seq<Seq<u8>>)
    requires
        s.no_duplicates(),
        !s.contains(a),
    ensures
        (seq![a] + s).no_duplicates(),
{
    let s2 = seq![a] + s;
    assert forall|i: int, j: int| 0 <= i < s2.len() && 0 <= j < s2.len() && i != j implies s2[i]
        != s2[j] by {
        if i > 0 && j > 0 {
            assert(s2[i] == s[i - 1] && s2[j] == s[j - 1]);
        } else if i == 0 && j > 0 {
            assert(s2[j] == s[j - 1]);
            if s2[0] == s2[j] {
                assert(s.contains(a));
            }
        } else if j == 0 && i > 0 {
            assert(s2[i] == s[i - 1]);
            if s2[0] == s2[i] {
                assert(s.contains(a));
            }
        }
    }
}

/// A concatenation of duplicate-free sequences with no common key has no
/// duplicates.
proof fn lemma_concat_nodup(s1: Seq<Seq<u8>>, s2: Seq<Seq<u8>>)
    requires
        s1.no_duplicates(),
        s2.no_duplicates(),
        forall|k: Seq<u8>| !(#[trigger] s1.contains(k) && s2.contains(k)),
    ensures
        (s1 + s2).no_duplicates(),
{
    let s = s1 + s2;
    assert forall|i: int, j: int| 0 <= i < s.len() && 0 <= j < s.len() && i != j implies s[i]
        != s[j] by {
        if i < s1.len() && j >= s1.len() {
            assert(s[i] == s1[i] && s[j] == s2[j - s1.len()]);
            if s[i] == s[j] {
                assert(s1.contains(s[i]));
                assert(s2.contains(s[i]));
            }
        } else if j < s1.len() && i >= s1.len() {
            assert(s[j] == s1[j] && s[i] == s2[i - s1.len()]);
            if s[i] == s[j] {
                assert(s1.contains(s[i]));
                assert(s2.contains(s[i]));
            }
        } else if i >= s1.len() && j >= s1.len() {
            assert(s[i] == s2[i - s1.len()] && s[j] == s2[j - s1.len()]);
        }
    }
}

/// A chain without duplicate live keys yields its keys without
/// duplicates.
proof fn lemma_chain_keys_nodup(c: Seq<Record>, j: int)
    requires
        chain_unique(c),
        0 <= j <= c.len(),
    ensures
        chain_keys_from(c, j).no_duplicates(),
    decreases c.len() - j,
{
    if j < c.len() {
        lemma_chain_keys_nodup(c, j + 1);
        if !c[j].dead {
            lemma_chain_keys_has(c, j + 1, c[j].key@);
            if chain_keys_from(c, j + 1).contains(c[j].key@) {
                let x = choose|x: int| j + 1 <= x < c.len() && live_at(c, x, c[j].key@);
                assert(live_at(c, x, c[j].key@));
            }
            lemma_cons_nodup(c[j].key@, chain_keys_from(c, j + 1));
        }
    }
}

/// The walk from bucket `i` on yields every key exactly once.
proof fn lemma_keys_from_nodup(t: Table, i: int)
    requires
        t.wf(),
        0 <= i <= t.n(),
    ensures
        keys_from(t, i).no_duplicates(),
    decreases t.n() - i,
{
    if i < t.n() {
        lemma_keys_from_nodup(t, i + 1);
        lemma_chain_keys_nodup(t.chain(i), 0);
        assert forall|k: Seq<u8>|
            !(#[trigger] chain_keys_from(t.chain(i), 0).contains(k) && keys_from(
                t,
                i + 1,
            ).contains(k)) by {
            lemma_chain_keys_has(t.chain(i), 0, k);
            lemma_keys_from_has(t, i + 1, k);
            if chain_keys_from(t.chain(i), 0).contains(k) && keys_from(t, i + 1).contains(k) {
                let x = choose|x: int| 0 <= x < t.chain(i).len() && live_at(t.chain(i), x, k);
                assert(live_at(t.chain(i), x, k));
                assert(t.rec_ok(i, x));
                let b = choose|b: int| i + 1 <= b < t.n() && chain_has(#[trigger] t.chain(b), k);
                let y = choose|y: int| live_at(t.chain(b), y, k);
                assert(live_at(t.chain(b), y, k));
                assert(t.rec_ok(b, y));
            }
        }
        lemma_concat_nodup(chain_keys_from(t.chain(i), 0), keys_from(t, i + 1));
    }
}

/// The walk yields every key exactly once: no key is re-visited.
pub proof fn lemma_iteration_distinct(t: Table)
    requires
        t.wf(),
    ensures
        key_seq(t).no_duplicates(),
{
    lemma_keys_from_nodup(t, 0);
}

/// The first live position from `from` on lies at or past `from`, in
/// range, and is live.
proof fn lemma_first_live_bounds(c: Seq<Record>, from: int)
    requires
        0 <= from <= c.len(),
    ensures
        match first_live_from(c, from) {
            Some(j) => from <= j < c.len() && !c[j].dead,
            None => true,
        },
    decreases c.len() - from,
{
    if from < c.len() && c[from].dead {
        lemma_first_live_bounds(c, from + 1);
    }
}

/// The rest of the walk from position `from` of bucket `b`'s chain on.
pub open spec fn tail_seq(t: Table, b: int, from: int) -> Seq<Seq<u8>> {
    chain_keys_from(t.chain(b), from) + keys_from(t, b + 1)
}

/// `successor` steps through the rest of the walk in order: the key at
/// position `x` is followed by the key at `x + 1`, and the last key by
/// the end of the iteration.
#[verifier::rlimit(60)]
proof fn lemma_step_from(t: Table, b: int, from: int, x: int)
    requires
        t.wf(),
        0 <= b < t.n(),
        0 <= from <= t.chain(b).len(),
        0 <= x < tail_seq(t, b, from).len(),
    ensures
        successor(t, tail_seq(t, b, from)[x]) == (if x + 1 < tail_seq(t, b, from).len() {
            Some(tail_seq(t, b, from)[x + 1])
        } else {
            None
        }),
    decreases t.n() - b, t.chain(b).len() - from,
{
    let c = t.chain(b);
    let s = tail_seq(t, b, from);
    lemma_chain_keys_head(c, from);
    lemma_first_live_bounds(c, from);
    match first_live_from(c, from) {
        None => {
            assert(s =~= keys_from(t, b + 1));
            if b + 1 < t.n() {
                assert(keys_from(t, b + 1) == chain_keys_from(t.chain(b + 1), 0) + keys_from(
                    t,
                    b + 2,
                ));
                assert(s =~= tail_seq(t, b + 1, 0));
                lemma_step_from(t, b + 1, 0, x);
            } else {
                assert(keys_from(t, b + 1) == Seq::<Seq<u8>>::empty());
            }
        },
        Some(j) => {
            let k = c[j].key@;
            let rest = tail_seq(t, b, j + 1);
            assert(s =~= seq![k] + rest);
            if x == 0 {
                assert(live_at(c, j, k));
                assert(t.rec_ok(b, j));
                assert(t.bucket_of(k) == b);
                lemma_chain_keys_head(c, j + 1);
                match first_live_from(c, j + 1) {
                    Some(j2) => {
                        lemma_successor_within(t, k, b, j, j2);
                        assert(rest[0] == c[j2].key@);
                        assert(s[1] == rest[0]);
                    },
                    None => {
                        lemma_successor_fall(t, k, b, j);
                        assert(rest =~= keys_from(t, b + 1));
                        if keys_from(t, b + 1).len() == 0 {
                            assert(x + 1 == s.len());
                        } else {
                            assert(s[1] == keys_from(t, b + 1)[0]);
                        }
                    },
                }
            } else {
                assert(s[x] == rest[x - 1]);
                lemma_step_from(t, b, j + 1, x - 1);
                if x + 1 < s.len() {
                    assert(s[x + 1] == rest[x]);
                }
            }
        },
    }
}

/// The walk steps through `key_seq` in order: each yielded key's
/// successor is the next entry of `key_seq`, and the last entry's
/// successor is the end of the iteration.
pub proof fn lemma_iteration_step(t: Table, x: int)
    requires
        t.wf(),
        0 <= x < key_seq(t).len(),
    ensures
        successor(t, key_seq(t)[x]) == (if x + 1 < key_seq(t).len() {
            Some(key_seq(t)[x + 1])
        } else {
            None
        }),
{
    assert(key_seq(t) == tail_seq(t, 0, 0));
    lemma_step_from(t, 0, 0, x);
}

/// The keys a sequence of key/value pairs carries, in order.
pub open spec fn pair_keys(s: Seq<(Vec<u8>, Vec<u8>)>) -> Seq<Seq<u8>> {
    s.map_values(|p: (Vec<u8>, Vec<u8>)| p.0@)
}

/// The byte strings a sequence of buffers carries, in order.
pub open spec fn buf_views(s: Seq<Vec<u8>>) -> Seq<Seq<u8>> {
    s.map_values(|v: Vec<u8>| v@)
}

/// Every live key/value pair, in iteration order: the keys are exactly
/// `key_seq`, and each value is the one the map holds for its key.
#[verifier::rlimit(60)]
pub fn table_pairs(t: &Table) -> (r: Vec<(Vec<u8>, Vec<u8>)>)
    requires
        t.wf(),
    ensures
        pair_keys(r@) == key_seq(*t),
        r@.len() == key_seq(*t).len(),
        forall|i: int| 0 <= i < r@.len() ==> (#[trigger] r@[i]).0@ == key_seq(*t)[i],
        forall|i: int|
            0 <= i < r@.len() ==> t.as_map().contains_key((#[trigger] r@[i]).0@) && r@[i].1@
                == t.as_map()[r@[i].0@],
{
    let n = t.buckets.len();
    let mut out: Vec<(Vec<u8>, Vec<u8>)> = Vec::new();
    let mut b: usize = 0;
    while b < n
        invariant
            b <= n,
            n == t.buckets@.len(),
            t.wf(),
            pair_keys(out@) + keys_from(*t, b as int) == key_seq(*t),
            forall|i: int|
                0 <= i < out@.len() ==> t.as_map().contains_key((#[trigger] out@[i]).0@)
                    && out@[i].1@ == t.as_map()[out@[i].0@],
        decreases n - b,
    {
        let clen = t.buckets[b].len();
        let mut j: usize = 0;
        while j < clen
            invariant
                j <= clen,
                b < n,
                n == t.buckets@.len(),
                clen == t.chain(b as int).len(),
                t.wf(),
                pair_keys(out@) + chain_keys_from(t.chain(b as int), j as int) + keys_from(
                    *t,
                    b as int + 1,
                ) == key_seq(*t),
                forall|i: int|
                    0 <= i < out@.len() ==> t.as_map().contains_key((#[trigger] out@[i]).0@)
                        && out@[i].1@ == t.as_map()[out@[i].0@],
            decreases clen - j,
        {
            let ghost c = t.chain(b as int);
            let ghost pre = out@;
            if !t.buckets[b][j].dead {
                let k = copy_bytes(t.buckets[b][j].key.as_slice());
                let v = copy_bytes(t.buckets[b][j].value.as_slice());
                proof {
                    assert(t.rec_ok(b as int, j as int));
                    assert(live_at(c, j as int, k@));
                    lemma_chain_value_at(c, j as int, k@);
                    assert(t.spec_contains(k@));
                    assert(t.spec_value(k@) == v@);
                }
                out.push((k, v));
                proof {
                    assert(pair_keys(out@) =~= pair_keys(pre).push(out@.last().0@));
                    assert(pair_keys(pre).push(c[j as int].key@) + chain_keys_from(c, j + 1)
                        + keys_from(*t, b as int + 1) =~= pair_keys(pre) + chain_keys_from(
                        c,
                        j as int,
                    ) + keys_from(*t, b as int + 1));
                }
            } else {
                proof {
                    assert(chain_keys_from(c, j as int) == chain_keys_from(c, j + 1));
                }
            }
            j = j + 1;
        }
        proof {
            assert(chain_keys_from(t.chain(b as int), clen as int) == Seq::<Seq<u8>>::empty());
            assert(pair_keys(out@) + chain_keys_from(t.chain(b as int), clen as int) + keys_from(
                *t,
                b as int + 1,
            ) =~= pair_keys(out@) + keys_from(*t, b as int + 1));
            if b + 1 < n {
                assert(keys_from(*t, b as int + 1) == chain_keys_from(t.chain(b as int + 1), 0)
                    + keys_from(*t, b as int + 2));
            }
        }
        b = b + 1;
        proof {
            if b < n {
                assert(pair_keys(out@) + chain_keys_from(t.chain(b as int), 0) + keys_from(
                    *t,
                    b as int + 1,
                ) =~= pair_keys(out@) + keys_from(*t, b as int));
            }
        }
    }
    proof {
        assert(keys_from(*t, n as int) == Seq::<Seq<u8>>::empty());
        assert(pair_keys(out@) =~= pair_keys(out@) + keys_from(*t, n as int));
    }
    out
}

/// Every live key, in iteration order.
pub fn table_keys(t: &Table) -> (r: Vec<Vec<u8>>)
    requires
        t.wf(),
    ensures
        buf_views(r@) == key_seq(*t),
        r@.len() == key_seq(*t).len(),
        forall|i: int| 0 <= i < r@.len() ==> (#[trigger] r@[i])@ == key_seq(*t)[i],
{
    let pairs = table_pairs(t);
    let n = pairs.len();
    let mut out: Vec<Vec<u8>> = Vec::new();
    let mut i: usize = 0;
    while i < n
        invariant
            i <= n,
            n == pairs@.len(),
            out@.len() == i,
            forall|x: int| 0 <= x < i ==> (#[trigger] out@[x])@ == pairs@[x].0@,
        decreases n - i,
    {
        out.push(copy_bytes(pairs[i].0.as_slice()));
        i = i + 1;
    }
    proof {
        assert(buf_views(out@) =~= key_seq(*t));
    }
    out
}

} // verus!
