//! The edit distance between two byte strings.

use vstd::prelude::*;

verus! {

/// The smallest of three numbers.
pub open spec fn min3(x: nat, y: nat, z: nat) -> nat {
    if x <= y && x <= z {
        x
    } else if y <= z {
        y
    } else {
        z
    }
}

/// The Levenshtein distance: the least number of single-byte insertions,
/// deletions and substitutions that turn `a` into `b`. Bytes are compared
/// as they are, so case counts.
pub open spec fn edit_distance(a: Seq<u8>, b: Seq<u8>) -> nat
    decreases a.len() + b.len(),
{
    if a.len() == 0 {
        b.len()
    } else if b.len() == 0 {
        a.len()
    } else {
        let change: nat = if a.last() == b.last() {
            0
        } else {
            1
        };
        min3(
            edit_distance(a.drop_last(), b.drop_last()) + change,
            edit_distance(a.drop_last(), b) + 1,
            edit_distance(a, b.drop_last()) + 1,
        )
    }
}

/// The distance is at most the length of the longer string.
pub proof fn lemma_distance_at_most_longer(a: Seq<u8>, b: Seq<u8>)
    ensures
        edit_distance(a, b) <= a.len() || edit_distance(a, b) <= b.len(),
    decreases a.len() + b.len(),
{
    if a.len() > 0 && b.len() > 0 {
        lemma_distance_at_most_longer(a.drop_last(), b.drop_last());
    }
}

/// The distance is zero exactly between a string and itself.
pub proof fn lemma_distance_zero(a: Seq<u8>, b: Seq<u8>)
    ensures
        edit_distance(a, b) == 0 <==> a == b,
    decreases a.len() + b.len(),
{
    if a.len() == 0 || b.len() == 0 {
        if a.len() == 0 && b.len() == 0 {
            assert(a =~= b);
        }
    } else {
        lemma_distance_zero(a.drop_last(), b.drop_last());
        if a == b {
            assert(a.drop_last() == b.drop_last());
        }
        if edit_distance(a, b) == 0 {
            assert(a =~= a.drop_last().push(a.last()));
            assert(b =~= b.drop_last().push(b.last()));
        }
    }
}

/// Computes the edit distance, row by row.
pub fn distance(a: &[u8], b: &[u8]) -> (d: usize)
    ensures
        d == edit_distance(a@, b@),
{
    let n = b.len();
    let mut prev: Vec<usize> = Vec::new();
    let mut j: usize = 0;
    while j < n
        invariant
            j <= n,
            n == b.len(),
            prev.len() == j,
            forall|k: int| 0 <= k < j ==> prev[k] == edit_distance(a@.take(0), b@.take(k)),
        decreases n - j,
    {
        prev.push(j);
        j += 1;
    }
    prev.push(n);
    let mut i: usize = 0;
    while i < a.len()
        invariant
            i <= a.len(),
            n == b.len(),
            prev.len() == n + 1,
            forall|k: int| 0 <= k <= n ==> prev[k] == edit_distance(a@.take(i as int), b@.take(k)),
        decreases a.len() - i,
    {
        let mut cur: Vec<usize> = Vec::new();
        cur.push(i + 1);
        let mut j: usize = 0;
        while j < n
            invariant
                j <= n,
                i < a.len(),
                n == b.len(),
                prev.len() == n + 1,
                cur.len() == j + 1,
                forall|k: int|
                    0 <= k <= n ==> prev[k] == edit_distance(a@.take(i as int), b@.take(k)),
                forall|k: int|
                    0 <= k <= j ==> cur[k] == edit_distance(a@.take(i + 1), b@.take(k)),
            decreases n - j,
        {
            let ghost x = a@.take(i + 1);
            let ghost y = b@.take(j + 1);
            proof {
                assert(x.drop_last() =~= a@.take(i as int));
                assert(y.drop_last() =~= b@.take(j as int));
                lemma_distance_at_most_longer(a@.take(i as int), b@.take(j as int));
            }
            let change: usize = if a[i] == b[j] {
                0
            } else {
                1
            };
            let mut best: usize = prev[j] + change;
            if prev[j + 1] < best {
                best = prev[j + 1] + 1;
            }
            if cur[j] < best {
                best = cur[j] + 1;
            }
            assert(best == edit_distance(x, y));
            cur.push(best);
            j += 1;
        }
        prev = cur;
        i += 1;
    }
    assert(a@.take(i as int) =~= a@ && b@.take(n as int) =~= b@);
    prev[n]
}

} // verus!
