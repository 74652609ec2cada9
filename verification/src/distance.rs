use vstd::prelude::*;

verus! {

/// Smallest of three values; the edit-distance recurrence takes the
/// minimum over deletion, insertion and substitution.
pub open spec fn spec_min3(a: nat, b: nat, c: nat) -> nat {
    if a <= b && a <= c {
        a
    } else if b <= c {
        b
    } else {
        c
    }
}

fn min3(a: u128, b: u128, c: u128) -> (r: u128)
    ensures
        r == spec_min3(a as nat, b as nat, c as nat),
{
    if a <= b && a <= c {
        a
    } else if b <= c {
        b
    } else {
        c
    }
}

/// Levenshtein edit distance between two character sequences: the least
/// number of single-character insertions, deletions and substitutions
/// that turn one into the other, stated by the standard recurrence.
pub open spec fn edit_distance(a: Seq<char>, b: Seq<char>) -> nat
    decreases a.len() + b.len(),
{
    if a.len() == 0 {
        b.len()
    } else if b.len() == 0 {
        a.len()
    } else {
        let del = edit_distance(a.drop_last(), b) + 1;
        let ins = edit_distance(a, b.drop_last()) + 1;
        let sub = edit_distance(a.drop_last(), b.drop_last()) + if a.last() == b.last() {
            0nat
        } else {
            1nat
        };
        spec_min3(del, ins, sub)
    }
}

/// The distance never exceeds the longer length: one can always replace
/// the shorter sequence position by position and insert the rest.
pub proof fn lemma_edit_distance_le_max(a: Seq<char>, b: Seq<char>)
    ensures
        edit_distance(a, b) <= if a.len() >= b.len() {
            a.len()
        } else {
            b.len()
        },
    decreases a.len() + b.len(),
{
    if a.len() == 0 || b.len() == 0 {
    } else {
        lemma_edit_distance_le_max(a.drop_last(), b.drop_last());
    }
}

/// A sequence is at distance zero from itself.
pub proof fn lemma_edit_distance_self(a: Seq<char>)
    ensures
        edit_distance(a, a) == 0,
    decreases a.len(),
{
    if a.len() > 0 {
        lemma_edit_distance_self(a.drop_last());
    }
}

/// The recurrence restated over prefixes, in the form the dynamic
/// programming table fills it in.
proof fn lemma_edit_distance_step(a: Seq<char>, b: Seq<char>, i: int, j: int)
    requires
        1 <= i <= a.len(),
        1 <= j <= b.len(),
    ensures
        edit_distance(a.take(i), b.take(j)) == spec_min3(
            edit_distance(a.take(i - 1), b.take(j)) + 1,
            edit_distance(a.take(i), b.take(j - 1)) + 1,
            edit_distance(a.take(i - 1), b.take(j - 1)) + if a[i - 1] == b[j - 1] {
                0nat
            } else {
                1nat
            },
        ),
{
    let x = a.take(i);
    let y = b.take(j);
    assert(x.drop_last() =~= a.take(i - 1));
    assert(y.drop_last() =~= b.take(j - 1));
    assert(x.last() == a[i - 1]);
    assert(y.last() == b[j - 1]);
}

/// Levenshtein distance, computed row by row over the standard dynamic
/// programming table.
pub fn levenshtein(a: &Vec<char>, b: &Vec<char>) -> (r: usize)
    ensures
        r == edit_distance(a@, b@),
{
    let m = a.len();
    let n = b.len();
    let mut prev: Vec<u128> = Vec::new();
    let mut j: usize = 0;
    while j < n
        invariant
            n == b@.len(),
            j <= n,
            prev@.len() == j,
            forall|k: int| 0 <= k < j ==> prev@[k] == edit_distance(a@.take(0), b@.take(k)),
        decreases n - j,
    {
        proof {
            assert(a@.take(0).len() == 0);
            assert(b@.take(j as int).len() == j);
            assert(edit_distance(a@.take(0), b@.take(j as int)) == j);
        }
        prev.push(j as u128);
        j += 1;
    }
    proof {
        assert(a@.take(0).len() == 0);
        assert(b@.take(n as int).len() == n);
        assert(edit_distance(a@.take(0), b@.take(n as int)) == n);
    }
    prev.push(n as u128);
    let mut i: usize = 0;
    while i < m
        invariant
            m == a@.len(),
            n == b@.len(),
            i <= m,
            prev@.len() == n + 1,
            forall|k: int|
                0 <= k <= n ==> prev@[k] == edit_distance(a@.take(i as int), b@.take(k)),
        decreases m - i,
    {
        let mut cur: Vec<u128> = Vec::new();
        proof {
            assert(b@.take(0).len() == 0);
            assert(a@.take(i + 1).len() == i + 1);
            assert(edit_distance(a@.take(i + 1), b@.take(0)) == i + 1);
        }
        cur.push((i as u128) + 1);
        let mut jj: usize = 0;
        while jj < n
            invariant
                m == a@.len(),
                n == b@.len(),
                i < m,
                jj <= n,
                prev@.len() == n + 1,
                cur@.len() == jj + 1,
                forall|k: int|
                    0 <= k <= n ==> prev@[k] == edit_distance(a@.take(i as int), b@.take(k)),
                forall|k: int|
                    0 <= k <= jj ==> cur@[k] == edit_distance(a@.take(i + 1), b@.take(k)),
            decreases n - jj,
        {
            let cost: u128 = if a[i] == b[jj] {
                0
            } else {
                1
            };
            proof {
                lemma_edit_distance_le_max(a@.take(i as int), b@.take(jj + 1));
                lemma_edit_distance_le_max(a@.take(i + 1), b@.take(jj as int));
                lemma_edit_distance_le_max(a@.take(i as int), b@.take(jj as int));
            }
            let del = prev[jj + 1] + 1;
            let ins = cur[jj] + 1;
            let sub = prev[jj] + cost;
            let v = min3(del, ins, sub);
            proof {
                lemma_edit_distance_step(a@, b@, i + 1, jj + 1);
            }
            cur.push(v);
            jj += 1;
        }
        prev = cur;
        i += 1;
    }
    proof {
        assert(a@.take(m as int) =~= a@);
        assert(b@.take(n as int) =~= b@);
        lemma_edit_distance_le_max(a@, b@);
    }
    prev[n] as usize
}

} // verus!
