use vstd::prelude::*;

verus! {

/// Number of sequences of allowed step counts (each counted once however
/// often it is listed, zero never) that add up to `n`.
pub open spec fn compositions(moves: Seq<usize>, n: nat) -> nat
    decreases n, 1nat, 0nat,
{
    if n == 0 {
        1
    } else {
        compositions_upto(moves, n, n)
    }
}

/// The sequences adding up to `n` whose first step is at most `k`.
pub open spec fn compositions_upto(moves: Seq<usize>, n: nat, k: nat) -> nat
    decreases n, 0nat, k,
{
    if k == 0 {
        0
    } else {
        compositions_upto(moves, n, (k - 1) as nat) + if k <= n && moves.contains(k as usize) {
            compositions(moves, (n - k) as nat)
        } else {
            0
        }
    }
}

fn allowed(moves: &Vec<usize>, k: usize) -> (r: bool)
    ensures
        r == moves@.contains(k),
{
    let mut i: usize = 0;
    while i < moves.len()
        invariant
            i <= moves@.len(),
            forall|j: int| 0 <= j < i ==> moves@[j] != k,
        decreases moves.len() - i,
    {
        if moves[i] == k {
            proof {
                assert(moves@[i as int] == k);
            }
            return true;
        }
        i = i + 1;
    }
    false
}

/// Number of ways to climb `step_count` ranks of a single staircase with
/// the allowed moves, or `None` when a count on the way does not fit in 128
/// bits.
pub fn path_count(step_count: usize, allowed_moves: &Vec<usize>) -> (r: Option<u128>)
    ensures
        match r {
            Some(c) => c as nat == compositions(allowed_moves@, step_count as nat),
            None => exists|i: nat| i <= step_count && compositions(allowed_moves@, i) > u128::MAX,
        },
{
    let mut ways: Vec<u128> = Vec::new();
    ways.push(1);
    let mut i: usize = 0;
    while i < step_count
        invariant
            i <= step_count,
            ways@.len() == i + 1,
            forall|j: int| 0 <= j <= i ==> (#[trigger] ways@[j]) as nat == compositions(allowed_moves@, j as nat),
        decreases step_count - i,
    {
        i = i + 1;
        let mut acc: u128 = 0;
        let mut k: usize = 0;
        while k < i
            invariant
                k <= i,
                i <= step_count,
                ways@.len() == i,
                forall|j: int| 0 <= j < i ==> (#[trigger] ways@[j]) as nat == compositions(allowed_moves@, j as nat),
                acc as nat == compositions_upto(allowed_moves@, i as nat, k as nat),
            decreases i - k,
        {
            k = k + 1;
            if allowed(allowed_moves, k) {
                let c = ways[i - k];
                if acc > u128::MAX - c {
                    proof {
                        assert(compositions_upto(allowed_moves@, i as nat, k as nat) == acc + c);
                        lemma_upto_grows(allowed_moves@, i as nat, k as nat, i as nat);
                        assert(compositions(allowed_moves@, i as nat) > u128::MAX);
                    }
                    return None;
                }
                acc = acc + c;
            }
        }
        ways.push(acc);
    }
    Some(ways[step_count])
}

proof fn lemma_upto_grows(moves: Seq<usize>, n: nat, k: nat, l: nat)
    requires
        k <= l,
    ensures
        compositions_upto(moves, n, k) <= compositions_upto(moves, n, l),
    decreases l - k,
{
    if k < l {
        lemma_upto_grows(moves, n, k, (l - 1) as nat);
    }
}

} // verus!
