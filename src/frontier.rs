use vstd::prelude::*;
use crate::network::{is_node, known_id, sound, stair, stair_fault, terminal_node, Node, Staircase};

verus! {

/// The one unit sub-step that leaves a node: one rank up the same staircase,
/// or, at the staircase's end, the hand-off onto its return staircase. A
/// walker at the top of the primary corridor has arrived and goes no further.
pub open spec fn hop(net: Seq<Staircase>, n: Node) -> Option<Node> {
    let s = stair(net, n.staircase_id as int);
    if n == terminal_node(net) {
        None
    } else if n.step_rank < s.end {
        Some(Node { staircase_id: n.staircase_id, step_rank: (n.step_rank + 1) as usize })
    } else {
        match s.returning {
            Some(r) => Some(Node { staircase_id: r, step_rank: n.step_rank }),
            None => None,
        }
    }
}

/// A zero-cost branch from `x` onto `y`: `y` is the first rank of a staircase
/// fed by `x`'s staircase, at `x`'s rank.
pub open spec fn feeds(net: Seq<Staircase>, x: Node, y: Node) -> bool {
    &&& known_id(net, y.staircase_id as int)
    &&& y.step_rank == x.step_rank
    &&& stair(net, y.staircase_id as int).feeding == Some(x.staircase_id)
    &&& stair(net, y.staircase_id as int).begin == x.step_rank
}

/// `y` is reached from `x` by at most `d` zero-cost branches.
pub open spec fn bridged(net: Seq<Staircase>, x: Node, y: Node, d: nat) -> bool
    decreases d,
{
    if d == 0 {
        x == y
    } else {
        bridged(net, x, y, (d - 1) as nat) || exists|z: Node|
            #![trigger feeds(net, z, y)]
            bridged(net, x, z, (d - 1) as nat) && feeds(net, z, y)
    }
}

/// `m` is where the `k`-th unit sub-step from `n` lands, each sub-step taken
/// after any number of zero-cost branches.
pub open spec fn landed(net: Seq<Staircase>, n: Node, k: nat, m: Node) -> bool
    decreases k,
{
    if k == 0 {
        m == n
    } else {
        exists|x: Node, y: Node, d: nat|
            #![trigger bridged(net, x, y, d), hop(net, y)]
            landed(net, n, (k - 1) as nat, x) && bridged(net, x, y, d) && hop(net, y) == Some(m)
    }
}

/// `m` is reachable from `n` by exactly `k` unit sub-steps: a landing place
/// of the `k`-th sub-step, or a node that zero-cost branches reach from one.
pub open spec fn in_frontier(net: Seq<Staircase>, n: Node, k: nat, m: Node) -> bool {
    exists|x: Node, d: nat|
        #![trigger landed(net, n, k, x), bridged(net, x, m, d)]
        landed(net, n, k, x) && bridged(net, x, m, d)
}

/// `y` is reached from some node of `front` by zero-cost branches.
pub open spec fn fed_from(net: Seq<Staircase>, front: Seq<Node>, y: Node) -> bool {
    exists|x: Node, d: nat|
        #![trigger front.contains(x), bridged(net, x, y, d)]
        front.contains(x) && bridged(net, x, y, d)
}

/// Number of `false` entries.
pub open spec fn count_false(s: Seq<bool>) -> nat
    decreases s.len(),
{
    if s.len() == 0 {
        0
    } else {
        count_false(s.drop_last()) + if s.last() {
            0nat
        } else {
            1nat
        }
    }
}

proof fn lemma_count_false_set(s: Seq<bool>, j: int)
    requires
        0 <= j < s.len(),
        !s[j],
    ensures
        count_false(s.update(j, true)) + 1 == count_false(s),
    decreases s.len(),
{
    let u = s.update(j, true);
    if j < s.len() - 1 {
        assert(u.drop_last() =~= s.drop_last().update(j, true));
        lemma_count_false_set(s.drop_last(), j);
    } else {
        assert(u.drop_last() =~= s.drop_last());
    }
}

/// What follows a node by one unit sub-step.
pub fn hop_from(net: &Vec<Staircase>, n: Node) -> (r: Option<Node>)
    requires
        sound(net@),
        is_node(net@, n),
    ensures
        r == hop(net@, n),
        r matches Some(m) ==> is_node(net@, m),
{
    let s = &net[n.staircase_id - 1];
    if n.staircase_id == 1 && n.step_rank == net[0].end {
        None
    } else if n.step_rank < s.end {
        Some(Node::new(n.staircase_id, n.step_rank + 1))
    } else {
        proof {
            assert(stair_fault(net@, n.staircase_id - 1) is None);
        }
        match s.returning {
            Some(r) => Some(Node::new(r, n.step_rank)),
            None => None,
        }
    }
}

/// Adds `x` to a list unless it already holds it.
fn push_new(v: &mut Vec<Node>, x: Node)
    ensures
        forall|m: Node| final(v)@.contains(m) <==> (old(v)@.contains(m) || m == x),
{
    let mut i: usize = 0;
    while i < v.len()
        invariant
            i <= v@.len(),
            forall|j: int| 0 <= j < i ==> v@[j] != x,
        decreases v.len() - i,
    {
        if v[i] == x {
            return;
        }
        i = i + 1;
    }
    v.push(x);
    proof {
        assert forall|m: Node| old(v)@.contains(m) || m == x implies final(v)@.contains(m) by {
            if old(v)@.contains(m) {
                let j = choose|j: int| 0 <= j < old(v)@.len() && old(v)@[j] == m;
                assert(v@[j] == m);
            } else if m == x {
                assert(v@[v@.len() - 1] == x);
            }
        }
    }
}

/// Closes a set of nodes under zero-cost branches.
pub fn close_under_feeds(net: &Vec<Staircase>, front: Vec<Node>) -> (r: Vec<Node>)
    requires
        sound(net@),
        forall|i: int| 0 <= i < front@.len() ==> is_node(net@, #[trigger] front@[i]),
    ensures
        forall|i: int| 0 <= i < r@.len() ==> is_node(net@, #[trigger] r@[i]),
        forall|m: Node|
            r@.contains(m) <==> fed_from(net@, front@, m),
{
    let ghost f = front@;
    let n = net.len();
    let mut r = front;
    let mut seen: Vec<bool> = Vec::new();
    while seen.len() < n
        invariant
            seen@.len() <= n,
            forall|t: int| 0 <= t < seen@.len() ==> !seen@[t],
        decreases n - seen.len(),
    {
        seen.push(false);
    }
    proof {
        assert forall|j: int| 0 <= j < r@.len() implies fed_from(net@, f, #[trigger] r@[j]) by {
            assert(f.contains(f[j]));
            assert(bridged(net@, f[j], f[j], 0));
        }
    }
    let mut i: usize = 0;
    while i < r.len()
        invariant
            sound(net@),
            n == net@.len(),
            seen@.len() == n,
            i <= r@.len(),
            forall|x: Node| f.contains(x) ==> r@.contains(x),
            forall|j: int| 0 <= j < r@.len() ==> is_node(net@, #[trigger] r@[j]),
            forall|j: int|
                0 <= j < r@.len() ==> fed_from(net@, f, #[trigger] r@[j]),
            forall|j: int, y: Node| 0 <= j < i && feeds(net@, r@[j], y) ==> r@.contains(y),
            forall|t: int|
                0 <= t < n && #[trigger] seen@[t] ==> r@.contains(
                    Node { staircase_id: (t + 1) as usize, step_rank: net@[t].begin },
                ),
        decreases count_false(seen@), r@.len() - i,
    {
        let x = r[i];
        let ghost cf0 = count_false(seen@);
        let ghost len0 = r@.len();
        let mut t: usize = 0;
        while t < n
            invariant
                sound(net@),
                n == net@.len(),
                seen@.len() == n,
                i < r@.len(),
                x == r@[i as int],
                len0 <= r@.len(),
                count_false(seen@) + r@.len() <= cf0 + len0,
                count_false(seen@) <= cf0,
                forall|x: Node| f.contains(x) ==> r@.contains(x),
                forall|j: int| 0 <= j < r@.len() ==> is_node(net@, #[trigger] r@[j]),
                forall|j: int|
                    0 <= j < r@.len() ==> fed_from(net@, f, #[trigger] r@[j]),
                forall|j: int, y: Node| 0 <= j < i && feeds(net@, r@[j], y) ==> r@.contains(y),
                forall|y: Node| y.staircase_id <= t && feeds(net@, x, y) ==> r@.contains(y),
                forall|u: int|
                    0 <= u < n && #[trigger] seen@[u] ==> r@.contains(
                        Node { staircase_id: (u + 1) as usize, step_rank: net@[u].begin },
                    ),
            decreases n - t,
        {
            let s = &net[t];
            let fed = match s.feeding {
                Some(id) => id == x.staircase_id,
                None => false,
            };
            let ghost r0 = r@;
            if fed && s.begin == x.step_rank && !seen[t] {
                let y = Node::new(t + 1, x.step_rank);
                proof {
                    lemma_count_false_set(seen@, t as int);
                    assert(feeds(net@, x, y));
                }
                seen.set(t, true);
                r.push(y);
                proof {
                    assert(r@[r@.len() - 1] == y);
                    assert forall|z: Node| r0.contains(z) implies r@.contains(z) by {
                        let j = choose|j: int| 0 <= j < r0.len() && r0[j] == z;
                        assert(r@[j] == z);
                    }
                    assert forall|j: int| 0 <= j < r@.len() implies fed_from(net@, f, #[trigger] r@[j]) by {
                        if j == r@.len() - 1 {
                            let (x0, d0) = choose|x0: Node, d0: nat|
                                f.contains(x0) && bridged(net@, x0, x, d0);
                            assert(bridged(net@, x0, y, d0 + 1));
                        } else {
                            assert(r@[j] == r0[j]);
                        }
                    }
                    assert(stair_fault(net@, t as int) is None);
                }
            }
            proof {
                assert forall|y: Node| y.staircase_id <= t + 1 && feeds(net@, x, y) implies r@.contains(y) by {
                    if y.staircase_id == t + 1 {
                        assert(stair(net@, y.staircase_id as int) == net@[t as int]);
                        assert(fed);
                        assert(seen@[t as int]);
                        assert(y == Node { staircase_id: (t + 1) as usize, step_rank: net@[t as int].begin });
                    } else {
                        assert(r0.contains(y));
                    }
                }
            }
            t = t + 1;
        }
        i = i + 1;
    }
    proof {
        assert forall|m: Node|
            fed_from(net@, f, m) implies r@.contains(m) by {
            let (x, d) = choose|x: Node, d: nat| f.contains(x) && bridged(net@, x, m, d);
            lemma_closed_holds(net@, r@, x, m, d);
        }
        assert forall|m: Node| r@.contains(m) implies fed_from(net@, f, m) by {
            let j = choose|j: int| 0 <= j < r@.len() && r@[j] == m;
        }
    }
    r
}

proof fn lemma_closed_holds(net: Seq<Staircase>, r: Seq<Node>, x: Node, m: Node, d: nat)
    requires
        r.contains(x),
        forall|j: int, y: Node| 0 <= j < r.len() && feeds(net, r[j], y) ==> r.contains(y),
        bridged(net, x, m, d),
    ensures
        r.contains(m),
    decreases d,
{
    if d > 0 {
        if bridged(net, x, m, (d - 1) as nat) {
            lemma_closed_holds(net, r, x, m, (d - 1) as nat);
        } else {
            let z = choose|z: Node| bridged(net, x, z, (d - 1) as nat) && feeds(net, z, m);
            lemma_closed_holds(net, r, x, z, (d - 1) as nat);
            let j = choose|j: int| 0 <= j < r.len() && r[j] == z;
        }
    }
}

/// `m` is one unit sub-step after some node of `front`.
pub open spec fn hops_from(net: Seq<Staircase>, front: Seq<Node>, m: Node) -> bool {
    exists|y: Node| #![trigger front.contains(y), hop(net, y)] front.contains(y) && hop(net, y) == Some(m)
}

/// The nodes one unit sub-step after the nodes of `front`, each listed once.
pub fn hop_all(net: &Vec<Staircase>, front: &Vec<Node>) -> (r: Vec<Node>)
    requires
        sound(net@),
        forall|i: int| 0 <= i < front@.len() ==> is_node(net@, #[trigger] front@[i]),
    ensures
        forall|i: int| 0 <= i < r@.len() ==> is_node(net@, #[trigger] r@[i]),
        forall|m: Node| r@.contains(m) <==> hops_from(net@, front@, m),
{
    let mut r: Vec<Node> = Vec::new();
    let mut i: usize = 0;
    while i < front.len()
        invariant
            sound(net@),
            i <= front@.len(),
            forall|j: int| 0 <= j < front@.len() ==> is_node(net@, #[trigger] front@[j]),
            forall|j: int| 0 <= j < r@.len() ==> is_node(net@, #[trigger] r@[j]),
            forall|m: Node| r@.contains(m) <==> hops_from(net@, front@.take(i as int), m),
        decreases front.len() - i,
    {
        let ghost r0 = r@;
        match hop_from(net, front[i]) {
            Some(m) => {
                push_new(&mut r, m);
                proof {
                    assert forall|j: int| 0 <= j < r@.len() implies is_node(net@, #[trigger] r@[j]) by {
                        assert(r@.contains(r@[j]));
                        if r@[j] != m {
                            let k = choose|k: int| 0 <= k < r0.len() && r0[k] == r@[j];
                        }
                    }
                }
            },
            None => {},
        }
        proof {
            let t0 = front@.take(i as int);
            let t1 = front@.take(i + 1);
            assert forall|m: Node| r@.contains(m) <==> hops_from(net@, t1, m) by {
                if hops_from(net@, t1, m) {
                    let y = choose|y: Node| t1.contains(y) && hop(net@, y) == Some(m);
                    let k = choose|k: int| 0 <= k < t1.len() && t1[k] == y;
                    if k < i {
                        assert(t0[k] == y);
                        assert(t0.contains(y));
                    }
                }
                if hops_from(net@, t0, m) {
                    let y = choose|y: Node| t0.contains(y) && hop(net@, y) == Some(m);
                    let k = choose|k: int| 0 <= k < t0.len() && t0[k] == y;
                    assert(t1[k] == y);
                    assert(t1.contains(y));
                }
                if r@.contains(m) && !r0.contains(m) {
                    assert(t1[i as int] == front@[i as int]);
                    assert(t1.contains(front@[i as int]));
                }
            }
        }
        i = i + 1;
    }
    proof {
        assert(front@.take(front@.len() as int) =~= front@);
    }
    r
}

/// `m` is one unit sub-step, after zero-cost branches, from a node of `front`.
pub open spec fn one_step(net: Seq<Staircase>, front: Seq<Node>, m: Node) -> bool {
    exists|x: Node, y: Node, d: nat|
        #![trigger front.contains(x), bridged(net, x, y, d), hop(net, y)]
        front.contains(x) && bridged(net, x, y, d) && hop(net, y) == Some(m)
}

/// The frontier one unit sub-step later: close `front` under zero-cost
/// branches, then take one hop from each node.
pub fn advance_frontier(net: &Vec<Staircase>, front: Vec<Node>) -> (r: Vec<Node>)
    requires
        sound(net@),
        forall|i: int| 0 <= i < front@.len() ==> is_node(net@, #[trigger] front@[i]),
    ensures
        forall|i: int| 0 <= i < r@.len() ==> is_node(net@, #[trigger] r@[i]),
        forall|m: Node| r@.contains(m) <==> one_step(net@, front@, m),
{
    let ghost f0 = front@;
    let closed = close_under_feeds(net, front);
    let next = hop_all(net, &closed);
    proof {
        assert forall|m: Node| next@.contains(m) <==> one_step(net@, f0, m) by {
            if next@.contains(m) {
                let y = choose|y: Node| closed@.contains(y) && hop(net@, y) == Some(m);
                assert(fed_from(net@, f0, y));
                let (x, d) = choose|x: Node, d: nat| f0.contains(x) && bridged(net@, x, y, d);
                assert(f0.contains(x) && bridged(net@, x, y, d) && hop(net@, y) == Some(m));
            }
            if one_step(net@, f0, m) {
                let (x, y, d) = choose|x: Node, y: Node, d: nat|
                    f0.contains(x) && bridged(net@, x, y, d) && hop(net@, y) == Some(m);
                assert(fed_from(net@, f0, y));
                assert(closed@.contains(y));
                assert(hops_from(net@, closed@, m));
            }
        }
    }
    next
}

/// A hop from a node lands on a node.
pub proof fn lemma_hop_node(net: Seq<Staircase>, y: Node)
    requires
        sound(net),
        is_node(net, y),
    ensures
        hop(net, y) matches Some(m) ==> is_node(net, m),
{
    assert(stair_fault(net, y.staircase_id - 1) is None);
}

/// Zero-cost branches from a node land on nodes.
pub proof fn lemma_bridged_node(net: Seq<Staircase>, x: Node, y: Node, d: nat)
    requires
        sound(net),
        is_node(net, x),
        bridged(net, x, y, d),
    ensures
        is_node(net, y),
    decreases d,
{
    if d > 0 {
        if bridged(net, x, y, (d - 1) as nat) {
            lemma_bridged_node(net, x, y, (d - 1) as nat);
        } else {
            let z = choose|z: Node| bridged(net, x, z, (d - 1) as nat) && feeds(net, z, y);
            assert(stair_fault(net, y.staircase_id - 1) is None);
        }
    }
}

/// Wherever a unit sub-step from a node lands is a node.
pub proof fn lemma_landed_node(net: Seq<Staircase>, n: Node, k: nat, m: Node)
    requires
        sound(net),
        is_node(net, n),
        landed(net, n, k, m),
    ensures
        is_node(net, m),
    decreases k,
{
    if k > 0 {
        let (x, y, d) = choose|x: Node, y: Node, d: nat|
            landed(net, n, (k - 1) as nat, x) && bridged(net, x, y, d) && hop(net, y) == Some(m);
        lemma_landed_node(net, n, (k - 1) as nat, x);
        lemma_bridged_node(net, x, y, d);
        lemma_hop_node(net, y);
    }
}

/// Whatever a node reaches by unit sub-steps is a node.
pub proof fn lemma_frontier_node(net: Seq<Staircase>, n: Node, k: nat, m: Node)
    requires
        sound(net),
        is_node(net, n),
        in_frontier(net, n, k, m),
    ensures
        is_node(net, m),
{
    let (x, d) = choose|x: Node, d: nat| landed(net, n, k, x) && bridged(net, x, m, d);
    lemma_landed_node(net, n, k, x);
    lemma_bridged_node(net, x, m, d);
}

} // verus!
