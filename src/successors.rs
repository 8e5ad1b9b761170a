use vstd::prelude::*;
use crate::frontier::{
    advance_frontier, bridged, close_under_feeds, fed_from, hop, in_frontier, landed, lemma_frontier_node, one_step,
};
use crate::network::{is_node, sound, stair_fault, Node, Staircase};

verus! {

/// The canonical order on nodes: by staircase id, then by step rank.
pub open spec fn node_lt(a: Node, b: Node) -> bool {
    a.staircase_id < b.staircase_id || (a.staircase_id == b.staircase_id && a.step_rank
        < b.step_rank)
}

pub open spec fn strictly_sorted(s: Seq<Node>) -> bool {
    forall|i: int, j: int| 0 <= i < j < s.len() ==> node_lt(#[trigger] s[i], #[trigger] s[j])
}

/// `m` follows `n` by one allowed move: exactly `k` unit sub-steps for an
/// allowed step count `k`.
pub open spec fn is_successor(net: Seq<Staircase>, moves: Seq<usize>, n: Node, m: Node) -> bool {
    exists|j: int|
        0 <= j < moves.len() && moves[j] >= 1 && #[trigger] in_frontier(
            net,
            n,
            moves[j] as nat,
            m,
        )
}

/// Every pair of an id in `1..=i` and a rank in `0..=top`, in canonical order.
pub open spec fn grid(i: nat, top: nat) -> Seq<Node>
    decreases i,
{
    if i == 0 {
        Seq::empty()
    } else {
        grid((i - 1) as nat, top) + Seq::new(
            top + 1,
            |r: int| Node { staircase_id: i as usize, step_rank: r as usize },
        )
    }
}

/// The members of `s` that follow `n` by one allowed move, in the order of `s`.
pub open spec fn keep_successors(net: Seq<Staircase>, moves: Seq<usize>, n: Node, s: Seq<Node>) -> Seq<Node>
    decreases s.len(),
{
    if s.len() == 0 {
        s
    } else {
        let rest = keep_successors(net, moves, n, s.drop_last());
        if is_successor(net, moves, n, s.last()) {
            rest.push(s.last())
        } else {
            rest
        }
    }
}

/// The successors of `n`, in canonical order.
pub open spec fn successor_list(net: Seq<Staircase>, moves: Seq<usize>, n: Node) -> Seq<Node> {
    keep_successors(net, moves, n, grid(net.len(), net[0].end as nat))
}

proof fn lemma_grid(i: nat, top: nat)
    requires
        i <= usize::MAX,
        top <= usize::MAX,
    ensures
        strictly_sorted(grid(i, top)),
        forall|k: int| 0 <= k < grid(i, top).len() ==> (#[trigger] grid(i, top)[k]).staircase_id <= i,
        forall|m: Node|
            1 <= m.staircase_id <= i && m.step_rank <= top ==> #[trigger] grid(i, top).contains(m),
    decreases i,
{
    if i > 0 {
        let g = grid((i - 1) as nat, top);
        let c = Seq::new(top + 1, |r: int| Node { staircase_id: i as usize, step_rank: r as usize });
        lemma_grid((i - 1) as nat, top);
        let h = grid(i, top);
        assert(h == g + c);
        assert forall|a: int, b: int| 0 <= a < b < h.len() implies node_lt(#[trigger] h[a], #[trigger] h[b]) by {
            if b < g.len() {
                assert(h[a] == g[a] && h[b] == g[b]);
            } else if a < g.len() {
                assert(h[a] == g[a]);
                assert(h[b] == c[b - g.len()]);
            } else {
                assert(h[a] == c[a - g.len()]);
                assert(h[b] == c[b - g.len()]);
            }
        }
        assert forall|k: int| 0 <= k < h.len() implies (#[trigger] h[k]).staircase_id <= i by {
            if k < g.len() {
                assert(h[k] == g[k]);
            } else {
                assert(h[k] == c[k - g.len()]);
            }
        }
        assert forall|m: Node| 1 <= m.staircase_id <= i && m.step_rank <= top implies h.contains(m) by {
            if m.staircase_id < i {
                assert(1 <= m.staircase_id <= (i - 1) as nat);
                assert(grid((i - 1) as nat, top).contains(m));
                let k = choose|k: int| 0 <= k < g.len() && g[k] == m;
                assert(h[k] == m);
            } else {
                let k = g.len() + m.step_rank;
                assert(h[k] == c[m.step_rank as int]);
                assert(h[k] == m);
            }
        }
    }
}

proof fn lemma_keep_successors(net: Seq<Staircase>, moves: Seq<usize>, n: Node, s: Seq<Node>)
    requires
        strictly_sorted(s),
    ensures
        strictly_sorted(keep_successors(net, moves, n, s)),
        forall|m: Node|
            #[trigger] keep_successors(net, moves, n, s).contains(m) <==> (s.contains(m) && is_successor(
                net,
                moves,
                n,
                m,
            )),
    decreases s.len(),
{
    if s.len() > 0 {
        let s0 = s.drop_last();
        assert(strictly_sorted(s0)) by {
            assert forall|a: int, b: int| 0 <= a < b < s0.len() implies node_lt(#[trigger] s0[a], #[trigger] s0[b]) by {
                assert(s0[a] == s[a] && s0[b] == s[b]);
            }
        }
        lemma_keep_successors(net, moves, n, s0);
        let rest = keep_successors(net, moves, n, s0);
        let x = s.last();
        assert forall|m: Node| s.contains(m) <==> (s0.contains(m) || m == x) by {
            if s.contains(m) {
                let k = choose|k: int| 0 <= k < s.len() && s[k] == m;
                if k < s.len() - 1 {
                    assert(s0[k] == m);
                }
            }
            if s0.contains(m) {
                let k = choose|k: int| 0 <= k < s0.len() && s0[k] == m;
                assert(s[k] == m);
            }
        }
        if is_successor(net, moves, n, x) {
            let r = rest.push(x);
            assert forall|a: int, b: int| 0 <= a < b < r.len() implies node_lt(#[trigger] r[a], #[trigger] r[b]) by {
                if b == r.len() - 1 {
                    assert(r[a] == rest[a]);
                    assert(rest.contains(rest[a]));
                    let k = choose|k: int| 0 <= k < s0.len() && s0[k] == rest[a];
                    assert(s[k] == rest[a]);
                    assert(s[s.len() - 1] == x);
                } else {
                    assert(r[a] == rest[a] && r[b] == rest[b]);
                }
            }
            assert forall|m: Node| r.contains(m) <==> (rest.contains(m) || m == x) by {
                if r.contains(m) {
                    let k = choose|k: int| 0 <= k < r.len() && r[k] == m;
                    if k < rest.len() {
                        assert(rest[k] == m);
                    }
                }
                if rest.contains(m) {
                    let k = choose|k: int| 0 <= k < rest.len() && rest[k] == m;
                    assert(r[k] == m);
                }
                if m == x {
                    assert(r[rest.len() as int] == x);
                }
            }
        }
    }
}

/// Successors of a node are nodes.
pub proof fn lemma_successor_is_node(net: Seq<Staircase>, moves: Seq<usize>, n: Node, m: Node)
    requires
        sound(net),
        is_node(net, n),
        is_successor(net, moves, n, m),
    ensures
        is_node(net, m),
{
    let j = choose|j: int| 0 <= j < moves.len() && moves[j] >= 1 && #[trigger] in_frontier(net, n, moves[j] as nat, m);
    lemma_frontier_node(net, n, moves[j] as nat, m);
}

/// The canonical successor list is strictly sorted and holds exactly the
/// successors of `n`.
pub proof fn lemma_successor_list(net: Seq<Staircase>, moves: Seq<usize>, n: Node)
    requires
        sound(net),
        net.len() < usize::MAX,
        is_node(net, n),
    ensures
        strictly_sorted(successor_list(net, moves, n)),
        forall|m: Node| successor_list(net, moves, n).contains(m) <==> is_successor(net, moves, n, m),
{
    let g = grid(net.len(), net[0].end as nat);
    lemma_grid(net.len(), net[0].end as nat);
    lemma_keep_successors(net, moves, n, g);
    assert forall|m: Node| is_successor(net, moves, n, m) implies g.contains(m) by {
        lemma_successor_is_node(net, moves, n, m);
        assert(stair_fault(net, m.staircase_id - 1) is None);
    }
}

/// Two strictly sorted lists with the same members are the same list.
pub proof fn lemma_sorted_unique(a: Seq<Node>, b: Seq<Node>)
    requires
        strictly_sorted(a),
        strictly_sorted(b),
        forall|m: Node| a.contains(m) <==> b.contains(m),
    ensures
        a == b,
    decreases a.len(),
{
    if a.len() == 0 {
        if b.len() > 0 {
            assert(b.contains(b[0]));
        }
        assert(a =~= b);
    } else {
        assert(a.contains(a[0]));
        let k = choose|k: int| 0 <= k < b.len() && b[k] == a[0];
        assert(b.contains(b[0]));
        let l = choose|l: int| 0 <= l < a.len() && a[l] == b[0];
        if k > 0 {
            assert(node_lt(b[0], b[k]));
            if l > 0 {
                assert(node_lt(a[0], a[l]));
            }
        }
        assert(k == 0);
        let a1 = a.drop_first();
        let b1 = b.drop_first();
        assert forall|m: Node| a1.contains(m) <==> b1.contains(m) by {
            if a1.contains(m) {
                let i = choose|i: int| 0 <= i < a1.len() && a1[i] == m;
                assert(a.contains(m));
                assert(node_lt(a[0], a[i + 1]));
                let j = choose|j: int| 0 <= j < b.len() && b[j] == m;
                assert(j != 0);
                assert(b1[j - 1] == m);
            }
            if b1.contains(m) {
                let i = choose|i: int| 0 <= i < b1.len() && b1[i] == m;
                assert(b.contains(m));
                assert(node_lt(b[0], b[i + 1]));
                let j = choose|j: int| 0 <= j < a.len() && a[j] == m;
                assert(j != 0);
                assert(a1[j - 1] == m);
            }
        }
        lemma_sorted_unique(a1, b1);
        assert(a =~= seq![a[0]] + a1);
        assert(b =~= seq![b[0]] + b1);
    }
}

/// Closing the landing places of the `k`-th sub-step under zero-cost
/// branches gives the frontier after `k` sub-steps.
proof fn lemma_close_landed(net: Seq<Staircase>, n: Node, k: nat, front: Seq<Node>, m: Node)
    requires
        forall|x: Node| front.contains(x) <==> landed(net, n, k, x),
    ensures
        fed_from(net, front, m) <==> in_frontier(net, n, k, m),
{
    if fed_from(net, front, m) {
        let (x, d) = choose|x: Node, d: nat| front.contains(x) && bridged(net, x, m, d);
        assert(landed(net, n, k, x) && bridged(net, x, m, d));
    }
    if in_frontier(net, n, k, m) {
        let (x, d) = choose|x: Node, d: nat| landed(net, n, k, x) && bridged(net, x, m, d);
        assert(front.contains(x) && bridged(net, x, m, d));
    }
}

proof fn lemma_frontier_stays_empty(net: Seq<Staircase>, n: Node, k: nat, k2: nat)
    requires
        k <= k2,
        forall|m: Node| !landed(net, n, k, m),
    ensures
        forall|m: Node| !landed(net, n, k2, m),
    decreases k2,
{
    if k < k2 {
        lemma_frontier_stays_empty(net, n, k, (k2 - 1) as nat);
        assert forall|m: Node| !landed(net, n, k2, m) by {
            lemma_frontier_step(net, n, k2, m);
        }
    }
}

proof fn lemma_frontier_step(net: Seq<Staircase>, n: Node, k: nat, m: Node)
    requires
        k > 0,
    ensures
        landed(net, n, k, m) == exists|x: Node, y: Node, d: nat|
            #![trigger bridged(net, x, y, d), hop(net, y)]
            landed(net, n, (k - 1) as nat, x) && bridged(net, x, y, d) && hop(net, y) == Some(m),
{
    if landed(net, n, k, m) {
        let (x, y, d) = choose|x: Node, y: Node, d: nat|
            landed(net, n, (k - 1) as nat, x) && bridged(net, x, y, d) && hop(net, y) == Some(m);
        assert(landed(net, n, (k - 1) as nat, x) && bridged(net, x, y, d) && hop(net, y) == Some(m));
    }
    if exists|x: Node, y: Node, d: nat|
        #![trigger bridged(net, x, y, d), hop(net, y)]
        landed(net, n, (k - 1) as nat, x) && bridged(net, x, y, d) && hop(net, y) == Some(m) {
        let (x, y, d) = choose|x: Node, y: Node, d: nat|
            landed(net, n, (k - 1) as nat, x) && bridged(net, x, y, d) && hop(net, y) == Some(m);
        assert(landed(net, n, k, m));
    }
}

/// One unit sub-step from the frontier after `k` sub-steps gives the
/// frontier after `k + 1`.
proof fn lemma_frontier_step_from(net: Seq<Staircase>, n: Node, k: nat, front: Seq<Node>, m: Node)
    requires
        forall|x: Node| front.contains(x) <==> landed(net, n, k, x),
    ensures
        one_step(net, front, m) <==> landed(net, n, k + 1, m),
{
    lemma_frontier_step(net, n, k + 1, m);
    if one_step(net, front, m) {
        let (x, y, d) = choose|x: Node, y: Node, d: nat|
            front.contains(x) && bridged(net, x, y, d) && hop(net, y) == Some(m);
        assert(landed(net, n, k, x) && bridged(net, x, y, d) && hop(net, y) == Some(m));
    }
    if landed(net, n, k + 1, m) {
        let (x, y, d) = choose|x: Node, y: Node, d: nat|
            landed(net, n, k, x) && bridged(net, x, y, d) && hop(net, y) == Some(m);
        assert(front.contains(x) && bridged(net, x, y, d) && hop(net, y) == Some(m));
    }
}

/// The nodes reached from `n` by exactly `budget` unit sub-steps, each taken
/// after any number of zero-cost branches.
pub fn expand(net: &Vec<Staircase>, n: Node, budget: usize) -> (r: Vec<Node>)
    requires
        sound(net@),
        is_node(net@, n),
    ensures
        forall|i: int| 0 <= i < r@.len() ==> is_node(net@, #[trigger] r@[i]),
        forall|m: Node| r@.contains(m) <==> in_frontier(net@, n, budget as nat, m),
{
    let mut front: Vec<Node> = Vec::new();
    front.push(n);
    proof {
        assert forall|m: Node| front@.contains(m) <==> landed(net@, n, 0, m) by {
            if m == n {
                assert(front@[0] == n);
            }
        }
    }
    let mut k: usize = 0;
    while k < budget
        invariant
            sound(net@),
            k <= budget,
            forall|i: int| 0 <= i < front@.len() ==> is_node(net@, #[trigger] front@[i]),
            forall|m: Node| front@.contains(m) <==> landed(net@, n, k as nat, m),
        decreases budget - k,
    {
        let ghost f0 = front@;
        front = advance_frontier(net, front);
        proof {
            assert forall|m: Node| front@.contains(m) <==> landed(net@, n, (k + 1) as nat, m) by {
                lemma_frontier_step_from(net@, n, k as nat, f0, m);
            }
        }
        k = k + 1;
    }
    let ghost landing = front@;
    let r = close_under_feeds(net, front);
    proof {
        assert forall|m: Node| r@.contains(m) <==> in_frontier(net@, n, budget as nat, m) by {
            lemma_close_landed(net@, n, budget as nat, landing, m);
        }
    }
    r
}

fn node_less(a: Node, b: Node) -> (r: bool)
    ensures
        r == node_lt(a, b),
{
    a.staircase_id < b.staircase_id || (a.staircase_id == b.staircase_id && a.step_rank
        < b.step_rank)
}

/// Adds `x` to a strictly sorted list, keeping it strictly sorted.
fn insert_sorted(v: &mut Vec<Node>, x: Node)
    requires
        strictly_sorted(old(v)@),
    ensures
        strictly_sorted(final(v)@),
        forall|m: Node| final(v)@.contains(m) <==> (old(v)@.contains(m) || m == x),
{
    let mut i: usize = 0;
    while i < v.len() && node_less(v[i], x)
        invariant
            v@ == old(v)@,
            strictly_sorted(v@),
            i <= v@.len(),
            forall|j: int| 0 <= j < i ==> node_lt(#[trigger] v@[j], x),
        decreases v.len() - i,
    {
        i = i + 1;
    }
    if i < v.len() && v[i] == x {
        proof {
            assert(v@[i as int] == x);
            assert(v@.contains(x));
        }
        return;
    }
    let ghost v0 = v@;
    v.insert(i, x);
    proof {
        assert(v@ == v0.insert(i as int, x));
        assert forall|a: int, b: int| 0 <= a < b < v@.len() implies node_lt(
            #[trigger] v@[a],
            #[trigger] v@[b],
        ) by {
            if b == i {
            } else if a == i {
                assert(node_lt(x, v0[i as int]));
                if b - 1 > i {
                    assert(node_lt(v0[i as int], v0[b - 1]));
                }
            } else if a < i && b > i {
                assert(node_lt(v0[a], x));
                assert(node_lt(x, v0[i as int]));
            } else if a > i {
                assert(node_lt(v0[a - 1], v0[b - 1]));
            }
        }
        assert forall|m: Node| v0.contains(m) implies v@.contains(m) by {
            let j = choose|j: int| 0 <= j < v0.len() && v0[j] == m;
            if j < i {
                assert(v@[j] == m);
            } else {
                assert(v@[j + 1] == m);
            }
        }
        assert(v@[i as int] == x);
        assert(v@.contains(x));
        assert forall|m: Node| v@.contains(m) implies v0.contains(m) || m == x by {
            let j = choose|j: int| 0 <= j < v@.len() && v@[j] == m;
            if j < i {
                assert(v0[j] == m);
            } else if j > i {
                assert(v0[j - 1] == m);
            }
        }
    }
}

/// The largest allowed step count, or 0 when none is allowed.
fn largest_move(moves: &Vec<usize>) -> (r: usize)
    ensures
        forall|j: int| 0 <= j < moves@.len() ==> moves@[j] <= r,
{
    let mut best: usize = 0;
    let mut i: usize = 0;
    while i < moves.len()
        invariant
            i <= moves@.len(),
            forall|j: int| 0 <= j < i ==> moves@[j] <= best,
        decreases moves.len() - i,
    {
        if moves[i] > best {
            best = moves[i];
        }
        i = i + 1;
    }
    best
}

/// Whether `k` is an allowed step count.
fn allows(moves: &Vec<usize>, k: usize) -> (r: bool)
    ensures
        r == exists|j: int| 0 <= j < moves@.len() && moves@[j] == k,
{
    let mut i: usize = 0;
    while i < moves.len()
        invariant
            i <= moves@.len(),
            forall|j: int| 0 <= j < i ==> moves@[j] != k,
        decreases moves.len() - i,
    {
        if moves[i] == k {
            return true;
        }
        i = i + 1;
    }
    false
}

/// The successors of `n`: the nodes reached from it by one allowed move, in
/// canonical order.
pub fn successors_of(net: &Vec<Staircase>, moves: &Vec<usize>, n: Node) -> (r: Vec<Node>)
    requires
        sound(net@),
        net@.len() < usize::MAX,
        is_node(net@, n),
    ensures
        strictly_sorted(r@),
        forall|m: Node| r@.contains(m) <==> is_successor(net@, moves@, n, m),
        forall|i: int| 0 <= i < r@.len() ==> is_node(net@, #[trigger] r@[i]),
        r@ == successor_list(net@, moves@, n),
{
    let max_move = largest_move(moves);
    let mut front: Vec<Node> = Vec::new();
    front.push(n);
    let mut acc: Vec<Node> = Vec::new();
    let mut k: usize = 0;
    proof {
        assert forall|m: Node| front@.contains(m) <==> landed(net@, n, 0, m) by {
            if m == n {
                assert(front@[0] == n);
            }
        }
    }
    while k < max_move && front.len() > 0
        invariant
            sound(net@),
            is_node(net@, n),
            k <= max_move,
            forall|j: int| 0 <= j < moves@.len() ==> moves@[j] <= max_move,
            forall|m: Node| front@.contains(m) <==> landed(net@, n, k as nat, m),
            forall|i: int| 0 <= i < front@.len() ==> is_node(net@, #[trigger] front@[i]),
            forall|i: int| 0 <= i < acc@.len() ==> is_node(net@, #[trigger] acc@[i]),
            strictly_sorted(acc@),
            forall|m: Node|
                acc@.contains(m) <==> exists|j: int|
                    0 <= j < moves@.len() && 1 <= moves@[j] <= k && #[trigger] in_frontier(
                        net@,
                        n,
                        moves@[j] as nat,
                        m,
                    ),
        decreases max_move - k,
    {
        let ghost f0 = front@;
        let next = advance_frontier(net, front);
        k = k + 1;
        proof {
            assert forall|m: Node| next@.contains(m) <==> landed(net@, n, k as nat, m) by {
                lemma_frontier_step_from(net@, n, (k - 1) as nat, f0, m);
            }
        }
        if allows(moves, k) {
            let closed = close_under_feeds(net, next.clone());
            proof {
                assert forall|m: Node| closed@.contains(m) <==> in_frontier(net@, n, k as nat, m) by {
                    lemma_close_landed(net@, n, k as nat, next@, m);
                }
            }
            let ghost acc0 = acc@;
            assert(forall|m: Node|
                acc0.contains(m) <==> exists|j: int|
                    0 <= j < moves@.len() && 1 <= moves@[j] <= k - 1 && #[trigger] in_frontier(
                        net@,
                        n,
                        moves@[j] as nat,
                        m,
                    ));
            let mut i: usize = 0;
            while i < closed.len()
                invariant
                    i <= closed@.len(),
                    strictly_sorted(acc@),
                    forall|j: int| 0 <= j < closed@.len() ==> is_node(net@, #[trigger] closed@[j]),
                    forall|j: int| 0 <= j < acc0.len() ==> is_node(net@, #[trigger] acc0[j]),
                    forall|m: Node|
                        acc@.contains(m) <==> (acc0.contains(m) || closed@.take(i as int).contains(
                            m,
                        )),
                decreases closed.len() - i,
            {
                let ghost acc1 = acc@;
                proof {
                    assert forall|m: Node|
                        acc1.contains(m) <==> (acc0.contains(m) || closed@.take(i as int).contains(m)) by {
                    }
                }
                insert_sorted(&mut acc, closed[i]);
                proof {
                    let t0 = closed@.take(i as int);
                    let t1 = closed@.take(i + 1);
                    assert(t1 =~= t0.push(closed@[i as int]));
                    assert forall|m: Node| t1.contains(m) <==> (t0.contains(m) || m == closed@[i as int]) by {
                        if t1.contains(m) {
                            let j = choose|j: int| 0 <= j < t1.len() && t1[j] == m;
                            if j < i {
                                assert(t0[j] == m);
                            }
                        }
                        if t0.contains(m) {
                            let j = choose|j: int| 0 <= j < t0.len() && t0[j] == m;
                            assert(t1[j] == m);
                        }
                        if m == closed@[i as int] {
                            assert(t1[i as int] == m);
                        }
                    }
                    assert forall|m: Node|
                        acc@.contains(m) <==> (acc0.contains(m) || t1.contains(m)) by {
                        assert(acc@.contains(m) <==> (acc1.contains(m) || m == closed@[i as int]));
                        assert(acc1.contains(m) <==> (acc0.contains(m) || t0.contains(m)));
                    }
                }
                i = i + 1;
            }
            proof {
                assert(closed@.take(closed@.len() as int) =~= closed@);
                assert forall|i: int| 0 <= i < acc@.len() implies is_node(net@, #[trigger] acc@[i]) by {
                    assert(acc@.contains(acc@[i]));
                    if acc0.contains(acc@[i]) {
                        let j = choose|j: int| 0 <= j < acc0.len() && acc0[j] == acc@[i];
                    } else {
                        let j = choose|j: int| 0 <= j < closed@.len() && closed@[j] == acc@[i];
                    }
                }
                assert forall|m: Node|
                    acc@.contains(m) <==> exists|j: int|
                        0 <= j < moves@.len() && 1 <= moves@[j] <= k && #[trigger] in_frontier(
                            net@,
                            n,
                            moves@[j] as nat,
                            m,
                        ) by {
                    if closed@.contains(m) {
                        let j = choose|j: int| 0 <= j < moves@.len() && moves@[j] == k;
                        assert(in_frontier(net@, n, moves@[j] as nat, m));
                    }
                    if acc0.contains(m) {
                        let j = choose|j: int|
                            0 <= j < moves@.len() && 1 <= moves@[j] <= k - 1 && #[trigger] in_frontier(
                                net@,
                                n,
                                moves@[j] as nat,
                                m,
                            );
                    }
                    if exists|j: int|
                        0 <= j < moves@.len() && 1 <= moves@[j] <= k && #[trigger] in_frontier(
                            net@,
                            n,
                            moves@[j] as nat,
                            m,
                        ) {
                        let j = choose|j: int|
                            0 <= j < moves@.len() && 1 <= moves@[j] <= k && #[trigger] in_frontier(
                                net@,
                                n,
                                moves@[j] as nat,
                                m,
                            );
                        if moves@[j] == k {
                            assert(in_frontier(net@, n, k as nat, m));
                            assert(closed@.contains(m));
                        } else {
                            assert(acc0.contains(m));
                        }
                    }
                }
            }
        } else {
            proof {
                assert forall|m: Node|
                    acc@.contains(m) <==> exists|j: int|
                        0 <= j < moves@.len() && 1 <= moves@[j] <= k && #[trigger] in_frontier(
                            net@,
                            n,
                            moves@[j] as nat,
                            m,
                        ) by {
                    if exists|j: int|
                        0 <= j < moves@.len() && 1 <= moves@[j] <= k && #[trigger] in_frontier(
                            net@,
                            n,
                            moves@[j] as nat,
                            m,
                        ) {
                        let j = choose|j: int|
                            0 <= j < moves@.len() && 1 <= moves@[j] <= k && #[trigger] in_frontier(
                                net@,
                                n,
                                moves@[j] as nat,
                                m,
                            );
                        assert(moves@[j] != k);
                    }
                }
            }
        }
        front = next;
    }
    proof {
        if front@.len() == 0 {
            assert forall|m: Node| !landed(net@, n, k as nat, m) by {
                if landed(net@, n, k as nat, m) {
                    assert(front@.contains(m));
                }
            }
        }
        assert forall|m: Node| acc@.contains(m) <==> is_successor(net@, moves@, n, m) by {
            if is_successor(net@, moves@, n, m) {
                let j = choose|j: int|
                    0 <= j < moves@.len() && moves@[j] >= 1 && #[trigger] in_frontier(
                        net@,
                        n,
                        moves@[j] as nat,
                        m,
                    );
                if moves@[j] > k {
                    lemma_frontier_stays_empty(net@, n, k as nat, moves@[j] as nat);
                }
            }
        }
        lemma_successor_list(net@, moves@, n);
        lemma_sorted_unique(acc@, successor_list(net@, moves@, n));
    }
    acc
}

} // verus!
