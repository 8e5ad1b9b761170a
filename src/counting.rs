use vstd::prelude::*;
use crate::frontier::{bridged, feeds, hop, in_frontier, landed, lemma_bridged_node, lemma_landed_node};
use crate::network::{
    exits_within, handoff, handoff_depth, is_node, sound, stair, stair_fault, terminal_node, Node, Staircase,
};
use crate::successors::{is_successor, lemma_successor_is_node, lemma_successor_list, successor_list};

verus! {

/// The number of levels given to each step rank.
pub open spec fn band(net: Seq<Staircase>) -> int {
    net.len() as int + 3
}

/// The level of a node within its rank: last ranks of staircases lowest,
/// ordered so that each hand-off at one rank goes up; then middle ranks;
/// first ranks highest.
pub open spec fn sublevel(net: Seq<Staircase>, n: Node) -> int {
    let s = stair(net, n.staircase_id as int);
    if n.step_rank == s.end {
        net.len() as int - handoff_depth(net, n.staircase_id as int, net.len()) as int
    } else if n.step_rank == s.begin {
        net.len() as int + 2
    } else {
        net.len() as int + 1
    }
}

/// The level of the top of the primary corridor, above every other level.
pub open spec fn top_level(net: Seq<Staircase>) -> int {
    band(net) * (net[0].end + 1)
}

/// A measure that every move strictly raises: `band` levels per step rank,
/// and the sublevel within it.
pub open spec fn level(net: Seq<Staircase>, n: Node) -> int {
    if n == terminal_node(net) {
        top_level(net)
    } else {
        band(net) * n.step_rank + sublevel(net, n)
    }
}

/// Levels compare as rank first, then sublevel.
pub proof fn lemma_band(k: int, r1: int, c1: int, r2: int, c2: int)
    requires
        0 <= c1 < k,
        0 <= c2 < k,
        0 <= r1,
        0 <= r2,
    ensures
        (k * r1 + c1 < k * r2 + c2) <==> (r1 < r2 || (r1 == r2 && c1 < c2)),
        (k * r1 + c1 == k * r2 + c2) <==> (r1 == r2 && c1 == c2),
{
    if r1 < r2 {
        assert(k * r1 + k <= k * r2) by (nonlinear_arith)
            requires
                r1 < r2,
                0 < k,
        ;
    } else if r2 < r1 {
        assert(k * r2 + k <= k * r1) by (nonlinear_arith)
            requires
                r2 < r1,
                0 < k,
        ;
    }
}

pub proof fn lemma_depth_bound(net: Seq<Staircase>, id: int, fuel: nat)
    ensures
        handoff_depth(net, id, fuel) <= fuel,
    decreases fuel,
{
    if let Some(t) = handoff(net, id) {
        if fuel > 0 {
            lemma_depth_bound(net, t, (fuel - 1) as nat);
        }
    }
}

proof fn lemma_depth_fuel(net: Seq<Staircase>, id: int, f: nat, g: nat)
    requires
        exits_within(net, id, f),
        f <= g,
    ensures
        exits_within(net, id, g),
        handoff_depth(net, id, f) == handoff_depth(net, id, g),
    decreases f,
{
    if let Some(t) = handoff(net, id) {
        lemma_depth_fuel(net, t, (f - 1) as nat, (g - 1) as nat);
    }
}

/// A node's sublevel lies within its band.
pub proof fn lemma_sublevel_range(net: Seq<Staircase>, n: Node)
    ensures
        0 <= sublevel(net, n) < band(net),
{
    lemma_depth_bound(net, n.staircase_id as int, net.len());
}

/// Number of walks from `n` to the top of the primary corridor, one allowed
/// move at a time.
pub open spec fn paths(net: Seq<Staircase>, moves: Seq<usize>, n: Node) -> nat
    decreases top_level(net) - level(net, n), 1int, 0int,
{
    if n == terminal_node(net) {
        1
    } else {
        let s = successor_list(net, moves, n);
        paths_through(net, moves, n, s, s.len() as int)
    }
}

/// Number of walks from `n` whose first move goes to one of `s[0..j]`.
pub open spec fn paths_through(
    net: Seq<Staircase>,
    moves: Seq<usize>,
    n: Node,
    s: Seq<Node>,
    j: int,
) -> nat
    decreases top_level(net) - level(net, n), 0int, j,
{
    if j <= 0 || j > s.len() {
        0
    } else {
        paths_through(net, moves, n, s, j - 1) + if level(net, n) < level(net, s[j - 1])
            <= top_level(net) {
            paths(net, moves, s[j - 1])
        } else {
            0
        }
    }
}

proof fn lemma_terminal_stuck(net: Seq<Staircase>)
    requires
        sound(net),
    ensures
        hop(net, terminal_node(net)) is None,
        forall|z: Node| !feeds(net, terminal_node(net), z),
{
    assert(stair_fault(net, 0) is None);
    if let Some(r) = net[0].returning {
        assert(stair_fault(net, r - 1) is None);
    }
    assert forall|z: Node| !feeds(net, terminal_node(net), z) by {
        if feeds(net, terminal_node(net), z) {
            assert(stair_fault(net, z.staircase_id - 1) is None);
        }
    }
}

proof fn lemma_bridged_from_terminal(net: Seq<Staircase>, y: Node, d: nat)
    requires
        sound(net),
        bridged(net, terminal_node(net), y, d),
    ensures
        y == terminal_node(net),
    decreases d,
{
    lemma_terminal_stuck(net);
    if d > 0 {
        if bridged(net, terminal_node(net), y, (d - 1) as nat) {
            lemma_bridged_from_terminal(net, y, (d - 1) as nat);
        } else {
            let z = choose|z: Node| bridged(net, terminal_node(net), z, (d - 1) as nat) && feeds(net, z, y);
            lemma_bridged_from_terminal(net, z, (d - 1) as nat);
        }
    }
}

pub proof fn lemma_node_level(net: Seq<Staircase>, n: Node)
    requires
        sound(net),
        is_node(net, n),
    ensures
        level(net, n) <= top_level(net),
        n != terminal_node(net) ==> level(net, n) < top_level(net),
{
    assert(stair_fault(net, n.staircase_id - 1) is None);
    assert(stair_fault(net, 0) is None);
    lemma_sublevel_range(net, n);
    lemma_band(band(net), n.step_rank as int, sublevel(net, n), net[0].end + 1, 0);
}

proof fn lemma_hop_rises(net: Seq<Staircase>, y: Node)
    requires
        sound(net),
        is_node(net, y),
        y != terminal_node(net),
    ensures
        hop(net, y) matches Some(m) ==> level(net, y) < level(net, m) <= top_level(net),
{
    let s = stair(net, y.staircase_id as int);
    let k = band(net);
    assert(stair_fault(net, y.staircase_id - 1) is None);
    lemma_sublevel_range(net, y);
    if let Some(m) = hop(net, y) {
        lemma_node_level(net, y);
        crate::frontier::lemma_hop_node(net, y);
        lemma_node_level(net, m);
        if m != terminal_node(net) {
            lemma_sublevel_range(net, m);
            if y.step_rank < s.end {
                lemma_band(k, y.step_rank as int, sublevel(net, y), m.step_rank as int, sublevel(net, m));
            } else {
                let t = s.returning->Some_0;
                assert(stair_fault(net, t - 1) is None);
                let st = stair(net, t as int);
                if y.step_rank == st.end {
                    assert(handoff(net, y.staircase_id as int) == Some(t as int));
                    assert(exits_within(net, y.staircase_id as int, net.len()));
                    lemma_depth_fuel(net, t as int, (net.len() - 1) as nat, net.len());
                }
                lemma_band(k, y.step_rank as int, sublevel(net, y), m.step_rank as int, sublevel(net, m));
            }
        }
    }
}

proof fn lemma_feeds_keep(net: Seq<Staircase>, x: Node, z: Node)
    requires
        sound(net),
        is_node(net, x),
        x != terminal_node(net),
        feeds(net, x, z),
    ensures
        z != terminal_node(net),
        level(net, x) <= level(net, z),
{
    assert(stair_fault(net, z.staircase_id - 1) is None);
    assert(stair_fault(net, x.staircase_id - 1) is None);
    lemma_sublevel_range(net, x);
    lemma_sublevel_range(net, z);
    lemma_band(band(net), x.step_rank as int, sublevel(net, x), z.step_rank as int, sublevel(net, z));
}

proof fn lemma_bridged_keep(net: Seq<Staircase>, x: Node, y: Node, d: nat)
    requires
        sound(net),
        is_node(net, x),
        x != terminal_node(net),
        bridged(net, x, y, d),
    ensures
        y != terminal_node(net),
        level(net, x) <= level(net, y),
    decreases d,
{
    if d > 0 {
        if bridged(net, x, y, (d - 1) as nat) {
            lemma_bridged_keep(net, x, y, (d - 1) as nat);
        } else {
            let z = choose|z: Node| bridged(net, x, z, (d - 1) as nat) && feeds(net, z, y);
            lemma_bridged_keep(net, x, z, (d - 1) as nat);
            lemma_bridged_node(net, x, z, (d - 1) as nat);
            lemma_feeds_keep(net, z, y);
        }
    }
}

proof fn lemma_landed_rises(net: Seq<Staircase>, n: Node, k: nat, m: Node)
    requires
        sound(net),
        is_node(net, n),
        n != terminal_node(net),
        k >= 1,
        landed(net, n, k, m),
    ensures
        level(net, n) < level(net, m) <= top_level(net),
    decreases k,
{
    let (x, y, d) = choose|x: Node, y: Node, d: nat|
        landed(net, n, (k - 1) as nat, x) && bridged(net, x, y, d) && hop(net, y) == Some(m);
    lemma_landed_node(net, n, (k - 1) as nat, x);
    if k > 1 {
        lemma_landed_rises(net, n, (k - 1) as nat, x);
    }
    if x == terminal_node(net) {
        lemma_bridged_from_terminal(net, y, d);
        lemma_terminal_stuck(net);
    } else {
        lemma_bridged_keep(net, x, y, d);
        lemma_bridged_node(net, x, y, d);
        lemma_hop_rises(net, y);
    }
}

proof fn lemma_frontier_rises(net: Seq<Staircase>, n: Node, k: nat, m: Node)
    requires
        sound(net),
        is_node(net, n),
        n != terminal_node(net),
        k >= 1,
        in_frontier(net, n, k, m),
    ensures
        level(net, n) < level(net, m) <= top_level(net),
{
    let (x, d) = choose|x: Node, d: nat| landed(net, n, k, x) && bridged(net, x, m, d);
    lemma_landed_rises(net, n, k, x);
    lemma_landed_node(net, n, k, x);
    lemma_bridged_node(net, x, m, d);
    lemma_node_level(net, m);
    if x == terminal_node(net) {
        lemma_bridged_from_terminal(net, m, d);
    } else {
        lemma_bridged_keep(net, x, m, d);
    }
}

/// Every successor of a node other than the top of the corridor is a node
/// of a strictly higher level.
pub proof fn lemma_successors_rise(net: Seq<Staircase>, moves: Seq<usize>, n: Node)
    requires
        sound(net),
        net.len() < usize::MAX,
        is_node(net, n),
        n != terminal_node(net),
    ensures
        forall|i: int|
            0 <= i < successor_list(net, moves, n).len() ==> is_node(
                net,
                #[trigger] successor_list(net, moves, n)[i],
            ) && level(net, n) < level(net, successor_list(net, moves, n)[i]) <= top_level(net),
{
    let s = successor_list(net, moves, n);
    lemma_successor_list(net, moves, n);
    assert forall|i: int| 0 <= i < s.len() implies is_node(net, #[trigger] s[i]) && level(net, n)
        < level(net, s[i]) <= top_level(net) by {
        assert(s.contains(s[i]));
        assert(is_successor(net, moves, n, s[i]));
        let j = choose|j: int|
            0 <= j < moves.len() && moves[j] >= 1 && #[trigger] in_frontier(net, n, moves[j] as nat, s[i]);
        lemma_successor_is_node(net, moves, n, s[i]);
        lemma_frontier_rises(net, n, moves[j] as nat, s[i]);
    }
}

/// Partial sums of the path counts of a node's successors only grow.
pub proof fn lemma_paths_through_grows(
    net: Seq<Staircase>,
    moves: Seq<usize>,
    n: Node,
    s: Seq<Node>,
    i: int,
    j: int,
)
    requires
        0 <= i <= j <= s.len(),
    ensures
        paths_through(net, moves, n, s, i) <= paths_through(net, moves, n, s, j),
    decreases j - i,
{
    if i < j {
        lemma_paths_through_grows(net, moves, n, s, i, j - 1);
    }
}

/// A node's level is `band * e + c` exactly when it is not the top of the
/// corridor, stands at rank `e` and has sublevel `c`.
pub proof fn lemma_level_at(net: Seq<Staircase>, m: Node, e: int, c: int)
    requires
        sound(net),
        is_node(net, m),
        0 <= e <= net[0].end,
        0 <= c < band(net),
    ensures
        level(net, m) == band(net) * e + c <==> (m != terminal_node(net) && m.step_rank == e && sublevel(
            net,
            m,
        ) == c),
        level(net, m) > band(net) * e + c <==> (m == terminal_node(net) || m.step_rank > e || (m.step_rank
            == e && sublevel(net, m) > c)),
{
    lemma_sublevel_range(net, m);
    assert(crate::network::stair_fault(net, m.staircase_id - 1) is None);
    lemma_band(band(net), m.step_rank as int, sublevel(net, m), e, c);
    lemma_band(band(net), e, c, m.step_rank as int, sublevel(net, m));
    lemma_band(band(net), e, c, net[0].end + 1, 0);
}

} // verus!
