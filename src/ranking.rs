use vstd::prelude::*;
use vstd::set_lib::{lemma_int_range, lemma_map_size, set_int_range};
use crate::counting::{
    lemma_paths_through_grows, lemma_successors_rise, level, paths, paths_through, top_level,
};
use crate::network::{is_node, sound, start_node, terminal_node, Node, Staircase};
use crate::successors::{
    is_successor, lemma_successor_is_node, lemma_successor_list, node_lt, strictly_sorted,
    successor_list,
};

verus! {

/// From index `j` on, the first successor index `i` whose partial sum through
/// `s[0..=i]` reaches `r`; `s.len()` if there is none.
pub open spec fn choice(
    net: Seq<Staircase>,
    moves: Seq<usize>,
    n: Node,
    s: Seq<Node>,
    r: int,
    j: int,
) -> int
    decreases s.len() - j,
{
    if j >= s.len() || j < 0 {
        s.len() as int
    } else if paths_through(net, moves, n, s, j + 1) >= r {
        j
    } else {
        choice(net, moves, n, s, r, j + 1)
    }
}

/// The walk of rank `r` (counting from 1) among the walks from `n`: through
/// the successor whose block of ranks holds `r`, then on from there.
pub open spec fn unrank(net: Seq<Staircase>, moves: Seq<usize>, n: Node, r: int) -> Seq<Node>
    decreases top_level(net) - level(net, n),
{
    if n == terminal_node(net) {
        seq![n]
    } else {
        let s = successor_list(net, moves, n);
        let i = choice(net, moves, n, s, r, 0);
        if 0 <= i < s.len() && level(net, n) < level(net, s[i]) <= top_level(net) {
            seq![n] + unrank(net, moves, s[i], r - paths_through(net, moves, n, s, i))
        } else {
            seq![n]
        }
    }
}

/// A walk from `n`: it starts at `n`, each next node is a successor of the
/// one before, and it stops at the first visit of the top of the corridor.
pub open spec fn is_walk(net: Seq<Staircase>, moves: Seq<usize>, n: Node, p: Seq<Node>) -> bool {
    &&& p.len() >= 1
    &&& p[0] == n
    &&& p.last() == terminal_node(net)
    &&& forall|i: int|
        0 <= i < p.len() - 1 ==> #[trigger] p[i] != terminal_node(net) && is_successor(
            net,
            moves,
            p[i],
            p[i + 1],
        )
}

/// Index of `x` in `s`.
pub open spec fn position(s: Seq<Node>, x: Node) -> int {
    choose|i: int| 0 <= i < s.len() && s[i] == x
}

/// The rank of a walk: one more than the number of walks that leave its
/// first node through an earlier successor, plus the rank of the rest.
pub open spec fn rank_of(net: Seq<Staircase>, moves: Seq<usize>, p: Seq<Node>) -> int
    decreases p.len(),
{
    if p.len() <= 1 {
        1
    } else {
        let s = successor_list(net, moves, p[0]);
        paths_through(net, moves, p[0], s, position(s, p[1])) + rank_of(net, moves, p.drop_first())
    }
}

/// `p` comes before `q` in the canonical order: at the first place where
/// they part, `p` goes to the node that sorts first.
pub open spec fn walk_precedes(p: Seq<Node>, q: Seq<Node>) -> bool {
    exists|k: int|
        0 < k < p.len() && k < q.len() && p.take(k) == q.take(k) && node_lt(
            #[trigger] p[k],
            #[trigger] q[k],
        )
}

/// Number of walks from the bottom of the primary corridor.
pub open spec fn total_walks(net: Seq<Staircase>, moves: Seq<usize>) -> nat {
    paths(net, moves, start_node(net))
}

/// The walk that a request for `rank` selects: ranks past the last one are
/// read as the last one.
pub open spec fn walk_at(net: Seq<Staircase>, moves: Seq<usize>, rank: int) -> Seq<Node> {
    let total = total_walks(net, moves) as int;
    unrank(net, moves, start_node(net), if rank < total { rank } else { total })
}

proof fn lemma_choice(net: Seq<Staircase>, moves: Seq<usize>, n: Node, s: Seq<Node>, r: int, j: int)
    requires
        0 <= j <= s.len(),
        paths_through(net, moves, n, s, j) < r <= paths_through(net, moves, n, s, s.len() as int),
    ensures
        j <= choice(net, moves, n, s, r, j) < s.len(),
        paths_through(net, moves, n, s, choice(net, moves, n, s, r, j)) < r,
        r <= paths_through(net, moves, n, s, choice(net, moves, n, s, r, j) + 1),
    decreases s.len() - j,
{
    if j < s.len() && paths_through(net, moves, n, s, j + 1) < r {
        lemma_choice(net, moves, n, s, r, j + 1);
    }
}

/// For a rank within the count of a node, the block that holds it is among
/// the successors.
pub proof fn lemma_choice_bounds(net: Seq<Staircase>, moves: Seq<usize>, n: Node, s: Seq<Node>, r: int)
    requires
        n != terminal_node(net),
        s == successor_list(net, moves, n),
        1 <= r <= paths(net, moves, n),
    ensures
        paths_through(net, moves, n, s, s.len() as int) == paths(net, moves, n),
        0 <= choice(net, moves, n, s, r, 0) < s.len(),
        paths_through(net, moves, n, s, choice(net, moves, n, s, r, 0)) < r,
        r <= paths_through(net, moves, n, s, choice(net, moves, n, s, r, 0) + 1),
{
    lemma_choice(net, moves, n, s, r, 0);
}

/// The successor block that holds a rank is unique.
pub proof fn lemma_choice_unique(
    net: Seq<Staircase>,
    moves: Seq<usize>,
    n: Node,
    s: Seq<Node>,
    r: int,
    i: int,
)
    requires
        0 <= i < s.len(),
        paths_through(net, moves, n, s, i) < r <= paths_through(net, moves, n, s, i + 1),
    ensures
        choice(net, moves, n, s, r, 0) == i,
{
    lemma_paths_through_grows(net, moves, n, s, i + 1, s.len() as int);
    lemma_paths_through_grows(net, moves, n, s, 0, i);
    lemma_choice(net, moves, n, s, r, 0);
    let c = choice(net, moves, n, s, r, 0);
    if c < i {
        lemma_paths_through_grows(net, moves, n, s, c + 1, i);
    } else if c > i {
        lemma_paths_through_grows(net, moves, n, s, i + 1, c);
    }
}

pub proof fn lemma_position(s: Seq<Node>, i: int)
    requires
        strictly_sorted(s),
        0 <= i < s.len(),
    ensures
        position(s, s[i]) == i,
{
    let k = position(s, s[i]);
    if k < i {
        assert(node_lt(s[k], s[i]));
    } else if k > i {
        assert(node_lt(s[i], s[k]));
    }
}

/// A path of two or more nodes is a walk exactly when its first step is a
/// move from a node other than the top and the rest is a walk.
pub proof fn lemma_walk_unfold(net: Seq<Staircase>, moves: Seq<usize>, q: Seq<Node>)
    requires
        q.len() >= 2,
    ensures
        is_walk(net, moves, q[0], q) <==> (q[0] != terminal_node(net) && is_successor(net, moves, q[0], q[1])
            && is_walk(net, moves, q[1], q.drop_first())),
{
    let t = q.drop_first();
    if is_walk(net, moves, q[0], q) {
        assert(q[0] != terminal_node(net) && is_successor(net, moves, q[0], q[1]));
        assert forall|k: int| 0 <= k < t.len() - 1 implies #[trigger] t[k] != terminal_node(net)
            && is_successor(net, moves, t[k], t[k + 1]) by {
            assert(t[k] == q[k + 1] && t[k + 1] == q[k + 2]);
        }
    }
    if q[0] != terminal_node(net) && is_successor(net, moves, q[0], q[1]) && is_walk(net, moves, q[1], t) {
        assert forall|k: int| 0 <= k < q.len() - 1 implies #[trigger] q[k] != terminal_node(net)
            && is_successor(net, moves, q[k], q[k + 1]) by {
            if k > 0 {
                assert(t[k - 1] == q[k] && t[k] == q[k + 1]);
            }
        }
    }
}

/// The walk of each rank from 1 to the count is a walk, and has that rank.
pub proof fn lemma_unrank_is_walk(net: Seq<Staircase>, moves: Seq<usize>, n: Node, r: int)
    requires
        sound(net),
        net.len() < usize::MAX,
        is_node(net, n),
        1 <= r <= paths(net, moves, n),
    ensures
        is_walk(net, moves, n, unrank(net, moves, n, r)),
        rank_of(net, moves, unrank(net, moves, n, r)) == r,
    decreases top_level(net) - level(net, n),
{
    if n != terminal_node(net) {
        let s = successor_list(net, moves, n);
        lemma_successors_rise(net, moves, n);
        lemma_successor_list(net, moves, n);
        lemma_choice(net, moves, n, s, r, 0);
        let i = choice(net, moves, n, s, r, 0);
        let m = s[i];
        let r1 = r - paths_through(net, moves, n, s, i);
        lemma_unrank_is_walk(net, moves, m, r1);
        let tail = unrank(net, moves, m, r1);
        let p = unrank(net, moves, n, r);
        assert(p == seq![n] + tail);
        assert(p.drop_first() =~= tail);
        assert(s.contains(m));
        assert forall|k: int| 0 <= k < p.len() - 1 implies #[trigger] p[k] != terminal_node(net)
            && is_successor(net, moves, p[k], p[k + 1]) by {
            if k > 0 {
                assert(p[k] == tail[k - 1]);
                assert(p[k + 1] == tail[k]);
            }
        }
        lemma_position(s, i);
    }
}

/// Every walk has a rank between 1 and the count, and is the walk of that rank.
pub proof fn lemma_walk_is_unranked(net: Seq<Staircase>, moves: Seq<usize>, n: Node, p: Seq<Node>)
    requires
        sound(net),
        net.len() < usize::MAX,
        is_node(net, n),
        is_walk(net, moves, n, p),
    ensures
        1 <= rank_of(net, moves, p) <= paths(net, moves, n),
        unrank(net, moves, n, rank_of(net, moves, p)) == p,
    decreases p.len(),
{
    if n == terminal_node(net) {
        if p.len() > 1 {
            assert(p[0] != terminal_node(net));
        }
        assert(p =~= seq![n]);
    } else {
        assert(p.len() >= 2);
        let s = successor_list(net, moves, n);
        let m = p[1];
        assert(p[0] != terminal_node(net) && is_successor(net, moves, p[0], p[1]));
        lemma_successor_list(net, moves, n);
        lemma_successors_rise(net, moves, n);
        lemma_successor_is_node(net, moves, n, m);
        let tail = p.drop_first();
        assert forall|k: int| 0 <= k < tail.len() - 1 implies #[trigger] tail[k] != terminal_node(net)
            && is_successor(net, moves, tail[k], tail[k + 1]) by {
            assert(tail[k] == p[k + 1]);
            assert(tail[k + 1] == p[k + 2]);
        }
        assert(is_walk(net, moves, m, tail));
        lemma_walk_is_unranked(net, moves, m, tail);
        assert(s.contains(m));
        let i = choose|i: int| 0 <= i < s.len() && s[i] == m;
        lemma_position(s, i);
        let rk = rank_of(net, moves, p);
        assert(rk == paths_through(net, moves, n, s, i) + rank_of(net, moves, tail));
        lemma_paths_through_grows(net, moves, n, s, i + 1, s.len() as int);
        lemma_paths_through_grows(net, moves, n, s, 0, i);
        lemma_choice_unique(net, moves, n, s, rk, i);
        assert(unrank(net, moves, n, rk) == seq![n] + tail);
        assert(p =~= seq![n] + tail);
    }
}

/// The count of a node is the number of walks from it: ranks `1..=count`
/// and walks are in one-to-one correspondence through `unrank` and `rank_of`.
pub proof fn lemma_count_enumerates_walks(net: Seq<Staircase>, moves: Seq<usize>, n: Node)
    requires
        sound(net),
        net.len() < usize::MAX,
        is_node(net, n),
    ensures
        forall|r: int|
            1 <= r <= paths(net, moves, n) ==> is_walk(net, moves, n, #[trigger] unrank(net, moves, n, r))
                && rank_of(net, moves, unrank(net, moves, n, r)) == r,
        forall|p: Seq<Node>|
            #[trigger] is_walk(net, moves, n, p) ==> 1 <= rank_of(net, moves, p) <= paths(net, moves, n)
                && unrank(net, moves, n, rank_of(net, moves, p)) == p,
{
    assert forall|r: int| 1 <= r <= paths(net, moves, n) implies is_walk(
        net,
        moves,
        n,
        #[trigger] unrank(net, moves, n, r),
    ) && rank_of(net, moves, unrank(net, moves, n, r)) == r by {
        lemma_unrank_is_walk(net, moves, n, r);
    }
    assert forall|p: Seq<Node>| #[trigger] is_walk(net, moves, n, p) implies 1 <= rank_of(net, moves, p)
        <= paths(net, moves, n) && unrank(net, moves, n, rank_of(net, moves, p)) == p by {
        lemma_walk_is_unranked(net, moves, n, p);
    }
}

proof fn lemma_walk_tail(net: Seq<Staircase>, moves: Seq<usize>, n: Node, p: Seq<Node>)
    requires
        sound(net),
        net.len() < usize::MAX,
        is_node(net, n),
        n != terminal_node(net),
        is_walk(net, moves, n, p),
    ensures
        p.len() >= 2,
        is_node(net, p[1]),
        successor_list(net, moves, n).contains(p[1]),
        is_walk(net, moves, p[1], p.drop_first()),
        rank_of(net, moves, p) == paths_through(
            net,
            moves,
            n,
            successor_list(net, moves, n),
            position(successor_list(net, moves, n), p[1]),
        ) + rank_of(net, moves, p.drop_first()),
{
    assert(p.len() >= 2);
    assert(p[0] != terminal_node(net) && is_successor(net, moves, p[0], p[1]));
    lemma_successor_list(net, moves, n);
    lemma_successor_is_node(net, moves, n, p[1]);
    let tail = p.drop_first();
    assert forall|k: int| 0 <= k < tail.len() - 1 implies #[trigger] tail[k] != terminal_node(net)
        && is_successor(net, moves, tail[k], tail[k + 1]) by {
        assert(tail[k] == p[k + 1]);
        assert(tail[k + 1] == p[k + 2]);
    }
}

/// A walk of lower rank comes first in the canonical order.
proof fn lemma_rank_order(net: Seq<Staircase>, moves: Seq<usize>, n: Node, p: Seq<Node>, q: Seq<Node>)
    requires
        sound(net),
        net.len() < usize::MAX,
        is_node(net, n),
        is_walk(net, moves, n, p),
        is_walk(net, moves, n, q),
        rank_of(net, moves, p) < rank_of(net, moves, q),
    ensures
        walk_precedes(p, q),
    decreases p.len(),
{
    if n == terminal_node(net) {
        lemma_walk_is_unranked(net, moves, n, p);
        lemma_walk_is_unranked(net, moves, n, q);
    } else {
        let s = successor_list(net, moves, n);
        lemma_walk_tail(net, moves, n, p);
        lemma_walk_tail(net, moves, n, q);
        lemma_successor_list(net, moves, n);
        let i = position(s, p[1]);
        let j = position(s, q[1]);
        let pt = p.drop_first();
        let qt = q.drop_first();
        lemma_walk_is_unranked(net, moves, p[1], pt);
        lemma_walk_is_unranked(net, moves, q[1], qt);
        lemma_successors_rise(net, moves, n);
        if i == j {
            lemma_rank_order(net, moves, p[1], pt, qt);
            let k = choose|k: int|
                0 < k < pt.len() && k < qt.len() && pt.take(k) == qt.take(k) && node_lt(
                    #[trigger] pt[k],
                    #[trigger] qt[k],
                );
            assert(p.take(k + 1) =~= seq![n] + pt.take(k));
            assert(q.take(k + 1) =~= seq![n] + qt.take(k));
            assert(p[k + 1] == pt[k] && q[k + 1] == qt[k]);
        } else {
            if i > j {
                lemma_paths_through_grows(net, moves, n, s, j + 1, i);
            }
            assert(i < j);
            assert(node_lt(s[i], s[j]));
            assert(p.take(1) =~= q.take(1));
        }
    }
}

proof fn lemma_precedes_asymmetric(p: Seq<Node>, q: Seq<Node>)
    requires
        walk_precedes(p, q),
    ensures
        !walk_precedes(q, p),
        p != q,
{
    let k = choose|k: int|
        0 < k < p.len() && k < q.len() && p.take(k) == q.take(k) && node_lt(#[trigger] p[k], #[trigger] q[k]);
    if walk_precedes(q, p) {
        let l = choose|l: int|
            0 < l < q.len() && l < p.len() && q.take(l) == p.take(l) && node_lt(#[trigger] q[l], #[trigger] p[l]);
        if l < k {
            assert(p.take(k)[l] == q.take(k)[l]);
        } else if k < l {
            assert(p.take(l)[k] == q.take(l)[k]);
        }
    }
}

/// The rank of a walk is its place in the canonical order: one walk comes
/// before another exactly when its rank is lower.
pub proof fn lemma_rank_is_position(
    net: Seq<Staircase>,
    moves: Seq<usize>,
    n: Node,
    p: Seq<Node>,
    q: Seq<Node>,
)
    requires
        sound(net),
        net.len() < usize::MAX,
        is_node(net, n),
        is_walk(net, moves, n, p),
        is_walk(net, moves, n, q),
    ensures
        walk_precedes(p, q) <==> rank_of(net, moves, p) < rank_of(net, moves, q),
{
    if rank_of(net, moves, p) < rank_of(net, moves, q) {
        lemma_rank_order(net, moves, n, p, q);
    } else if rank_of(net, moves, q) < rank_of(net, moves, p) {
        lemma_rank_order(net, moves, n, q, p);
        lemma_precedes_asymmetric(q, p);
    } else {
        lemma_walk_is_unranked(net, moves, n, p);
        lemma_walk_is_unranked(net, moves, n, q);
        if walk_precedes(p, q) {
            lemma_precedes_asymmetric(p, q);
        }
    }
}

/// Rank 1 selects the first walk and the last rank the last walk of the
/// canonical order.
pub proof fn lemma_extreme_walks(net: Seq<Staircase>, moves: Seq<usize>, q: Seq<Node>)
    requires
        sound(net),
        net.len() < usize::MAX,
        is_walk(net, moves, start_node(net), q),
    ensures
        total_walks(net, moves) >= 1,
        q == walk_at(net, moves, 1) || walk_precedes(walk_at(net, moves, 1), q),
        q == walk_at(net, moves, total_walks(net, moves) as int) || walk_precedes(
            q,
            walk_at(net, moves, total_walks(net, moves) as int),
        ),
{
    let n = start_node(net);
    assert(crate::network::stair_fault(net, 0) is None);
    assert(is_node(net, n));
    lemma_walk_is_unranked(net, moves, n, q);
    let total = total_walks(net, moves) as int;
    let first = walk_at(net, moves, 1);
    let last = walk_at(net, moves, total);
    assert(first == unrank(net, moves, n, 1));
    assert(last == unrank(net, moves, n, total));
    lemma_unrank_is_walk(net, moves, n, 1);
    lemma_unrank_is_walk(net, moves, n, total);
    lemma_rank_is_position(net, moves, n, first, q);
    lemma_rank_is_position(net, moves, n, q, last);
}

/// Asking for a rank past the count gives the same walk as asking for the count.
pub proof fn lemma_select_clamps(net: Seq<Staircase>, moves: Seq<usize>, rank: int)
    requires
        rank > total_walks(net, moves),
    ensures
        walk_at(net, moves, rank) == walk_at(net, moves, total_walks(net, moves) as int),
{
}

/// Selecting twice with one rank from one table gives one walk: what is
/// selected depends on the network, the moves and the rank alone.
pub proof fn lemma_select_idempotent(
    net: Seq<Staircase>,
    moves: Seq<usize>,
    rank: int,
    first: Seq<Node>,
    second: Seq<Node>,
)
    requires
        first == walk_at(net, moves, rank),
        second == walk_at(net, moves, rank),
    ensures
        first == second,
{
}

/// The walk selected for a rank is the walk whose rank is that rank, read as
/// the count when it is past the count.
pub proof fn lemma_select_round_trip(net: Seq<Staircase>, moves: Seq<usize>, rank: int)
    requires
        sound(net),
        net.len() < usize::MAX,
        1 <= rank,
        total_walks(net, moves) >= 1,
    ensures
        is_walk(net, moves, start_node(net), walk_at(net, moves, rank)),
        rank_of(net, moves, walk_at(net, moves, rank)) == if rank < total_walks(net, moves) {
            rank
        } else {
            total_walks(net, moves) as int
        },
{
    assert(crate::network::stair_fault(net, 0) is None);
    let total = total_walks(net, moves) as int;
    lemma_unrank_is_walk(net, moves, start_node(net), if rank < total { rank } else { total });
}

/// The walks from `n` whose rank is at most `k`.
pub open spec fn walks_ranked_upto(net: Seq<Staircase>, moves: Seq<usize>, n: Node, k: int) -> Set<Seq<Node>> {
    Set::new(|p: Seq<Node>| is_walk(net, moves, n, p) && rank_of(net, moves, p) <= k)
}

/// The walks from `n`.
pub open spec fn walks(net: Seq<Staircase>, moves: Seq<usize>, n: Node) -> Set<Seq<Node>> {
    Set::new(|p: Seq<Node>| is_walk(net, moves, n, p))
}

/// There are exactly `k` walks of rank at most `k`, for `k` up to the count.
proof fn lemma_ranked_upto_size(net: Seq<Staircase>, moves: Seq<usize>, n: Node, k: int)
    requires
        sound(net),
        net.len() < usize::MAX,
        is_node(net, n),
        0 <= k <= paths(net, moves, n),
    ensures
        walks_ranked_upto(net, moves, n, k).finite(),
        walks_ranked_upto(net, moves, n, k).len() == k,
{
    let x = set_int_range(1, k + 1);
    let y = walks_ranked_upto(net, moves, n, k);
    let f = |r: int| unrank(net, moves, n, r);
    lemma_int_range(1, k + 1);
    assert forall|a: int, b: int| x.contains(a) && x.contains(b) && #[trigger] f(a) == #[trigger] f(b) implies a == b by {
        lemma_unrank_is_walk(net, moves, n, a);
        lemma_unrank_is_walk(net, moves, n, b);
    }
    assert forall|p: Seq<Node>| x.map(f).contains(p) <==> y.contains(p) by {
        if x.map(f).contains(p) {
            let r = choose|r: int| x.contains(r) && f(r) == p;
            lemma_unrank_is_walk(net, moves, n, r);
        }
        if y.contains(p) {
            lemma_walk_is_unranked(net, moves, n, p);
            let r = rank_of(net, moves, p);
            assert(x.contains(r) && f(r) == p);
        }
    }
    assert(x.map(f) =~= y);
    lemma_map_size(x, y, f);
}

/// The number of walks from a node is its count: the set of walks is finite
/// and has that many members.
pub proof fn lemma_walk_count(net: Seq<Staircase>, moves: Seq<usize>, n: Node)
    requires
        sound(net),
        net.len() < usize::MAX,
        is_node(net, n),
    ensures
        walks(net, moves, n).finite(),
        walks(net, moves, n).len() == paths(net, moves, n),
{
    let k = paths(net, moves, n) as int;
    lemma_ranked_upto_size(net, moves, n, k);
    assert forall|p: Seq<Node>| walks(net, moves, n).contains(p) <==> walks_ranked_upto(net, moves, n, k).contains(p) by {
        if is_walk(net, moves, n, p) {
            lemma_walk_is_unranked(net, moves, n, p);
        }
    }
    assert(walks(net, moves, n) =~= walks_ranked_upto(net, moves, n, k));
}

/// The walks from the bottom of the corridor that come before the walk
/// selected for `rank` in the canonical order number one less than the rank,
/// read as the count when it is past the count.
pub proof fn lemma_walks_before_selected(net: Seq<Staircase>, moves: Seq<usize>, rank: int)
    requires
        sound(net),
        net.len() < usize::MAX,
        1 <= rank,
        total_walks(net, moves) >= 1,
    ensures
        ({
            let p = walk_at(net, moves, rank);
            let before = Set::new(|q: Seq<Node>| is_walk(net, moves, start_node(net), q) && walk_precedes(q, p));
            &&& before.finite()
            &&& before.len() + 1 == if rank < total_walks(net, moves) {
                rank
            } else {
                total_walks(net, moves) as int
            }
        }),
{
    let n = start_node(net);
    assert(crate::network::stair_fault(net, 0) is None);
    let total = total_walks(net, moves) as int;
    let rk = if rank < total { rank } else { total };
    let p = walk_at(net, moves, rank);
    lemma_unrank_is_walk(net, moves, n, rk);
    let before = Set::new(|q: Seq<Node>| is_walk(net, moves, n, q) && walk_precedes(q, p));
    lemma_ranked_upto_size(net, moves, n, rk - 1);
    assert forall|q: Seq<Node>| before.contains(q) <==> walks_ranked_upto(net, moves, n, rk - 1).contains(q) by {
        if is_walk(net, moves, n, q) {
            lemma_rank_is_position(net, moves, n, q, p);
        }
    }
    assert(before =~= walks_ranked_upto(net, moves, n, rk - 1));
}

} // verus!
