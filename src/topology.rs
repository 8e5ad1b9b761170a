use vstd::prelude::*;
use crate::network::{
    first_fault, is_node, known_id, sound, stair, stair_fault, validate, Node, Staircase, StructuralError,
};

verus! {

/// Where a node stands on its staircase: 0 at its last rank, 2 at its first,
/// 1 in between.
pub open spec fn phase(net: Seq<Staircase>, m: Node) -> int {
    let s = stair(net, m.staircase_id as int);
    if m.step_rank == s.end {
        0
    } else if m.step_rank == s.begin {
        2
    } else {
        1
    }
}

/// The visiting order: by rank; at one rank, staircases that end there,
/// then those that go on, then those that begin there; then by id.
pub open spec fn visits_before(net: Seq<Staircase>, a: Node, b: Node) -> bool {
    ||| a.step_rank < b.step_rank
    ||| (a.step_rank == b.step_rank && phase(net, a) < phase(net, b))
    ||| (a.step_rank == b.step_rank && phase(net, a) == phase(net, b) && a.staircase_id
        < b.staircase_id)
}

/// `m` is visited before the nodes of phase `c` at rank `e`.
pub open spec fn visited_by(net: Seq<Staircase>, m: Node, e: int, c: int) -> bool {
    m.step_rank < e || (m.step_rank == e && phase(net, m) < c)
}

/// The phase of rank `e` on staircase `s`: 0 at its end, 2 at its begin, 1
/// otherwise.
pub fn phase_at(s: &Staircase, e: usize) -> (r: usize)
    ensures
        r == (if e == s.end {
            0usize
        } else if e == s.begin {
            2usize
        } else {
            1usize
        }),
{
    if e == s.end {
        0
    } else if e == s.begin {
        2
    } else {
        1
    }
}

/// Appends, by id, the nodes of phase `c` at rank `e`.
fn push_phase(net: &Vec<Staircase>, out: &mut Vec<Node>, e: usize, c: usize)
    requires
        sound(net@),
        net@.len() < usize::MAX,
    ensures
        final(out)@.len() >= old(out)@.len(),
        final(out)@.subrange(0, old(out)@.len() as int) == old(out)@,
        forall|i: int, j: int|
            old(out)@.len() <= i < j < final(out)@.len() ==> (#[trigger] final(out)@[i]).staircase_id
                < (#[trigger] final(out)@[j]).staircase_id,
        forall|i: int|
            old(out)@.len() <= i < final(out)@.len() ==> is_node(net@, #[trigger] final(out)@[i])
                && final(out)@[i].step_rank == e && phase(net@, final(out)@[i]) == c,
        forall|m: Node|
            is_node(net@, m) && m.step_rank == e && phase(net@, m) == c ==> #[trigger] final(out)@.contains(m),
{
    let ghost o = out@;
    let n = net.len();
    let mut id: usize = 1;
    while id <= n
        invariant
            n == net@.len(),
            n < usize::MAX,
            1 <= id <= n + 1,
            out@.len() >= o.len(),
            out@.subrange(0, o.len() as int) == o,
            forall|i: int| o.len() <= i < out@.len() ==> (#[trigger] out@[i]).staircase_id < id,
            forall|i: int, j: int|
                o.len() <= i < j < out@.len() ==> (#[trigger] out@[i]).staircase_id
                    < (#[trigger] out@[j]).staircase_id,
            forall|i: int|
                o.len() <= i < out@.len() ==> is_node(net@, #[trigger] out@[i]) && out@[i].step_rank
                    == e && phase(net@, out@[i]) == c,
            forall|m: Node|
                is_node(net@, m) && m.step_rank == e && phase(net@, m) == c && m.staircase_id < id
                    ==> #[trigger] out@.contains(m),
        decreases n + 1 - id,
    {
        let s = net[id - 1];
        let ph = phase_at(&s, e);
        let ghost before = out@;
        if s.begin <= e && e <= s.end && ph == c {
            out.push(Node::new(id, e));
            proof {
                assert(out@.subrange(0, o.len() as int) =~= before.subrange(0, o.len() as int));
                assert forall|m: Node|
                    is_node(net@, m) && m.step_rank == e && phase(net@, m) == c && m.staircase_id < id + 1
                        implies #[trigger] out@.contains(m) by {
                    if m.staircase_id == id {
                        assert(out@[out@.len() - 1] == m);
                    } else {
                        assert(before.contains(m));
                        let k = choose|k: int| 0 <= k < before.len() && before[k] == m;
                        assert(out@[k] == m);
                    }
                }
            }
        } else {
            proof {
                assert forall|m: Node|
                    is_node(net@, m) && m.step_rank == e && phase(net@, m) == c && m.staircase_id < id + 1
                        implies #[trigger] out@.contains(m) by {
                    if m.staircase_id == id {
                        assert(m == Node { staircase_id: id, step_rank: e });
                    }
                }
            }
        }
        id = id + 1;
    }
}

/// Every node of the network once, in visiting order: by rank, and at each
/// rank the staircases that end there first and those that begin there last.
pub fn nodes_to_explore(staircases: &Vec<Staircase>) -> (r: Vec<Node>)
    requires
        sound(staircases@),
        staircases@.len() < usize::MAX,
        forall|i: int| 0 <= i < staircases@.len() ==> (#[trigger] staircases@[i]).end < usize::MAX,
    ensures
        forall|m: Node| r@.contains(m) <==> is_node(staircases@, m),
        forall|i: int, j: int| 0 <= i < j < r@.len() ==> visits_before(staircases@, #[trigger] r@[i], #[trigger] r@[j]),
{
    let net = staircases;
    proof {
        assert(stair_fault(net@, 0) is None);
    }
    let lo = net[0].begin;
    let hi = net[0].end;
    let mut out: Vec<Node> = Vec::new();
    let mut e = lo;
    proof {
        assert forall|m: Node| is_node(net@, m) implies !visited_by(net@, m, e as int, 0) by {
            assert(stair_fault(net@, m.staircase_id - 1) is None);
        }
    }
    while e <= hi
        invariant
            sound(net@),
            net@.len() < usize::MAX,
            hi == net@[0].end,
            hi < usize::MAX,
            lo <= e <= hi + 1,
            forall|m: Node| out@.contains(m) <==> (is_node(net@, m) && visited_by(net@, m, e as int, 0)),
            forall|i: int, j: int| 0 <= i < j < out@.len() ==> visits_before(net@, #[trigger] out@[i], #[trigger] out@[j]),
        decreases hi + 1 - e,
    {
        let mut c: usize = 0;
        while c < 3
            invariant
                sound(net@),
                net@.len() < usize::MAX,
                c <= 3,
                forall|m: Node| out@.contains(m) <==> (is_node(net@, m) && visited_by(net@, m, e as int, c as int)),
                forall|i: int, j: int| 0 <= i < j < out@.len() ==> visits_before(net@, #[trigger] out@[i], #[trigger] out@[j]),
            decreases 3 - c,
        {
            let ghost before = out@;
            push_phase(net, &mut out, e, c);
            proof {
                let k0 = before.len() as int;
                assert forall|i: int| 0 <= i < k0 implies #[trigger] out@[i] == before[i] by {
                    assert(out@.subrange(0, k0)[i] == out@[i]);
                }
                assert forall|i: int, j: int| 0 <= i < j < out@.len() implies visits_before(
                    net@,
                    #[trigger] out@[i],
                    #[trigger] out@[j],
                ) by {
                    if j < k0 {
                        assert(out@[i] == before[i] && out@[j] == before[j]);
                    } else if i < k0 {
                        assert(out@[i] == before[i]);
                        assert(before.contains(before[i]));
                    }
                }
                assert forall|m: Node| out@.contains(m) <==> (is_node(net@, m) && visited_by(
                    net@,
                    m,
                    e as int,
                    c + 1,
                )) by {
                    if out@.contains(m) {
                        let k = choose|k: int| 0 <= k < out@.len() && out@[k] == m;
                        if k < k0 {
                            assert(before[k] == m);
                            assert(before.contains(m));
                        }
                    }
                    if is_node(net@, m) && visited_by(net@, m, e as int, c + 1) {
                        if visited_by(net@, m, e as int, c as int) {
                            let k = choose|k: int| 0 <= k < before.len() && before[k] == m;
                            assert(out@[k] == m);
                        }
                    }
                }
            }
            c = c + 1;
        }
        proof {
            assert forall|m: Node| out@.contains(m) <==> (is_node(net@, m) && visited_by(net@, m, e + 1, 0)) by {
                if is_node(net@, m) {
                    assert(0 <= phase(net@, m) <= 2);
                }
            }
        }
        e = e + 1;
    }
    proof {
        assert forall|m: Node| out@.contains(m) <==> is_node(net@, m) by {
            if is_node(net@, m) {
                assert(stair_fault(net@, m.staircase_id - 1) is None);
            }
        }
    }
    out
}

/// Staircase `t` is fed by staircase `f` at rank `e`.
pub open spec fn fed_at(net: Seq<Staircase>, f: int, e: int, t: int) -> bool {
    &&& known_id(net, t)
    &&& stair(net, t).feeding == Some(f as usize)
    &&& stair(net, t).begin == e
}

/// For each rank of the primary corridor (from its first) and each feeding
/// staircase (from id 1), the ids of the staircases it feeds at that rank,
/// in increasing order.
pub fn feeding_branches(staircases: &Vec<Staircase>) -> (r: Vec<Vec<Vec<usize>>>)
    requires
        sound(staircases@),
        staircases@.len() < usize::MAX,
        forall|i: int| 0 <= i < staircases@.len() ==> (#[trigger] staircases@[i]).end < usize::MAX,
    ensures
        r@.len() == staircases@[0].end - staircases@[0].begin + 1,
        forall|k: int| 0 <= k < r@.len() ==> (#[trigger] r@[k])@.len() == staircases@.len(),
        forall|k: int, f: int, i: int, j: int|
            0 <= k < r@.len() && 0 <= f < staircases@.len() && 0 <= i < j < r@[k]@[f]@.len()
                ==> #[trigger] r@[k]@[f]@[i] < #[trigger] r@[k]@[f]@[j],
        forall|k: int, f: int, t: usize|
            0 <= k < r@.len() && 0 <= f < staircases@.len() ==> (#[trigger] r@[k]@[f]@.contains(t)
                <==> fed_at(staircases@, f + 1, staircases@[0].begin + k, t as int)),
{
    let net = staircases;
    let n = net.len();
    proof {
        assert(stair_fault(net@, 0) is None);
    }
    let lo = net[0].begin;
    let width = net[0].end - lo + 1;
    let mut r: Vec<Vec<Vec<usize>>> = Vec::new();
    while r.len() < width
        invariant
            r@.len() <= width,
            forall|k: int| 0 <= k < r@.len() ==> (#[trigger] r@[k])@.len() == n,
            forall|k: int, f: int| 0 <= k < r@.len() && 0 <= f < n ==> (#[trigger] r@[k]@[f])@.len() == 0,
        decreases width - r.len(),
    {
        let mut row: Vec<Vec<usize>> = Vec::new();
        while row.len() < n
            invariant
                row@.len() <= n,
                forall|f: int| 0 <= f < row@.len() ==> (#[trigger] row@[f])@.len() == 0,
            decreases n - row.len(),
        {
            row.push(Vec::new());
        }
        r.push(row);
    }
    let mut t: usize = 1;
    while t <= n
        invariant
            sound(net@),
            n == net@.len(),
            n < usize::MAX,
            lo == net@[0].begin,
            width == net@[0].end - lo + 1,
            1 <= t <= n + 1,
            r@.len() == width,
            forall|k: int| 0 <= k < r@.len() ==> (#[trigger] r@[k])@.len() == n,
            forall|k: int, f: int, i: int|
                0 <= k < r@.len() && 0 <= f < n && 0 <= i < r@[k]@[f]@.len() ==> #[trigger] r@[k]@[f]@[i] < t,
            forall|k: int, f: int, i: int, j: int|
                0 <= k < r@.len() && 0 <= f < n && 0 <= i < j < r@[k]@[f]@.len()
                    ==> #[trigger] r@[k]@[f]@[i] < #[trigger] r@[k]@[f]@[j],
            forall|k: int, f: int, x: usize|
                0 <= k < r@.len() && 0 <= f < n ==> (#[trigger] r@[k]@[f]@.contains(x) <==> (x < t
                    && fed_at(net@, f + 1, lo + k, x as int))),
        decreases n + 1 - t,
    {
        proof {
            assert(stair_fault(net@, t - 1) is None);
        }
        let s = net[t - 1];
        let ghost r0 = r@;
        match s.feeding {
            Some(f) => {
                let k = s.begin - lo;
                r[k][f - 1].push(t);
                proof {
                    assert forall|k2: int, f2: int| 0 <= k2 < r@.len() && 0 <= f2 < n && !(k2 == k && f2 == f - 1)
                        implies #[trigger] r@[k2]@[f2] == r0[k2]@[f2] by {
                    }
                    assert(r@[k as int]@[f - 1]@ == r0[k as int]@[f - 1]@.push(t));
                    assert forall|k2: int| 0 <= k2 < r@.len() implies (#[trigger] r@[k2])@.len() == n by {
                        assert(r0[k2]@.len() == n);
                    }
                    assert forall|k2: int, f2: int, i: int|
                        0 <= k2 < r@.len() && 0 <= f2 < n && 0 <= i < r@[k2]@[f2]@.len()
                            implies #[trigger] r@[k2]@[f2]@[i] < t + 1 by {
                        if k2 == k && f2 == f - 1 {
                            if i < r0[k2]@[f2]@.len() {
                                assert(r@[k2]@[f2]@[i] == r0[k2]@[f2]@[i]);
                            }
                        } else {
                            assert(r@[k2]@[f2]@[i] == r0[k2]@[f2]@[i]);
                        }
                    }
                    assert forall|k2: int, f2: int, i: int, j: int|
                        0 <= k2 < r@.len() && 0 <= f2 < n && 0 <= i < j < r@[k2]@[f2]@.len()
                            implies #[trigger] r@[k2]@[f2]@[i] < #[trigger] r@[k2]@[f2]@[j] by {
                        if k2 == k && f2 == f - 1 {
                            assert(r@[k2]@[f2]@[i] == r0[k2]@[f2]@[i]);
                            if j < r0[k2]@[f2]@.len() {
                                assert(r@[k2]@[f2]@[j] == r0[k2]@[f2]@[j]);
                            }
                        } else {
                            assert(r@[k2]@[f2]@[i] == r0[k2]@[f2]@[i]);
                            assert(r@[k2]@[f2]@[j] == r0[k2]@[f2]@[j]);
                        }
                    }
                    assert forall|k2: int, f2: int, x: usize|
                        0 <= k2 < r@.len() && 0 <= f2 < n implies (#[trigger] r@[k2]@[f2]@.contains(x) <==> (x < t + 1
                            && fed_at(net@, f2 + 1, lo + k2, x as int))) by {
                        let old_list = r0[k2]@[f2]@;
                        let new_list = r@[k2]@[f2]@;
                        if k2 == k && f2 == f - 1 {
                            if new_list.contains(x) {
                                let i = choose|i: int| 0 <= i < new_list.len() && new_list[i] == x;
                                if i < old_list.len() {
                                    assert(old_list[i] == x);
                                    assert(old_list.contains(x));
                                }
                            }
                            if x < t && fed_at(net@, f2 + 1, lo + k2, x as int) {
                                assert(old_list.contains(x));
                                let i = choose|i: int| 0 <= i < old_list.len() && old_list[i] == x;
                                assert(new_list[i] == x);
                            }
                            if x == t {
                                assert(new_list[old_list.len() as int] == x);
                            }
                        } else {
                            assert(new_list == old_list);
                            if x == t {
                                assert(!fed_at(net@, f2 + 1, lo + k2, x as int));
                            }
                        }
                    }
                }
            },
            None => {
                proof {
                    assert forall|k2: int, f2: int, x: usize|
                        0 <= k2 < r@.len() && 0 <= f2 < n implies (#[trigger] r@[k2]@[f2]@.contains(x) <==> (x < t + 1
                            && fed_at(net@, f2 + 1, lo + k2, x as int))) by {
                        if x == t {
                            assert(!fed_at(net@, f2 + 1, lo + k2, x as int));
                        }
                    }
                }
            },
        }
        t = t + 1;
    }
    r
}

/// Checks the staircases, then lists every node once in visiting order; the
/// first structural fault met is returned instead where there is one.
pub fn visiting_order(staircases: &Vec<Staircase>) -> (r: Result<Vec<Node>, StructuralError>)
    requires
        staircases@.len() < usize::MAX,
        forall|i: int| 0 <= i < staircases@.len() ==> (#[trigger] staircases@[i]).end < usize::MAX,
    ensures
        match r {
            Ok(order) => sound(staircases@) && (forall|m: Node| order@.contains(m) <==> is_node(staircases@, m))
                && (forall|i: int, j: int|
                0 <= i < j < order@.len() ==> visits_before(staircases@, #[trigger] order@[i], #[trigger] order@[j])),
            Err(e) => !sound(staircases@) && first_fault(staircases@) == Some(e),
        },
{
    validate(staircases)?;
    Ok(nodes_to_explore(staircases))
}

} // verus!
