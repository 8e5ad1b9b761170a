use vstd::prelude::*;
use crate::counting::{
    band, lemma_depth_bound, lemma_level_at, lemma_paths_through_grows, lemma_sublevel_range, lemma_successors_rise, level,
    paths, paths_through, sublevel, top_level,
};
use crate::network::{
    exits_within, first_fault, handoff_depth, hands_off, is_node, sound, stair, stair_fault, start_node, terminal_node,
    validate, Node, Staircase, StructuralError,
};
use crate::ranking::{
    choice, is_walk, lemma_choice_bounds, lemma_choice_unique, lemma_position, lemma_walk_unfold,
    rank_of, total_walks, unrank, walk_at,
};
use crate::successors::{lemma_successor_list, successor_list, successors_of};
use crate::topology::phase_at;

verus! {

/// Why a path table could not be built.
#[derive(Clone, Copy, Debug, PartialEq, Eq, Structural)]
pub enum BuildError {
    /// The staircases do not describe a network.
    Malformed(StructuralError),
    /// The number of walks from this node does not fit in 128 bits.
    Overflow(Node),
}

/// One row per staircase, one cell per rank of its span.
pub open spec fn shaped<T>(net: Seq<Staircase>, rows: Seq<Vec<T>>) -> bool {
    &&& rows.len() == net.len()
    &&& forall|i: int| 0 <= i < net.len() ==> (#[trigger] rows[i])@.len() == net[i].end - net[i].begin + 1
}

pub open spec fn cell<T>(net: Seq<Staircase>, rows: Seq<Vec<T>>, m: Node) -> T {
    rows[m.staircase_id - 1]@[m.step_rank - stair(net, m.staircase_id as int).begin]
}

/// The cells of `m` hold its successor list and its path count.
pub open spec fn filled(
    net: Seq<Staircase>,
    moves: Seq<usize>,
    succ: Seq<Vec<Vec<Node>>>,
    counts: Seq<Vec<u128>>,
    m: Node,
) -> bool {
    &&& cell(net, succ, m)@ == successor_list(net, moves, m)
    &&& cell(net, counts, m) as nat == paths(net, moves, m)
}

/// The successor lists and path counts of every node of a network, for one
/// set of allowed moves.
pub struct PathTable {
    net: Vec<Staircase>,
    moves: Vec<usize>,
    succ: Vec<Vec<Vec<Node>>>,
    counts: Vec<Vec<u128>>,
}

impl PathTable {
    pub closed spec fn network(&self) -> Seq<Staircase> {
        self.net@
    }

    pub closed spec fn allowed(&self) -> Seq<usize> {
        self.moves@
    }

    pub closed spec fn wf(&self) -> bool {
        &&& sound(self.net@)
        &&& self.net@.len() < usize::MAX
        &&& shaped(self.net@, self.succ@)
        &&& shaped(self.net@, self.counts@)
        &&& forall|m: Node| is_node(self.net@, m) ==> #[trigger] filled(self.net@, self.moves@, self.succ@, self.counts@, m)
    }

    /// A built table describes a sound network.
    pub proof fn lemma_wf(&self)
        requires
            self.wf(),
        ensures
            sound(self.network()),
            self.network().len() < usize::MAX,
    {
    }

    /// Builds the table: checks the network, derives every node's
    /// successors, then counts the walks from every node.
    pub fn build(net: Vec<Staircase>, moves: Vec<usize>) -> (r: Result<PathTable, BuildError>)
        requires
            net@.len() < usize::MAX,
            forall|i: int| 0 <= i < net@.len() ==> (#[trigger] net@[i]).end < usize::MAX,
        ensures
            match r {
                Ok(t) => t.wf() && sound(net@) && t.network() == net@ && t.allowed() == moves@,
                Err(BuildError::Malformed(e)) => !sound(net@) && first_fault(net@) == Some(e),
                Err(BuildError::Overflow(m)) => sound(net@) && is_node(net@, m) && paths(net@, moves@, m)
                    > u128::MAX,
            },
    {
        match validate(&net) {
            Err(e) => {
                return Err(BuildError::Malformed(e));
            },
            Ok(()) => {},
        }
        let succ = successors(&net, &moves);
        let counts = match count_walks(&net, &moves, &succ) {
            Err(m) => {
                return Err(BuildError::Overflow(m));
            },
            Ok(c) => c,
        };
        proof {
            assert forall|m: Node| is_node(net@, m) implies #[trigger] filled(net@, moves@, succ@, counts@, m) by {
                assert(cell(net@, succ@, m)@ == successor_list(net@, moves@, m));
                assert(cell(net@, counts@, m) as nat == paths(net@, moves@, m));
            }
        }
        Ok(PathTable { net, moves, succ, counts })
    }

    /// Number of walks from the bottom of the primary corridor to its top.
    pub fn total_path_count(&self) -> (r: u128)
        requires
            self.wf(),
        ensures
            r as nat == paths(self.network(), self.allowed(), start_node(self.network())),
    {
        proof {
            assert(stair_fault(self.net@, 0) is None);
            assert(is_node(self.net@, start_node(self.net@)));
            assert(filled(self.net@, self.moves@, self.succ@, self.counts@, start_node(self.net@)));
        }
        self.counts[0][0]
    }
}

impl PathTable {
    /// The walk of the given rank (counting from 1) in the canonical order; a
    /// rank past the number of walks selects the last walk.
    pub fn select(&self, rank: u128) -> (r: Vec<Node>)
        requires
            self.wf(),
            1 <= rank,
            total_walks(self.network(), self.allowed()) >= 1,
        ensures
            r@ == walk_at(self.network(), self.allowed(), rank as int),
    {
        let net = &self.net;
        let ghost moves = self.moves@;
        proof {
            assert(stair_fault(net@, 0) is None);
            assert(filled(net@, moves, self.succ@, self.counts@, start_node(net@)));
        }
        let lo = net[0].begin;
        let hi = net[0].end;
        let total = self.counts[0][0];
        let target = if rank < total {
            rank
        } else {
            total
        };
        let start = Node::new(1, lo);
        let mut node = start;
        let mut left = target;
        let mut path: Vec<Node> = Vec::new();
        path.push(start);
        while node.staircase_id != 1 || node.step_rank != hi
            invariant
                self.wf(),
                net == &self.net,
                moves == self.moves@,
                hi == net@[0].end,
                is_node(net@, node),
                1 <= left <= paths(net@, moves, node),
                path@.len() >= 1,
                path@.last() == node,
                path@.drop_last() + unrank(net@, moves, node, left as int) == walk_at(net@, moves, rank as int),
            decreases top_level(net@) - level(net@, node),
        {
            proof {
                assert(filled(net@, moves, self.succ@, self.counts@, node));
                assert(stair_fault(net@, node.staircase_id - 1) is None);
                lemma_successors_rise(net@, moves, node);
            }
            let list = &self.succ[node.staircase_id - 1][node.step_rank - net[node.staircase_id - 1].begin];
            let ghost s = list@;
            proof {
                lemma_choice_bounds(net@, moves, node, s, left as int);
            }
            let width = list.len();
            let mut acc: u128 = 0;
            let mut j: usize = 0;
            loop
                invariant
                    width == s.len(),
                    self.wf(),
                    net == &self.net,
                    moves == self.moves@,
                    s == list@,
                    s == successor_list(net@, moves, node),
                    1 <= left <= paths(net@, moves, node),
                    j <= choice(net@, moves, node, s, left as int, 0) < s.len(),
                    left <= paths_through(net@, moves, node, s, choice(net@, moves, node, s, left as int, 0) + 1),
                    acc as nat == paths_through(net@, moves, node, s, j as int),
                    acc < left,
                    forall|i: int|
                        0 <= i < s.len() ==> is_node(net@, #[trigger] s[i]) && level(net@, node)
                            < level(net@, s[i]) <= top_level(net@),
                    paths_through(net@, moves, node, s, s.len() as int) == paths(net@, moves, node),
                ensures
                    j == choice(net@, moves, node, s, left as int, 0),
                    acc as nat == paths_through(net@, moves, node, s, j as int),
                decreases s.len() - j,
            {
                let m = list[j];
                proof {
                    assert(filled(net@, moves, self.succ@, self.counts@, m));
                    lemma_paths_through_grows(net@, moves, node, s, j + 1, s.len() as int);
                }
                let c = self.counts[m.staircase_id - 1][m.step_rank - net[m.staircase_id - 1].begin];
                proof {
                    assert(paths_through(net@, moves, node, s, j + 1) == acc + c);
                }
                if left - acc <= c {
                    proof {
                        lemma_choice_unique(net@, moves, node, s, left as int, j as int);
                    }
                    break;
                }
                acc = acc + c;
                proof {
                    assert(j < choice(net@, moves, node, s, left as int, 0));
                }
                j = j + 1;
            }
            let next = list[j];
            proof {
                let p0 = path@;
                let tail = unrank(net@, moves, next, (left - acc) as int);
                assert(unrank(net@, moves, node, left as int) == seq![node] + tail);
                assert(p0.drop_last() + seq![node] =~= p0);
                assert(p0.push(next).drop_last() =~= p0);
                assert(p0.drop_last() + (seq![node] + tail) =~= p0 + tail);
                assert(seq![next] + tail.drop_first() =~= tail);
            }
            left = left - acc;
            node = next;
            path.push(next);
            proof {
                assert(path@.drop_last() + unrank(net@, moves, node, left as int) =~= walk_at(net@, moves, rank as int));
            }
        }
        proof {
            assert(node == terminal_node(net@));
            assert(path@.drop_last() + seq![node] =~= path@);
        }
        path
    }
}

impl PathTable {
    /// Whether `node` is a position of the table's network.
    fn holds(&self, node: Node) -> (r: bool)
        requires
            self.wf(),
        ensures
            r == is_node(self.network(), node),
    {
        node.staircase_id >= 1 && node.staircase_id <= self.net.len()
            && self.net[node.staircase_id - 1].begin <= node.step_rank
            && node.step_rank <= self.net[node.staircase_id - 1].end
    }

    /// The successors of a node in canonical order, or `None` for a position
    /// outside the network.
    pub fn successors(&self, node: Node) -> (r: Option<Vec<Node>>)
        requires
            self.wf(),
        ensures
            match r {
                Some(v) => is_node(self.network(), node) && v@ == successor_list(
                    self.network(),
                    self.allowed(),
                    node,
                ),
                None => !is_node(self.network(), node),
            },
    {
        if !self.holds(node) {
            return None;
        }
        proof {
            assert(filled(self.net@, self.moves@, self.succ@, self.counts@, node));
        }
        Some(self.succ[node.staircase_id - 1][node.step_rank - self.net[node.staircase_id - 1].begin].clone())
    }

    /// The number of walks from a node to the top of the primary corridor, or
    /// `None` for a position outside the network.
    pub fn walks_from(&self, node: Node) -> (r: Option<u128>)
        requires
            self.wf(),
        ensures
            match r {
                Some(c) => is_node(self.network(), node) && c as nat == paths(
                    self.network(),
                    self.allowed(),
                    node,
                ),
                None => !is_node(self.network(), node),
            },
    {
        if !self.holds(node) {
            return None;
        }
        proof {
            assert(filled(self.net@, self.moves@, self.succ@, self.counts@, node));
        }
        Some(self.counts[node.staircase_id - 1][node.step_rank - self.net[node.staircase_id - 1].begin])
    }
}

impl PathTable {
    /// The bottom of the primary corridor.
    pub fn start(&self) -> (r: Node)
        requires
            self.wf(),
        ensures
            r == start_node(self.network()),
    {
        Node::new(1, self.net[0].begin)
    }

    /// The top of the primary corridor.
    pub fn end(&self) -> (r: Node)
        requires
            self.wf(),
        ensures
            r == terminal_node(self.network()),
    {
        Node::new(1, self.net[0].end)
    }

    /// The staircases the table was built from.
    pub fn staircases(&self) -> (r: &Vec<Staircase>)
        ensures
            r@ == self.network(),
    {
        &self.net
    }

    /// The allowed moves the table was built with.
    pub fn allowed_moves(&self) -> (r: &Vec<usize>)
        ensures
            r@ == self.allowed(),
    {
        &self.moves
    }

    /// The rank of a walk from the bottom of the corridor in the canonical
    /// order, or `None` when the path is not such a walk.
    pub fn rank_of_walk(&self, path: &Vec<Node>) -> (r: Option<u128>)
        requires
            self.wf(),
        ensures
            match r {
                Some(k) => is_walk(self.network(), self.allowed(), start_node(self.network()), path@)
                    && k as int == rank_of(self.network(), self.allowed(), path@),
                None => !is_walk(self.network(), self.allowed(), start_node(self.network()), path@),
            },
    {
        let net = &self.net;
        let ghost moves = self.moves@;
        let ghost p = path@;
        let ghost start = start_node(net@);
        if path.len() == 0 {
            return None;
        }
        let first = self.start();
        if path[0] != first {
            return None;
        }
        let top = self.end();
        proof {
            assert(stair_fault(net@, 0) is None);
            assert(filled(net@, moves, self.succ@, self.counts@, start));
            assert(p.subrange(0, p.len() as int) =~= p);
        }
        let len = path.len();
        let mut acc: u128 = 0;
        let mut i: usize = 0;
        while i + 1 < len
            invariant
                self.wf(),
                net == &self.net,
                moves == self.moves@,
                p == path@,
                len == p.len(),
                start == start_node(net@),
                top == terminal_node(net@),
                i < len,
                is_node(net@, p[i as int]),
                is_walk(net@, moves, start, p) <==> is_walk(net@, moves, p[i as int], p.subrange(i as int, len as int)),
                is_walk(net@, moves, start, p) ==> rank_of(net@, moves, p) == acc + rank_of(
                    net@,
                    moves,
                    p.subrange(i as int, len as int),
                ),
                acc + paths(net@, moves, p[i as int]) <= paths(net@, moves, start),
            decreases len - i,
        {
            let node = path[i];
            let next = path[i + 1];
            let ghost q = p.subrange(i as int, len as int);
            proof {
                assert(q[0] == node && q[1] == next);
                assert(q.drop_first() =~= p.subrange(i + 1, len as int));
                lemma_walk_unfold(net@, moves, q);
            }
            if node == top {
                return None;
            }
            proof {
                assert(filled(net@, moves, self.succ@, self.counts@, node));
                assert(filled(net@, moves, self.succ@, self.counts@, start));
                assert(stair_fault(net@, node.staircase_id - 1) is None);
                lemma_successors_rise(net@, moves, node);
                lemma_successor_list(net@, moves, node);
            }
            let list = &self.succ[node.staircase_id - 1][node.step_rank - net[node.staircase_id - 1].begin];
            let ghost s = list@;
            let width = list.len();
            let mut before: u128 = 0;
            let mut j: usize = 0;
            while j < width && list[j] != next
                invariant
                    self.wf(),
                    net == &self.net,
                    moves == self.moves@,
                    s == list@,
                    width == s.len(),
                    s == successor_list(net@, moves, node),
                    node != terminal_node(net@),
                    j <= width,
                    forall|k: int| 0 <= k < j ==> s[k] != next,
                    before as nat == paths_through(net@, moves, node, s, j as int),
                    acc + paths(net@, moves, node) <= paths(net@, moves, start),
                    paths(net@, moves, start) <= u128::MAX,
                    forall|k: int|
                        0 <= k < s.len() ==> is_node(net@, #[trigger] s[k]) && level(net@, node) < level(
                            net@,
                            s[k],
                        ) <= top_level(net@),
                decreases width - j,
            {
                let m = list[j];
                proof {
                    assert(filled(net@, moves, self.succ@, self.counts@, m));
                    lemma_paths_through_grows(net@, moves, node, s, j + 1, s.len() as int);
                    assert(paths_through(net@, moves, node, s, s.len() as int) == paths(net@, moves, node));
                }
                before = before + self.counts[m.staircase_id - 1][m.step_rank - net[m.staircase_id - 1].begin];
                j = j + 1;
            }
            if j == width {
                proof {
                    assert(!s.contains(next));
                }
                return None;
            }
            proof {
                lemma_position(s, j as int);
                lemma_paths_through_grows(net@, moves, node, s, j + 1, s.len() as int);
                assert(paths_through(net@, moves, node, s, s.len() as int) == paths(net@, moves, node));
                assert(paths_through(net@, moves, node, s, j + 1) == before + paths(net@, moves, next));
                if is_walk(net@, moves, start, p) {
                    assert(rank_of(net@, moves, q) == before + rank_of(net@, moves, q.drop_first()));
                }
            }
            acc = acc + before;
            i = i + 1;
        }
        if path[i] != top {
            proof {
                let q = p.subrange(i as int, len as int);
                assert(q.last() == p[i as int]);
            }
            return None;
        }
        proof {
            let q = p.subrange(i as int, len as int);
            assert(q =~= seq![top]);
            assert(is_walk(net@, moves, top, q));
            assert(filled(net@, moves, self.succ@, self.counts@, top));
        }
        Some(acc + 1)
    }
}

/// Sums the path counts of `n`'s successors, which are all filled in.
fn sum_counts(
    net: &Vec<Staircase>,
    Ghost(moves): Ghost<Seq<usize>>,
    counts: &Vec<Vec<u128>>,
    n: Node,
    list: &Vec<Node>,
) -> (r: Option<u128>)
    requires
        sound(net@),
        net@.len() < usize::MAX,
        shaped(net@, counts@),
        is_node(net@, n),
        n != terminal_node(net@),
        list@ == successor_list(net@, moves, n),
        forall|i: int|
            0 <= i < list@.len() ==> cell(net@, counts@, #[trigger] list@[i]) as nat == paths(
                net@,
                moves,
                list@[i],
            ),
    ensures
        r matches Some(v) ==> v as nat == paths(net@, moves, n),
        r is None ==> paths(net@, moves, n) > u128::MAX,
{
    proof {
        lemma_successors_rise(net@, moves, n);
    }
    let mut acc: u128 = 0;
    let mut j: usize = 0;
    while j < list.len()
        invariant
            sound(net@),
            shaped(net@, counts@),
            j <= list@.len(),
            list@ == successor_list(net@, moves, n),
            acc as nat == paths_through(net@, moves, n, list@, j as int),
            forall|i: int|
                0 <= i < list@.len() ==> is_node(net@, #[trigger] list@[i]) && level(net@, n)
                    < level(net@, list@[i]) <= top_level(net@),
            forall|i: int|
                0 <= i < list@.len() ==> cell(net@, counts@, #[trigger] list@[i]) as nat == paths(
                    net@,
                    moves,
                    list@[i],
                ),
        decreases list.len() - j,
    {
        let m = list[j];
        proof {
            assert(is_node(net@, m));
        }
        let c = counts[m.staircase_id - 1][m.step_rank - net[m.staircase_id - 1].begin];
        if acc > u128::MAX - c {
            proof {
                lemma_paths_through_grows(net@, moves, n, list@, j + 1, list@.len() as int);
            }
            return None;
        }
        acc = acc + c;
        j = j + 1;
    }
    Some(acc)
}

/// The cell of every node holds its successor list.
pub open spec fn lists_successors(net: Seq<Staircase>, moves: Seq<usize>, succ: Seq<Vec<Vec<Node>>>) -> bool {
    &&& shaped(net, succ)
    &&& forall|m: Node| is_node(net, m) ==> (#[trigger] cell(net, succ, m))@ == successor_list(net, moves, m)
}

/// The cell of every node holds the number of walks from it.
pub open spec fn counts_paths(net: Seq<Staircase>, moves: Seq<usize>, counts: Seq<Vec<u128>>) -> bool {
    &&& shaped(net, counts)
    &&& forall|m: Node| is_node(net, m) ==> (#[trigger] cell(net, counts, m)) as nat == paths(net, moves, m)
}

/// Every node above level `lv` has its count in its cell.
pub open spec fn counted_above(net: Seq<Staircase>, moves: Seq<usize>, counts: Seq<Vec<u128>>, lv: int) -> bool {
    forall|m: Node|
        is_node(net, m) && level(net, m) > lv ==> (#[trigger] cell(net, counts, m)) as nat == paths(net, moves, m)
}

/// The successor list of every node, one row per staircase and one cell per
/// rank of its span.
pub fn successors(staircases: &Vec<Staircase>, allowed_moves: &Vec<usize>) -> (r: Vec<Vec<Vec<Node>>>)
    requires
        sound(staircases@),
        staircases@.len() < usize::MAX,
        forall|i: int| 0 <= i < staircases@.len() ==> (#[trigger] staircases@[i]).end < usize::MAX,
    ensures
        lists_successors(staircases@, allowed_moves@, r@),
{
    let net = staircases;
    let n = net.len();
    let mut table: Vec<Vec<Vec<Node>>> = Vec::new();
    let mut i: usize = 0;
    while i < n
        invariant
            sound(net@),
            net@.len() < usize::MAX,
            n == net@.len(),
            forall|k: int| 0 <= k < net@.len() ==> (#[trigger] net@[k]).end < usize::MAX,
            i <= n,
            table@.len() == i,
            forall|k: int| 0 <= k < i ==> (#[trigger] table@[k])@.len() == net@[k].end - net@[k].begin + 1,
            forall|k: int, j: int|
                0 <= k < i && 0 <= j < table@[k]@.len() ==> (#[trigger] table@[k]@[j])@ == successor_list(
                    net@,
                    allowed_moves@,
                    Node { staircase_id: (k + 1) as usize, step_rank: (net@[k].begin + j) as usize },
                ),
        decreases n - i,
    {
        proof {
            assert(stair_fault(net@, i as int) is None);
        }
        let begin = net[i].begin;
        let width = net[i].end - begin + 1;
        let mut row: Vec<Vec<Node>> = Vec::new();
        while row.len() < width
            invariant
                sound(net@),
                net@.len() < usize::MAX,
                i < net@.len(),
                begin == net@[i as int].begin,
                width == net@[i as int].end - begin + 1,
                net@[i as int].end < usize::MAX,
                row@.len() <= width,
                forall|j: int|
                    0 <= j < row@.len() ==> (#[trigger] row@[j])@ == successor_list(
                        net@,
                        allowed_moves@,
                        Node { staircase_id: (i + 1) as usize, step_rank: (begin + j) as usize },
                    ),
            decreases width - row.len(),
        {
            let node = Node::new(i + 1, begin + row.len());
            let list = successors_of(net, allowed_moves, node);
            row.push(list);
        }
        table.push(row);
        i = i + 1;
    }
    proof {
        assert forall|m: Node| is_node(net@, m) implies (#[trigger] cell(net@, table@, m))@ == successor_list(
            net@,
            allowed_moves@,
            m,
        ) by {
            let k = m.staircase_id - 1;
            let j = m.step_rank - net@[k].begin;
            assert(Node { staircase_id: (k + 1) as usize, step_rank: (net@[k].begin + j) as usize } == m);
        }
    }
    table
}

/// The number of walks from every node, or a node whose count does not fit
/// in 128 bits.
pub fn allowed_starting_paths(staircases: &Vec<Staircase>, allowed_moves: &Vec<usize>) -> (r: Result<Vec<Vec<u128>>, Node>)
    requires
        sound(staircases@),
        staircases@.len() < usize::MAX,
        forall|i: int| 0 <= i < staircases@.len() ==> (#[trigger] staircases@[i]).end < usize::MAX,
    ensures
        r matches Ok(c) ==> counts_paths(staircases@, allowed_moves@, c@),
        r matches Err(m) ==> is_node(staircases@, m) && paths(staircases@, allowed_moves@, m) > u128::MAX,
{
    let succ = successors(staircases, allowed_moves);
    count_walks(staircases, allowed_moves, &succ)
}

/// Counts the walks from every node, from the top level down, each node
/// summing the counts of its successors. A node's level is three times its
/// rank plus its phase, so this is the reverse of the visiting order of
/// `nodes_to_explore`, up to the order of ids within one phase.
fn count_walks(net: &Vec<Staircase>, moves: &Vec<usize>, succ: &Vec<Vec<Vec<Node>>>) -> (r: Result<Vec<Vec<u128>>, Node>)
    requires
        sound(net@),
        net@.len() < usize::MAX,
        forall|i: int| 0 <= i < net@.len() ==> (#[trigger] net@[i]).end < usize::MAX,
        lists_successors(net@, moves@, succ@),
    ensures
        r matches Ok(c) ==> counts_paths(net@, moves@, c@),
        r matches Err(m) ==> is_node(net@, m) && paths(net@, moves@, m) > u128::MAX,
{
    let n = net.len();
    let mut counts: Vec<Vec<u128>> = Vec::new();
    let mut i: usize = 0;
    while i < n
        invariant
            sound(net@),
            n == net@.len(),
            forall|i: int| 0 <= i < net@.len() ==> (#[trigger] net@[i]).end < usize::MAX,
            i <= n,
            counts@.len() == i,
            forall|k: int| 0 <= k < i ==> (#[trigger] counts@[k])@.len() == net@[k].end - net@[k].begin + 1,
        decreases n - i,
    {
        proof {
            assert(stair_fault(net@, i as int) is None);
        }
        let width = net[i].end - net[i].begin + 1;
        let mut row: Vec<u128> = Vec::new();
        while row.len() < width
            invariant
                row@.len() <= width,
            decreases width - row.len(),
        {
            row.push(0);
        }
        counts.push(row);
        i = i + 1;
    }
    let lo = net[0].begin;
    let hi = net[0].end;
    proof {
        assert(stair_fault(net@, 0) is None);
    }
    let depths = handoff_depths(net);
    counts[0].set(hi - lo, 1);
    let levels: u128 = n as u128 + 3;
    proof {
        assert(band(net@) * (hi + 1) == band(net@) * hi + band(net@)) by (nonlinear_arith);
        assert forall|m: Node|
            is_node(net@, m) && level(net@, m) > band(net@) * hi + band(net@) - 1 implies (#[trigger] cell(
                net@,
                counts@,
                m,
            )) as nat == paths(net@, moves@, m) by {
            assert(stair_fault(net@, m.staircase_id - 1) is None);
            lemma_level_at(net@, m, hi as int, band(net@) - 1);
            assert(m == terminal_node(net@));
        }
    }
    let mut e = hi;
    loop
        invariant
            sound(net@),
            net@.len() < usize::MAX,
            n == net@.len(),
            levels == band(net@),
            lo == net@[0].begin,
            hi == net@[0].end,
            lo <= e <= hi,
            depths@.len() == n,
            forall|i: int| 0 <= i < n ==> (#[trigger] depths@[i]) as nat == handoff_depth(net@, i + 1, n as nat),
            lists_successors(net@, moves@, succ@),
            shaped(net@, counts@),
            counted_above(net@, moves@, counts@, band(net@) * e + band(net@) - 1),
        ensures
            shaped(net@, counts@),
            counted_above(net@, moves@, counts@, band(net@) * lo - 1),
        decreases e,
    {
        let mut c: u128 = levels;
        while c > 0
            invariant
                sound(net@),
                net@.len() < usize::MAX,
                n == net@.len(),
                levels == band(net@),
                lo == net@[0].begin,
                hi == net@[0].end,
                lo <= e <= hi,
                c <= levels,
                depths@.len() == n,
                forall|i: int| 0 <= i < n ==> (#[trigger] depths@[i]) as nat == handoff_depth(net@, i + 1, n as nat),
                lists_successors(net@, moves@, succ@),
                shaped(net@, counts@),
                counted_above(net@, moves@, counts@, band(net@) * e + c - 1),
            decreases c,
        {
            c = c - 1;
            match fill_level(net, moves, succ, &depths, &mut counts, e, c) {
                Err(m) => {
                    return Err(m);
                },
                Ok(()) => {},
            }
        }
        if e == lo {
            break;
        }
        proof {
            assert(band(net@) * e == band(net@) * (e - 1) + band(net@)) by (nonlinear_arith);
        }
        e = e - 1;
    }
    proof {
        assert forall|m: Node| is_node(net@, m) implies (#[trigger] cell(net@, counts@, m)) as nat == paths(
            net@,
            moves@,
            m,
        ) by {
            assert(stair_fault(net@, m.staircase_id - 1) is None);
            lemma_sublevel_range(net@, m);
            lemma_level_at(net@, m, lo as int, 0);
            assert(level(net@, m) > band(net@) * lo - 1);
        }
    }
    Ok(counts)
}

/// The hand-off depth of every staircase's end, by index.
fn handoff_depths(net: &Vec<Staircase>) -> (r: Vec<usize>)
    requires
        sound(net@),
    ensures
        r@.len() == net@.len(),
        forall|i: int| 0 <= i < net@.len() ==> (#[trigger] r@[i]) as nat == handoff_depth(net@, i + 1, net@.len()),
{
    let n = net.len();
    let mut r: Vec<usize> = Vec::new();
    while r.len() < n
        invariant
            sound(net@),
            n == net@.len(),
            r@.len() <= n,
            forall|i: int| 0 <= i < r@.len() ==> (#[trigger] r@[i]) as nat == handoff_depth(net@, i + 1, n as nat),
        decreases n - r.len(),
    {
        let id = r.len() + 1;
        proof {
            assert(stair_fault(net@, id - 1) is None);
        }
        let mut cur = id;
        let mut fuel = n;
        let mut count: usize = 0;
        loop
            invariant
                n == net@.len(),
                1 <= cur <= n,
                count + fuel == n,
                exits_within(net@, cur as int, fuel as nat),
                handoff_depth(net@, id as int, n as nat) == count + handoff_depth(net@, cur as int, fuel as nat),
            ensures
                handoff_depth(net@, id as int, n as nat) == count,
                count <= n,
            decreases fuel,
        {
            match hands_off(net, cur) {
                None => {
                    break;
                },
                Some(t) => {
                    cur = t;
                    fuel = fuel - 1;
                    count = count + 1;
                },
            }
        }
        r.push(count);
    }
    r
}

/// Counts the walks from every node of level `band * e + c`, given the
/// counts of all higher levels; returns a node whose count does not fit, if
/// one is met.
fn fill_level(
    net: &Vec<Staircase>,
    moves: &Vec<usize>,
    succ: &Vec<Vec<Vec<Node>>>,
    depths: &Vec<usize>,
    counts: &mut Vec<Vec<u128>>,
    e: usize,
    c: u128,
) -> (r: Result<(), Node>)
    requires
        sound(net@),
        net@.len() < usize::MAX,
        net@[0].begin <= e <= net@[0].end,
        c < band(net@),
        depths@.len() == net@.len(),
        forall|i: int| 0 <= i < net@.len() ==> (#[trigger] depths@[i]) as nat == handoff_depth(net@, i + 1, net@.len()),
        lists_successors(net@, moves@, succ@),
        shaped(net@, old(counts)@),
        counted_above(net@, moves@, old(counts)@, band(net@) * e + c),
    ensures
        shaped(net@, final(counts)@),
        r is Ok ==> counted_above(net@, moves@, final(counts)@, band(net@) * e + c - 1),
        r matches Err(m) ==> is_node(net@, m) && paths(net@, moves@, m) > u128::MAX,
{
    let n = net.len();
    let mut id: usize = 1;
    while id <= n
        invariant
            sound(net@),
            net@.len() < usize::MAX,
            n == net@.len(),
            net@[0].begin <= e <= net@[0].end,
            c < band(net@),
            1 <= id <= n + 1,
            depths@.len() == n,
            forall|i: int| 0 <= i < n ==> (#[trigger] depths@[i]) as nat == handoff_depth(net@, i + 1, n as nat),
            lists_successors(net@, moves@, succ@),
            shaped(net@, counts@),
            counted_above(net@, moves@, counts@, band(net@) * e + c),
            forall|m: Node|
                is_node(net@, m) && level(net@, m) == band(net@) * e + c && m.staircase_id < id
                    ==> (#[trigger] cell(net@, counts@, m)) as nat == paths(net@, moves@, m),
        decreases n + 1 - id,
    {
        let s = net[id - 1];
        let ph = phase_at(&s, e);
        proof {
            lemma_depth_bound(net@, id as int, n as nat);
        }
        let sub: u128 = if ph == 0 {
            n as u128 - depths[id - 1] as u128
        } else if ph == 2 {
            n as u128 + 2
        } else {
            n as u128 + 1
        };
        let is_top = id == 1 && e == s.end;
        let ghost here = Node { staircase_id: id, step_rank: e };
        proof {
            if s.begin <= e && e <= s.end {
                assert(sub == sublevel(net@, here));
            }
        }
        if s.begin <= e && e <= s.end && sub == c && !is_top {
            let node = Node::new(id, e);
            proof {
                assert(stair_fault(net@, id - 1) is None);
                lemma_successors_rise(net@, moves@, node);
                assert(cell(net@, succ@, node)@ == successor_list(net@, moves@, node));
                lemma_level_at(net@, node, e as int, c as int);
            }
            let list = &succ[id - 1][e - s.begin];
            proof {
                assert forall|i: int| 0 <= i < list@.len() implies cell(net@, counts@, #[trigger] list@[i]) as nat
                    == paths(net@, moves@, list@[i]) by {
                    assert(cell(net@, counts@, list@[i]) as nat == paths(net@, moves@, list@[i]));
                }
            }
            match sum_counts(net, Ghost(moves@), counts, node, list) {
                None => {
                    return Err(node);
                },
                Some(v) => {
                    let ghost c0 = counts@;
                    let col = e - s.begin;
                    counts[id - 1].set(col, v);
                    proof {
                        assert forall|m: Node| is_node(net@, m) && m != node implies cell(net@, counts@, m) == cell(
                            net@,
                            c0,
                            m,
                        ) by {
                            assert(stair_fault(net@, m.staircase_id - 1) is None);
                        }
                        assert forall|m: Node|
                            is_node(net@, m) && level(net@, m) > band(net@) * e + c implies (#[trigger] cell(
                                net@,
                                counts@,
                                m,
                            )) as nat == paths(net@, moves@, m) by {
                            assert(cell(net@, c0, m) as nat == paths(net@, moves@, m));
                        }
                        assert forall|m: Node|
                            is_node(net@, m) && level(net@, m) == band(net@) * e + c && m.staircase_id < id + 1
                                implies (#[trigger] cell(net@, counts@, m)) as nat == paths(net@, moves@, m) by {
                            lemma_level_at(net@, m, e as int, c as int);
                            if m != node {
                                assert(cell(net@, c0, m) as nat == paths(net@, moves@, m));
                            }
                        }
                        assert forall|k: int| 0 <= k < net@.len() implies (#[trigger] counts@[k])@.len()
                            == net@[k].end - net@[k].begin + 1 by {
                            assert(c0[k]@.len() == net@[k].end - net@[k].begin + 1);
                        }
                    }
                },
            }
        } else {
            proof {
                assert forall|m: Node|
                    is_node(net@, m) && level(net@, m) == band(net@) * e + c && m.staircase_id < id + 1
                        implies (#[trigger] cell(net@, counts@, m)) as nat == paths(net@, moves@, m) by {
                    lemma_level_at(net@, m, e as int, c as int);
                    if m.staircase_id == id {
                        assert(stair_fault(net@, id - 1) is None);
                        assert(m == here);
                    }
                }
            }
        }
        id = id + 1;
    }
    proof {
        assert forall|m: Node|
            is_node(net@, m) && level(net@, m) > band(net@) * e + c - 1 implies (#[trigger] cell(net@, counts@, m)) as nat
            == paths(net@, moves@, m) by {
            if level(net@, m) == band(net@) * e + c {
            }
        }
    }
    Ok(())
}

} // verus!
