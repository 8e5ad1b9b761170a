use vstd::prelude::*;

verus! {

/// One staircase of the network, addressed by its 1-based position in the list.
#[derive(Clone, Copy, Debug, PartialEq, Eq, Structural)]
pub struct Staircase {
    /// First step rank covered.
    pub begin: usize,
    /// Last step rank covered.
    pub end: usize,
    /// Staircase from which a walker may branch onto this one at `begin`.
    pub feeding: Option<usize>,
    /// Staircase onto which a walker at `end` is handed, at the same rank.
    pub returning: Option<usize>,
}

/// A position: a staircase id and a step rank on it.
#[derive(Clone, Copy, Debug, PartialEq, Eq, Structural, Hash)]
pub struct Node {
    pub staircase_id: usize,
    pub step_rank: usize,
}

/// Why a list of staircases does not describe a network.
#[derive(Clone, Copy, Debug, PartialEq, Eq, Structural)]
pub enum StructuralError {
    /// The staircase does not end strictly after it begins.
    EmptySpan { id: usize },
    /// The staircase reaches below or above the primary corridor.
    OutsideCorridor { id: usize },
    /// The staircase is fed from an id that names no staircase.
    UnknownFeeding { id: usize },
    /// The staircase returns into an id that names no staircase.
    UnknownReturning { id: usize },
    /// The staircase returns into a staircase that does not cover the
    /// hand-off rank.
    DetachedReturn { id: usize },
    /// The hand-offs from the staircase's end, each onto a staircase ending at
    /// that same rank, come round in a loop and never leave the rank.
    EndlessHandOff { id: usize },
    /// No staircase is without a feeding link.
    MissingStart,
    /// A staircase other than the first is without a feeding link, while the
    /// first has one.
    StartNotPrimary { id: usize },
    /// A second staircase is without a feeding link.
    SeveralStarts { id: usize },
}

impl Staircase {
    pub fn new(begin: usize, end: usize, feeding: Option<usize>, returning: Option<usize>) -> (r: Staircase)
        ensures
            r == (Staircase { begin, end, feeding, returning }),
    {
        Staircase { begin, end, feeding, returning }
    }
}

impl StructuralError {
    /// The staircase the fault is about, where there is one.
    pub fn staircase_id(&self) -> (r: Option<usize>)
        ensures
            r == match *self {
                StructuralError::EmptySpan { id } => Some(id),
                StructuralError::OutsideCorridor { id } => Some(id),
                StructuralError::UnknownFeeding { id } => Some(id),
                StructuralError::UnknownReturning { id } => Some(id),
                StructuralError::DetachedReturn { id } => Some(id),
                StructuralError::EndlessHandOff { id } => Some(id),
                StructuralError::MissingStart => None,
                StructuralError::StartNotPrimary { id } => Some(id),
                StructuralError::SeveralStarts { id } => Some(id),
            },
    {
        match *self {
            StructuralError::EmptySpan { id } => Some(id),
            StructuralError::OutsideCorridor { id } => Some(id),
            StructuralError::UnknownFeeding { id } => Some(id),
            StructuralError::UnknownReturning { id } => Some(id),
            StructuralError::DetachedReturn { id } => Some(id),
            StructuralError::EndlessHandOff { id } => Some(id),
            StructuralError::MissingStart => None,
            StructuralError::StartNotPrimary { id } => Some(id),
            StructuralError::SeveralStarts { id } => Some(id),
        }
    }
}

impl Node {
    pub fn new(staircase_id: usize, step_rank: usize) -> (r: Node)
        ensures
            r.staircase_id == staircase_id,
            r.step_rank == step_rank,
    {
        Node { staircase_id, step_rank }
    }
}

/// The staircase with the given 1-based id.
pub open spec fn stair(net: Seq<Staircase>, id: int) -> Staircase {
    net[id - 1]
}

pub open spec fn known_id(net: Seq<Staircase>, id: int) -> bool {
    1 <= id <= net.len()
}

/// A staircase id together with a rank inside that staircase's span.
pub open spec fn is_node(net: Seq<Staircase>, n: Node) -> bool {
    &&& known_id(net, n.staircase_id as int)
    &&& stair(net, n.staircase_id as int).begin <= n.step_rank
    &&& n.step_rank <= stair(net, n.staircase_id as int).end
}

/// Bottom of the primary corridor: where every walk starts.
pub open spec fn start_node(net: Seq<Staircase>) -> Node {
    Node { staircase_id: 1, step_rank: net[0].begin }
}

/// Top of the primary corridor: where every walk ends.
pub open spec fn terminal_node(net: Seq<Staircase>) -> Node {
    Node { staircase_id: 1, step_rank: net[0].end }
}

/// A return from staircase index `i` into id `r` lands on a node: staircase
/// `r` covers the hand-off rank.
pub open spec fn return_lands(net: Seq<Staircase>, i: int, r: int) -> bool {
    let s = net[i];
    let t = stair(net, r);
    t.begin <= s.end && s.end <= t.end
}

/// Where the end of staircase `id` hands the walker on to another last rank:
/// the return staircase, when it ends at that same rank and is not the
/// primary corridor (whose end is the top of the network).
pub open spec fn handoff(net: Seq<Staircase>, id: int) -> Option<int> {
    match stair(net, id).returning {
        Some(t) => if id != 1 && known_id(net, t as int) && t != 1 && stair(net, t as int).end == stair(
            net,
            id,
        ).end {
            Some(t as int)
        } else {
            None
        },
        None => None,
    }
}

/// Following hand-offs from staircase `id`, the walker leaves the rank
/// within `fuel` hand-offs.
pub open spec fn exits_within(net: Seq<Staircase>, id: int, fuel: nat) -> bool
    decreases fuel,
{
    match handoff(net, id) {
        None => true,
        Some(t) => fuel > 0 && exits_within(net, t, (fuel - 1) as nat),
    }
}

/// How many hand-offs follow one another from the end of staircase `id`.
pub open spec fn handoff_depth(net: Seq<Staircase>, id: int, fuel: nat) -> nat
    decreases fuel,
{
    match handoff(net, id) {
        None => 0,
        Some(t) => if fuel == 0 {
            0
        } else {
            1 + handoff_depth(net, t, (fuel - 1) as nat)
        },
    }
}

pub open spec fn bad_feeding(net: Seq<Staircase>, i: int) -> bool {
    match net[i].feeding {
        Some(f) => !known_id(net, f as int),
        None => false,
    }
}

pub open spec fn bad_returning(net: Seq<Staircase>, i: int) -> bool {
    match net[i].returning {
        Some(r) => !known_id(net, r as int),
        None => false,
    }
}

pub open spec fn detached_return(net: Seq<Staircase>, i: int) -> bool {
    match net[i].returning {
        Some(r) => !return_lands(net, i, r as int),
        None => false,
    }
}

/// The first fault of the staircase at index `i`, checked in a fixed order.
pub open spec fn stair_fault(net: Seq<Staircase>, i: int) -> Option<StructuralError> {
    let s = net[i];
    let id = (i + 1) as usize;
    if s.begin >= s.end {
        Some(StructuralError::EmptySpan { id })
    } else if s.begin < net[0].begin || s.end > net[0].end {
        Some(StructuralError::OutsideCorridor { id })
    } else if bad_feeding(net, i) {
        Some(StructuralError::UnknownFeeding { id })
    } else if bad_returning(net, i) {
        Some(StructuralError::UnknownReturning { id })
    } else if detached_return(net, i) {
        Some(StructuralError::DetachedReturn { id })
    } else if !exits_within(net, i + 1, net.len()) {
        Some(StructuralError::EndlessHandOff { id })
    } else {
        None
    }
}

/// Index of the first staircase at or after `i` without a feeding link.
pub open spec fn first_open(net: Seq<Staircase>, i: int) -> Option<int>
    decreases net.len() - i,
{
    if i >= net.len() || i < 0 {
        None
    } else if net[i].feeding is None {
        Some(i)
    } else {
        first_open(net, i + 1)
    }
}

/// The fault in the choice of the starting staircase, if any.
pub open spec fn start_fault(net: Seq<Staircase>) -> Option<StructuralError> {
    match first_open(net, 0) {
        None => Some(StructuralError::MissingStart),
        Some(k) => if k != 0 {
            Some(StructuralError::StartNotPrimary { id: (k + 1) as usize })
        } else {
            match first_open(net, 1) {
                Some(j) => Some(StructuralError::SeveralStarts { id: (j + 1) as usize }),
                None => None,
            }
        },
    }
}

/// The first fault met scanning the staircases from index `i`, then the start.
pub open spec fn first_fault_from(net: Seq<Staircase>, i: int) -> Option<StructuralError>
    decreases net.len() - i,
{
    if i >= net.len() || i < 0 {
        start_fault(net)
    } else if stair_fault(net, i) is Some {
        stair_fault(net, i)
    } else {
        first_fault_from(net, i + 1)
    }
}

pub open spec fn first_fault(net: Seq<Staircase>) -> Option<StructuralError> {
    first_fault_from(net, 0)
}

/// The list describes a network: every staircase is well formed and linked to
/// existing staircases, and the first one, the primary corridor, is the only
/// one without a feeding link.
pub open spec fn sound(net: Seq<Staircase>) -> bool {
    &&& net.len() >= 1
    &&& forall|i: int| 0 <= i < net.len() ==> (#[trigger] stair_fault(net, i)) is None
    &&& net[0].feeding is None
    &&& forall|i: int| 1 <= i < net.len() ==> (#[trigger] net[i].feeding) is Some
}

/// A returning link that names no staircase makes the list unsound, so
/// checking it reports a structural fault, whichever fault comes first.
pub proof fn lemma_unknown_return_rejected(net: Seq<Staircase>, i: int)
    requires
        0 <= i < net.len(),
        bad_returning(net, i),
    ensures
        !sound(net),
        first_fault(net) is Some,
{
    assert(stair_fault(net, i) is Some);
    lemma_first_fault_found(net, 0, i);
}

proof fn lemma_first_fault_found(net: Seq<Staircase>, j: int, i: int)
    requires
        0 <= j <= i < net.len(),
        stair_fault(net, i) is Some,
    ensures
        first_fault_from(net, j) is Some,
    decreases i - j,
{
    if stair_fault(net, j) is None {
        lemma_first_fault_found(net, j + 1, i);
    }
}

/// Index of the first staircase at or after `from` without a feeding link.
fn find_open(net: &Vec<Staircase>, from: usize) -> (r: Option<usize>)
    ensures
        match r {
            Some(k) => first_open(net@, from as int) == Some(k as int),
            None => first_open(net@, from as int) is None,
        },
        r is None ==> forall|j: int| from <= j < net@.len() ==> (#[trigger] net@[j].feeding) is Some,
        r matches Some(k) ==> from <= k < net@.len() && net@[k as int].feeding is None && forall|j: int|
            from <= j < k ==> (#[trigger] net@[j].feeding) is Some,
{
    let mut i = from;
    while i < net.len()
        invariant
            from <= i,
            first_open(net@, from as int) == first_open(net@, i as int),
            forall|j: int| from <= j < i ==> (#[trigger] net@[j].feeding) is Some,
        decreases net.len() - i,
    {
        if net[i].feeding.is_none() {
            return Some(i);
        }
        i = i + 1;
    }
    None
}

fn feeding_fault(net: &Vec<Staircase>, i: usize) -> (r: bool)
    requires
        i < net@.len(),
    ensures
        r == bad_feeding(net@, i as int),
{
    match net[i].feeding {
        Some(f) => f < 1 || f > net.len(),
        None => false,
    }
}

fn returning_fault(net: &Vec<Staircase>, i: usize) -> (r: bool)
    requires
        i < net@.len(),
    ensures
        r == bad_returning(net@, i as int),
{
    match net[i].returning {
        Some(r) => r < 1 || r > net.len(),
        None => false,
    }
}

fn detached_fault(net: &Vec<Staircase>, i: usize) -> (r: bool)
    requires
        i < net@.len(),
        !bad_returning(net@, i as int),
    ensures
        r == detached_return(net@, i as int),
{
    match net[i].returning {
        Some(r) => {
            let s = &net[i];
            let t = &net[r - 1];
            !(t.begin <= s.end && s.end <= t.end)
        },
        None => false,
    }
}

/// Where the end of staircase `id` hands off to another last rank.
pub fn hands_off(net: &Vec<Staircase>, id: usize) -> (r: Option<usize>)
    requires
        1 <= id <= net@.len(),
    ensures
        match r {
            Some(t) => handoff(net@, id as int) == Some(t as int),
            None => handoff(net@, id as int) is None,
        },
{
    let s = &net[id - 1];
    match s.returning {
        Some(t) => {
            if id != 1 && t >= 1 && t <= net.len() && t != 1 && net[t - 1].end == s.end {
                Some(t)
            } else {
                None
            }
        },
        None => None,
    }
}

/// Whether the hand-offs from the end of staircase `id` leave its rank within
/// as many hand-offs as there are staircases.
fn exits(net: &Vec<Staircase>, id: usize) -> (r: bool)
    requires
        1 <= id <= net@.len(),
    ensures
        r == exits_within(net@, id as int, net@.len()),
{
    let mut cur = id;
    let mut fuel = net.len();
    while fuel > 0
        invariant
            1 <= cur <= net@.len(),
            fuel <= net@.len(),
            exits_within(net@, id as int, net@.len()) == exits_within(net@, cur as int, fuel as nat),
        decreases fuel,
    {
        match hands_off(net, cur) {
            None => {
                return true;
            },
            Some(t) => {
                cur = t;
                fuel = fuel - 1;
            },
        }
    }
    hands_off(net, cur).is_none()
}

/// The first fault of the staircase at index `i`.
fn check_stair(net: &Vec<Staircase>, i: usize) -> (r: Option<StructuralError>)
    requires
        i < net@.len(),
        net@.len() < usize::MAX,
    ensures
        r == stair_fault(net@, i as int),
{
    let s = &net[i];
    let id = i + 1;
    if s.begin >= s.end {
        Some(StructuralError::EmptySpan { id })
    } else if s.begin < net[0].begin || s.end > net[0].end {
        Some(StructuralError::OutsideCorridor { id })
    } else if feeding_fault(net, i) {
        Some(StructuralError::UnknownFeeding { id })
    } else if returning_fault(net, i) {
        Some(StructuralError::UnknownReturning { id })
    } else if detached_fault(net, i) {
        Some(StructuralError::DetachedReturn { id })
    } else if !exits(net, id) {
        Some(StructuralError::EndlessHandOff { id })
    } else {
        None
    }
}

/// Checks that a list of staircases describes a network, reporting the first
/// fault met: staircases in order, then the choice of the starting staircase.
pub fn validate(net: &Vec<Staircase>) -> (r: Result<(), StructuralError>)
    requires
        net@.len() < usize::MAX,
    ensures
        match r {
            Ok(()) => sound(net@),
            Err(e) => !sound(net@) && first_fault(net@) == Some(e),
        },
{
    let mut i: usize = 0;
    while i < net.len()
        invariant
            i <= net@.len(),
            net@.len() < usize::MAX,
            first_fault(net@) == first_fault_from(net@, i as int),
            forall|j: int| 0 <= j < i ==> (#[trigger] stair_fault(net@, j)) is None,
        decreases net.len() - i,
    {
        match check_stair(net, i) {
            Some(e) => {
                return Err(e);
            },
            None => {},
        }
        i = i + 1;
    }
    match find_open(net, 0) {
        None => Err(StructuralError::MissingStart),
        Some(k) => {
            if k != 0 {
                Err(StructuralError::StartNotPrimary { id: k + 1 })
            } else {
                match find_open(net, 1) {
                    Some(j) => {
                        Err(StructuralError::SeveralStarts { id: j + 1 })
                    },
                    None => Ok(()),
                }
            }
        },
    }
}

} // verus!
