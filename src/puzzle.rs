use vstd::prelude::*;
use crate::corridor::{compositions, path_count};
use crate::network::{sound, Staircase};
use crate::ranking::{total_walks, walk_at};
use crate::table::{BuildError, PathTable};
use crate::text::{decimal, digits_end, expect, is_digit, number_at, read_number, render, render_path, text_at};
use vstd::string::StringSliceAdditionalSpecFns;

verus! {

/// The rank of the walk that the third question asks for.
pub const TARGET_PATH_RANK: u128 = 100000000000000000000000000000;

/// A network and its allowed moves, as read from the puzzle text.
pub struct Data {
    pub staircases: Vec<Staircase>,
    pub allowed_moves: Vec<usize>,
}

impl Data {
    pub fn new(staircases: Vec<Staircase>, allowed_moves: Vec<usize>) -> (r: Data)
        ensures
            r.staircases@ == staircases@,
            r.allowed_moves@ == allowed_moves@,
    {
        Data { staircases, allowed_moves }
    }
}

pub open spec fn colon_text() -> Seq<u8> {
    seq![32u8, 58u8, 32u8]
}

pub open spec fn arrow_text() -> Seq<u8> {
    seq![32u8, 45u8, 62u8, 32u8]
}

pub open spec fn from_text() -> Seq<u8> {
    seq![32u8, 58u8, 32u8, 70u8, 82u8, 79u8, 77u8, 32u8]
}

pub open spec fn to_text() -> Seq<u8> {
    seq![32u8, 84u8, 79u8, 32u8]
}

pub open spec fn start_text() -> Seq<u8> {
    seq![83u8, 84u8, 65u8, 82u8, 84u8]
}

pub open spec fn end_text() -> Seq<u8> {
    seq![69u8, 78u8, 68u8]
}

pub open spec fn moves_header_text() -> Seq<u8> {
    seq![
        80u8, 111u8, 115u8, 115u8, 105u8, 98u8, 108u8, 101u8, 32u8, 77u8, 111u8, 118u8, 101u8,
        115u8, 32u8, 58u8, 32u8,
    ]
}

pub open spec fn comma_text() -> Seq<u8> {
    seq![44u8, 32u8]
}

/// A link: `S<id>`, or the given word where there is none.
pub open spec fn link_text(l: Option<usize>, none_word: Seq<u8>) -> Seq<u8> {
    match l {
        Some(i) => seq![83u8] + decimal(i as nat),
        None => none_word,
    }
}

/// The line of staircase `id`: `S<id> : <begin> -> <end> : FROM <link> TO <link>`.
pub open spec fn stair_text(id: nat, s: Staircase) -> Seq<u8> {
    seq![83u8] + (decimal(id) + colon_text()) + (decimal(s.begin as nat) + arrow_text()) + (decimal(
        s.end as nat,
    ) + from_text()) + link_text(s.feeding, start_text()) + to_text() + link_text(
        s.returning,
        end_text(),
    ) + seq![10u8]
}

pub open spec fn stairs_text(net: Seq<Staircase>) -> Seq<u8>
    decreases net.len(),
{
    if net.len() == 0 {
        Seq::empty()
    } else {
        stairs_text(net.drop_last()) + stair_text(net.len(), net.last())
    }
}

/// The allowed moves, joined by `, `.
pub open spec fn moves_text(m: Seq<usize>) -> Seq<u8>
    decreases m.len(),
{
    if m.len() == 0 {
        Seq::empty()
    } else if m.len() == 1 {
        decimal(m[0] as nat)
    } else {
        moves_text(m.drop_last()) + comma_text() + decimal(m.last() as nat)
    }
}

/// The puzzle text of a network and its moves: one line per staircase, a
/// blank line, then the moves.
pub open spec fn input_text(net: Seq<Staircase>, moves: Seq<usize>) -> Seq<u8> {
    stairs_text(net) + seq![10u8] + moves_header_text() + moves_text(moves)
}

proof fn lemma_split(b: Seq<u8>, p: int, m: int, q: int)
    requires
        0 <= p <= m <= q <= b.len(),
    ensures
        b.subrange(p, q) == b.subrange(p, m) + b.subrange(m, q),
{
    assert(b.subrange(p, q) =~= b.subrange(p, m) + b.subrange(m, q));
}

proof fn lemma_text_split(b: Seq<u8>, p: int, x: Seq<u8>, y: Seq<u8>)
    requires
        text_at(b, p, x + y),
    ensures
        text_at(b, p, x),
        text_at(b, p + x.len(), y),
{
    assert(b.subrange(p, p + x.len()) =~= (x + y).subrange(0, x.len() as int));
    assert(b.subrange(p + x.len(), p + x.len() + y.len()) =~= (x + y).subrange(x.len() as int, (x + y).len() as int));
    assert((x + y).subrange(0, x.len() as int) =~= x);
    assert((x + y).subrange(x.len() as int, (x + y).len() as int) =~= y);
}

/// Reads a link: `S<id>`, or `none_word` for no link.
fn read_link(b: &[u8], p: usize, none_word: &Vec<u8>) -> (r: Option<(Option<usize>, usize)>)
    requires
        p <= b@.len(),
        none_word@.len() >= 2,
        !is_digit(none_word@[1]),
    ensures
        r matches Some((l, q)) ==> p <= q <= b@.len() && b@.subrange(p as int, q as int) == link_text(
            l,
            none_word@,
        ),
        forall|l: Option<usize>|
            #[trigger] text_at(b@, p as int, link_text(l, none_word@)) && digits_end(
                b@,
                p + link_text(l, none_word@).len(),
            ) ==> r == Some((l, (p + link_text(l, none_word@).len()) as usize)),
{
    proof {
        assert forall|i: usize|
            #[trigger] text_at(b@, p as int, link_text(Some(i), none_word@)) implies b@[p as int] == 83
            && text_at(b@, p + 1, decimal(i as nat)) by {
            lemma_text_split(b@, p as int, seq![83u8], decimal(i as nat));
            assert(b@.subrange(p as int, p + 1)[0] == b@[p as int]);
        }
        if text_at(b@, p as int, link_text(None, none_word@)) {
            assert(b@.subrange(p as int, p + none_word@.len())[1] == b@[p + 1]);
        }
    }
    if p < b.len() && b[p] == 83 {
        let got = read_number(b, p + 1);
        if let Some((v, q)) = got {
            proof {
                lemma_split(b@, p as int, p + 1, q as int);
                assert(b@.subrange(p as int, p + 1) =~= seq![83u8]);
                assert forall|l: Option<usize>|
                    #[trigger] text_at(b@, p as int, link_text(l, none_word@)) && digits_end(
                        b@,
                        p + link_text(l, none_word@).len(),
                    ) implies got == Some((l->Some_0, (p + link_text(l, none_word@).len()) as usize)) && l is Some by {
                    match l {
                        Some(i) => {
                            assert(number_at(b@, p + 1, i as nat));
                        },
                        None => {
                            assert(!is_digit(b@[p + 1]));
                        },
                    }
                }
            }
            return Some((Some(v), q));
        }
        proof {
            assert forall|i: usize| !(#[trigger] text_at(b@, p as int, link_text(Some(i), none_word@)) && digits_end(
                b@,
                p + link_text(Some(i), none_word@).len(),
            )) by {
                if text_at(b@, p as int, link_text(Some(i), none_word@)) && digits_end(
                    b@,
                    p + link_text(Some(i), none_word@).len(),
                ) {
                    assert(number_at(b@, p + 1, i as nat));
                }
            }
        }
    }
    match expect(b, p, none_word) {
        Some(q) => Some((None, q)),
        None => None,
    }
}

/// Reads a number at `p`, then the literal `lit` after it.
fn read_number_then(b: &[u8], p: usize, lit: &Vec<u8>) -> (r: Option<(usize, usize)>)
    requires
        p <= b@.len(),
        lit@.len() >= 1,
        !is_digit(lit@[0]),
    ensures
        r matches Some((v, q)) ==> p <= q <= b@.len() && b@.subrange(p as int, q as int) == decimal(
            v as nat,
        ) + lit@,
        forall|v: usize|
            #[trigger] text_at(b@, p as int, decimal(v as nat) + lit@) ==> r == Some(
                (v, (p + decimal(v as nat).len() + lit@.len()) as usize),
            ),
{
    proof {
        assert forall|v: usize| #[trigger] text_at(b@, p as int, decimal(v as nat) + lit@) implies number_at(
            b@,
            p as int,
            v as nat,
        ) && text_at(b@, p + decimal(v as nat).len(), lit@) by {
            lemma_text_split(b@, p as int, decimal(v as nat), lit@);
            let m = p + decimal(v as nat).len();
            assert(b@.subrange(m, m + lit@.len())[0] == b@[m]);
        }
    }
    match read_number(b, p) {
        Some((v, m)) => match expect(b, m, lit) {
            Some(q) => {
                proof {
                    lemma_split(b@, p as int, m as int, q as int);
                }
                Some((v, q))
            },
            None => None,
        },
        None => None,
    }
}

/// The pieces of a staircase line, each at its place.
proof fn lemma_stair_pieces(b: Seq<u8>, p: int, id: nat, s: Staircase)
    requires
        text_at(b, p, stair_text(id, s)),
    ensures
        ({
            let x2 = decimal(id) + colon_text();
            let x3 = decimal(s.begin as nat) + arrow_text();
            let x4 = decimal(s.end as nat) + from_text();
            let x5 = link_text(s.feeding, start_text());
            let x7 = link_text(s.returning, end_text());
            let q1 = p + 1;
            let q2 = q1 + x2.len();
            let q3 = q2 + x3.len();
            let q4 = q3 + x4.len();
            let q5 = q4 + x5.len();
            let q6 = q5 + to_text().len();
            let q7 = q6 + x7.len();
            &&& text_at(b, p, seq![83u8])
            &&& text_at(b, q1, x2)
            &&& text_at(b, q2, x3)
            &&& text_at(b, q3, x4)
            &&& text_at(b, q4, x5)
            &&& text_at(b, q5, to_text())
            &&& text_at(b, q6, x7)
            &&& text_at(b, q7, seq![10u8])
            &&& q7 + 1 == p + stair_text(id, s).len()
            &&& digits_end(b, q5)
            &&& digits_end(b, q7)
        }),
{
    let x1 = seq![83u8];
    let x2 = decimal(id) + colon_text();
    let x3 = decimal(s.begin as nat) + arrow_text();
    let x4 = decimal(s.end as nat) + from_text();
    let x5 = link_text(s.feeding, start_text());
    let x6 = to_text();
    let x7 = link_text(s.returning, end_text());
    let x8 = seq![10u8];
    let y2 = x1 + x2;
    let y3 = y2 + x3;
    let y4 = y3 + x4;
    let y5 = y4 + x5;
    let y6 = y5 + x6;
    let y7 = y6 + x7;
    assert(stair_text(id, s) == y7 + x8);
    lemma_text_split(b, p, y7, x8);
    lemma_text_split(b, p, y6, x7);
    lemma_text_split(b, p, y5, x6);
    lemma_text_split(b, p, y4, x5);
    lemma_text_split(b, p, y3, x4);
    lemma_text_split(b, p, y2, x3);
    lemma_text_split(b, p, x1, x2);
    let q5 = p + y5.len();
    let q7 = p + y7.len();
    assert(b.subrange(q5, q5 + x6.len())[0] == b[q5]);
    assert(b.subrange(q7, q7 + 1)[0] == b[q7]);
}

/// Reads the line of staircase `id` at `p`.
#[verifier::spinoff_prover]
#[verifier::rlimit(60)]
fn read_stair(b: &[u8], p: usize, id: usize) -> (r: Option<(Staircase, usize)>)
    requires
        p <= b@.len(),
    ensures
        r matches Some((s, q)) ==> p <= q <= b@.len() && b@.subrange(p as int, q as int) == stair_text(
            id as nat,
            s,
        ),
        forall|s: Staircase|
            #[trigger] text_at(b@, p as int, stair_text(id as nat, s)) ==> r == Some(
                (s, (p + stair_text(id as nat, s).len()) as usize),
            ),
{
    let s_lit: Vec<u8> = vec![83];
    let colon: Vec<u8> = vec![32, 58, 32];
    let arrow: Vec<u8> = vec![32, 45, 62, 32];
    let from: Vec<u8> = vec![32, 58, 32, 70, 82, 79, 77, 32];
    let to: Vec<u8> = vec![32, 84, 79, 32];
    let start: Vec<u8> = vec![83, 84, 65, 82, 84];
    let end_word: Vec<u8> = vec![69, 78, 68];
    let newline: Vec<u8> = vec![10];
    proof {
        assert(s_lit@ =~= seq![83u8]);
        assert(colon@ =~= colon_text());
        assert(arrow@ =~= arrow_text());
        assert(from@ =~= from_text());
        assert(to@ =~= to_text());
        assert(start@ =~= start_text());
        assert(end_word@ =~= end_text());
        assert(newline@ =~= seq![10u8]);
    }
    let p1 = match expect(b, p, &s_lit) {
        Some(q) => q,
        None => {
            proof {
                assert forall|s: Staircase| !text_at(b@, p as int, stair_text(id as nat, s)) by {
                    if text_at(b@, p as int, stair_text(id as nat, s)) {
                        lemma_stair_pieces(b@, p as int, id as nat, s);
                    }
                }
            }
            return None;
        },
    };
    let (found, p2) = match read_number_then(b, p1, &colon) {
        Some(x) => x,
        None => {
            proof {
                assert forall|s: Staircase| !text_at(b@, p as int, stair_text(id as nat, s)) by {
                    if text_at(b@, p as int, stair_text(id as nat, s)) {
                        lemma_stair_pieces(b@, p as int, id as nat, s);
                    }
                }
            }
            return None;
        },
    };
    if found != id {
        proof {
            assert forall|s: Staircase| !text_at(b@, p as int, stair_text(id as nat, s)) by {
                if text_at(b@, p as int, stair_text(id as nat, s)) {
                    lemma_stair_pieces(b@, p as int, id as nat, s);
                }
            }
        }
        return None;
    }
    let (begin, p3) = match read_number_then(b, p2, &arrow) {
        Some(x) => x,
        None => {
            proof {
                assert forall|s: Staircase| !text_at(b@, p as int, stair_text(id as nat, s)) by {
                    if text_at(b@, p as int, stair_text(id as nat, s)) {
                        lemma_stair_pieces(b@, p as int, id as nat, s);
                    }
                }
            }
            return None;
        },
    };
    let (end, p4) = match read_number_then(b, p3, &from) {
        Some(x) => x,
        None => {
            proof {
                assert forall|s: Staircase| !text_at(b@, p as int, stair_text(id as nat, s)) by {
                    if text_at(b@, p as int, stair_text(id as nat, s)) {
                        lemma_stair_pieces(b@, p as int, id as nat, s);
                    }
                }
            }
            return None;
        },
    };
    let (feeding, p5) = match read_link(b, p4, &start) {
        Some(x) => x,
        None => {
            proof {
                assert forall|s: Staircase| !text_at(b@, p as int, stair_text(id as nat, s)) by {
                    if text_at(b@, p as int, stair_text(id as nat, s)) {
                        lemma_stair_pieces(b@, p as int, id as nat, s);
                    }
                }
            }
            return None;
        },
    };
    let p6 = match expect(b, p5, &to) {
        Some(q) => q,
        None => {
            proof {
                assert forall|s: Staircase| !text_at(b@, p as int, stair_text(id as nat, s)) by {
                    if text_at(b@, p as int, stair_text(id as nat, s)) {
                        lemma_stair_pieces(b@, p as int, id as nat, s);
                    }
                }
            }
            return None;
        },
    };
    let (returning, p7) = match read_link(b, p6, &end_word) {
        Some(x) => x,
        None => {
            proof {
                assert forall|s: Staircase| !text_at(b@, p as int, stair_text(id as nat, s)) by {
                    if text_at(b@, p as int, stair_text(id as nat, s)) {
                        lemma_stair_pieces(b@, p as int, id as nat, s);
                    }
                }
            }
            return None;
        },
    };
    let p8 = match expect(b, p7, &newline) {
        Some(q) => q,
        None => {
            proof {
                assert forall|s: Staircase| !text_at(b@, p as int, stair_text(id as nat, s)) by {
                    if text_at(b@, p as int, stair_text(id as nat, s)) {
                        lemma_stair_pieces(b@, p as int, id as nat, s);
                    }
                }
            }
            return None;
        },
    };
    let s = Staircase { begin, end, feeding, returning };
    proof {
        let bb = b@;
        lemma_split(bb, p as int, p1 as int, p2 as int);
        lemma_split(bb, p as int, p2 as int, p3 as int);
        lemma_split(bb, p as int, p3 as int, p4 as int);
        lemma_split(bb, p as int, p4 as int, p5 as int);
        lemma_split(bb, p as int, p5 as int, p6 as int);
        lemma_split(bb, p as int, p6 as int, p7 as int);
        lemma_split(bb, p as int, p7 as int, p8 as int);
        assert forall|t: Staircase| #[trigger] text_at(b@, p as int, stair_text(id as nat, t)) implies t == s
            && p8 == p + stair_text(id as nat, t).len() by {
            lemma_stair_pieces(b@, p as int, id as nat, t);
        }
    }
    Some((s, p8))
}

/// The text is the puzzle text of `net` and `moves`, with or without a
/// final newline.
pub open spec fn reads_as(b: Seq<u8>, net: Seq<Staircase>, moves: Seq<usize>) -> bool {
    b == input_text(net, moves) || b == input_text(net, moves).push(10u8)
}

proof fn lemma_stairs_prefix(net: Seq<Staircase>, k: int) -> (rest: Seq<u8>)
    requires
        0 <= k <= net.len(),
    ensures
        stairs_text(net) == stairs_text(net.take(k)) + rest,
    decreases net.len(),
{
    if k == net.len() {
        assert(net.take(k) =~= net);
        assert(stairs_text(net) =~= stairs_text(net.take(k)) + Seq::<u8>::empty());
        Seq::empty()
    } else {
        let dl = net.drop_last();
        assert(dl.take(k) =~= net.take(k));
        let r0 = lemma_stairs_prefix(dl, k);
        let last = stair_text(net.len(), net.last());
        assert(stairs_text(net) =~= stairs_text(net.take(k)) + (r0 + last));
        r0 + last
    }
}

proof fn lemma_stairs_step(net: Seq<Staircase>, k: int)
    requires
        0 <= k < net.len(),
    ensures
        stairs_text(net.take(k + 1)) == stairs_text(net.take(k)) + stair_text((k + 1) as nat, net[k]),
{
    assert(net.take(k + 1).drop_last() =~= net.take(k));
}

proof fn lemma_moves_prefix(m: Seq<usize>, k: int) -> (rest: Seq<u8>)
    requires
        0 <= k <= m.len(),
    ensures
        moves_text(m) == moves_text(m.take(k)) + rest,
        k < m.len() ==> rest.len() >= 1 && (k > 0 ==> rest[0] == 44u8) && (k == 0 ==> is_digit(rest[0])),
    decreases m.len(),
{
    if k == m.len() {
        assert(m.take(k) =~= m);
        assert(moves_text(m) =~= moves_text(m.take(k)) + Seq::<u8>::empty());
        Seq::empty()
    } else if k == m.len() - 1 {
        lemma_moves_step(m, k);
        assert(m.take(k + 1) =~= m);
        crate::text::lemma_decimal_shape(m[k] as nat);
        if k > 0 {
            let rest = comma_text() + decimal(m[k] as nat);
            assert(moves_text(m) =~= moves_text(m.take(k)) + rest);
            assert(rest[0] == 44u8);
            rest
        } else {
            let rest = decimal(m[k] as nat);
            assert(moves_text(m) =~= moves_text(m.take(k)) + rest);
            rest
        }
    } else {
        let dl = m.drop_last();
        assert(dl.take(k) =~= m.take(k));
        let r0 = lemma_moves_prefix(dl, k);
        let last = comma_text() + decimal(m.last() as nat);
        assert(moves_text(m) == moves_text(dl) + comma_text() + decimal(m.last() as nat));
        assert(moves_text(m) =~= moves_text(m.take(k)) + (r0 + last));
        assert((r0 + last)[0] == r0[0]);
        r0 + last
    }
}

proof fn lemma_moves_step(m: Seq<usize>, k: int)
    requires
        0 <= k < m.len(),
    ensures
        moves_text(m.take(k + 1)) == moves_text(m.take(k)) + (if k == 0 {
            Seq::<u8>::empty()
        } else {
            comma_text()
        }) + decimal(m[k] as nat),
{
    let t = m.take(k + 1);
    assert(t.drop_last() =~= m.take(k));
    if k == 0 {
        assert(moves_text(m.take(0)) =~= Seq::<u8>::empty());
        assert(moves_text(t) =~= Seq::<u8>::empty() + Seq::<u8>::empty() + decimal(m[0] as nat));
    }
}

/// In a puzzle text, after the lines of the first `k` staircases comes the
/// next line, or the blank line when all are read.
proof fn lemma_line_at(b: Seq<u8>, net: Seq<Staircase>, moves: Seq<usize>, k: int)
    requires
        reads_as(b, net, moves),
        0 <= k <= net.len(),
    ensures
        k < net.len() ==> text_at(b, stairs_text(net.take(k)).len() as int, stair_text((k + 1) as nat, net[k])),
        k == net.len() ==> stairs_text(net.take(k)).len() < b.len() && b[stairs_text(net.take(k)).len() as int] == 10u8,
{
    let whole = input_text(net, moves);
    assert(text_at(b, 0, whole)) by {
        assert(b.subrange(0, whole.len() as int) =~= whole);
    }
    let tail = seq![10u8] + moves_header_text() + moves_text(moves);
    assert(whole =~= stairs_text(net) + tail);
    if k < net.len() {
        let rest = lemma_stairs_prefix(net, k + 1);
        lemma_stairs_step(net, k);
        let front = stairs_text(net.take(k));
        let line = stair_text((k + 1) as nat, net[k]);
        assert(whole =~= front + line + (rest + tail));
        lemma_text_split(b, 0, front + line, rest + tail);
        lemma_text_split(b, 0, front, line);
    } else {
        assert(net.take(k) =~= net);
        lemma_text_split(b, 0, stairs_text(net), tail);
        let q = stairs_text(net).len() as int;
        assert(b.subrange(q, q + tail.len())[0] == b[q]);
    }
}

/// In a puzzle text, after the first `k` moves comes the next one, preceded
/// by a comma after the first, or the end of the text, or a final newline.
proof fn lemma_move_at(b: Seq<u8>, net: Seq<Staircase>, moves: Seq<usize>, k: int)
    requires
        reads_as(b, net, moves),
        0 <= k <= moves.len(),
    ensures
        ({
            let q = input_text(net, moves.take(k)).len() as int;
            let start = if k == 0 {
                q
            } else {
                q + 2
            };
            &&& k < moves.len() ==> q < b.len() && b[q] != 10u8 && (k > 0 ==> text_at(b, q, comma_text()))
                && number_at(b, start, moves[k] as nat)
            &&& k == moves.len() ==> q == b.len() || (q + 1 == b.len() && b[q] == 10u8)
        }),
{
    let whole = input_text(net, moves);
    let q = input_text(net, moves.take(k)).len() as int;
    assert(text_at(b, 0, whole)) by {
        assert(b.subrange(0, whole.len() as int) =~= whole);
    }
    let rest = lemma_moves_prefix(moves, k);
    assert(whole =~= input_text(net, moves.take(k)) + rest);
    lemma_text_split(b, 0, input_text(net, moves.take(k)), rest);
    if k < moves.len() {
        lemma_moves_step(moves, k);
        let sep = if k == 0 {
            Seq::<u8>::empty()
        } else {
            comma_text()
        };
        let after = lemma_moves_prefix(moves, k + 1);
        let dk = decimal(moves[k] as nat);
        assert(input_text(net, moves.take(k + 1)) =~= input_text(net, moves.take(k)) + sep + dk);
        assert(whole =~= input_text(net, moves.take(k)) + sep + dk + after);
        let full = input_text(net, moves.take(k)) + sep + dk;
        if b == whole {
            lemma_text_split(b, 0, full, after);
        } else {
            assert(b =~= full + (after.push(10u8)));
            assert(text_at(b, 0, full + after.push(10u8))) by {
                assert(b.subrange(0, b.len() as int) =~= b);
            }
            lemma_text_split(b, 0, full, after.push(10u8));
        }
        lemma_text_split(b, 0, input_text(net, moves.take(k)) + sep, dk);
        lemma_text_split(b, 0, input_text(net, moves.take(k)), sep);
        assert(b.subrange(q, q + rest.len())[0] == b[q]);
        crate::text::lemma_decimal_shape(moves[k] as nat);
        let e = full.len() as int;
        if e < b.len() {
            if k + 1 < moves.len() {
                assert(after[0] == 44u8);
                if b == whole {
                    assert(b.subrange(e, e + after.len())[0] == b[e]);
                } else {
                    assert(b.subrange(e, e + after.len() + 1)[0] == b[e]);
                    assert(after.push(10u8)[0] == after[0]);
                }
            } else {
                assert(moves.take(k + 1) =~= moves);
                assert(after.len() == 0);
                assert(b =~= whole.push(10u8));
            }
        }
    } else {
        assert(moves.take(k) =~= moves);
    }
}

/// Reads the puzzle text: one line per staircase, numbered from 1 in order,
/// a blank line, then the allowed moves; a final newline may follow. Any
/// other text gives `None`.
#[verifier::spinoff_prover]
#[verifier::rlimit(80)]
pub fn parse_input(input: &str) -> (r: Option<Data>)
    ensures
        r matches Some(d) ==> reads_as(input.spec_bytes(), d.staircases@, d.allowed_moves@),
        forall|net: Seq<Staircase>, moves: Seq<usize>|
            #[trigger] reads_as(input.spec_bytes(), net, moves) ==> (r matches Some(d) && d.staircases@ == net
                && d.allowed_moves@ == moves),
{
    let b = input.as_bytes();
    let len = b.len();
    let mut staircases: Vec<Staircase> = Vec::new();
    let mut p: usize = 0;
    proof {
        assert(b@.subrange(0, 0) =~= stairs_text(staircases@));
        assert forall|net: Seq<Staircase>, moves: Seq<usize>| #[trigger] reads_as(b@, net, moves) implies staircases@
            == net.take(0) by {
            assert(net.take(0) =~= staircases@);
        }
    }
    while p < len && b[p] != 10
        invariant
            len == b@.len(),
            b@ == input.spec_bytes(),
            p <= len,
            staircases@.len() <= p,
            b@.subrange(0, p as int) == stairs_text(staircases@),
            forall|net: Seq<Staircase>, moves: Seq<usize>|
                #[trigger] reads_as(b@, net, moves) ==> staircases@.len() <= net.len() && staircases@ == net.take(
                    staircases@.len() as int,
                ),
        decreases len - p,
    {
        let id = staircases.len() + 1;
        proof {
            assert forall|net: Seq<Staircase>, moves: Seq<usize>| #[trigger] reads_as(b@, net, moves) implies staircases@.len()
                < net.len() && text_at(b@, p as int, stair_text(id as nat, net[staircases@.len() as int])) by {
                let k = staircases@.len() as int;
                assert(stairs_text(net.take(k)).len() == p);
                lemma_line_at(b@, net, moves, k);
            }
        }
        match read_stair(b, p, id) {
            Some((s, q)) => {
                let ghost before = staircases@;
                staircases.push(s);
                proof {
                    lemma_split(b@, 0, p as int, q as int);
                    assert(staircases@.drop_last() =~= before);
                    assert(q > p) by {
                        assert(stair_text(id as nat, s).len() > 0);
                    }
                    assert forall|net: Seq<Staircase>, moves: Seq<usize>| #[trigger] reads_as(b@, net, moves) implies staircases@.len()
                        <= net.len() && staircases@ == net.take(staircases@.len() as int) by {
                        let k = before.len() as int;
                        assert(net.take(k + 1) =~= net.take(k).push(net[k]));
                    }
                }
                p = q;
            },
            None => {
                proof {
                    assert forall|net: Seq<Staircase>, moves: Seq<usize>| !reads_as(b@, net, moves) by {
                        if reads_as(b@, net, moves) {
                            assert(text_at(b@, p as int, stair_text(id as nat, net[staircases@.len() as int])));
                        }
                    }
                }
                return None;
            },
        }
    }
    proof {
        assert forall|net: Seq<Staircase>, moves: Seq<usize>| #[trigger] reads_as(b@, net, moves) implies staircases@
            == net by {
            let k = staircases@.len() as int;
            assert(stairs_text(net.take(k)).len() == p);
            lemma_line_at(b@, net, moves, k);
            if k < net.len() {
                lemma_stair_pieces(b@, p as int, (k + 1) as nat, net[k]);
                assert(b@.subrange(p as int, p + 1)[0] == b@[p as int]);
            }
            assert(net.take(k) =~= net);
        }
    }
    let header: Vec<u8> = vec![80, 111, 115, 115, 105, 98, 108, 101, 32, 77, 111, 118, 101, 115, 32, 58, 32];
    let blank: Vec<u8> = vec![10];
    let comma: Vec<u8> = vec![44, 32];
    proof {
        assert(header@ =~= moves_header_text());
        assert(blank@ =~= seq![10u8]);
        assert(comma@ =~= comma_text());
        assert forall|net: Seq<Staircase>, moves: Seq<usize>| #[trigger] reads_as(b@, net, moves) implies text_at(
            b@,
            p as int,
            seq![10u8] + moves_header_text(),
        ) by {
            let whole = input_text(net, moves);
            assert(text_at(b@, 0, whole)) by {
                assert(b@.subrange(0, whole.len() as int) =~= whole);
            }
            assert(whole =~= stairs_text(staircases@) + (seq![10u8] + moves_header_text()) + moves_text(moves));
            lemma_text_split(b@, 0, stairs_text(staircases@) + (seq![10u8] + moves_header_text()), moves_text(moves));
            lemma_text_split(b@, 0, stairs_text(staircases@), seq![10u8] + moves_header_text());
            lemma_text_split(b@, p as int, seq![10u8], moves_header_text());
        }
    }
    let p1 = match expect(b, p, &blank) {
        Some(q) => q,
        None => {
            proof {
                assert forall|net: Seq<Staircase>, moves: Seq<usize>| !reads_as(b@, net, moves) by {
                    if reads_as(b@, net, moves) {
                        lemma_text_split(b@, p as int, seq![10u8], moves_header_text());
                    }
                }
            }
            return None;
        },
    };
    let p2 = match expect(b, p1, &header) {
        Some(q) => q,
        None => {
            proof {
                assert forall|net: Seq<Staircase>, moves: Seq<usize>| !reads_as(b@, net, moves) by {
                    if reads_as(b@, net, moves) {
                        lemma_text_split(b@, p as int, seq![10u8], moves_header_text());
                    }
                }
            }
            return None;
        },
    };
    let mut allowed_moves: Vec<usize> = Vec::new();
    let mut q = p2;
    proof {
        lemma_split(b@, 0, p as int, p2 as int);
        lemma_split(b@, p as int, p1 as int, p2 as int);
        assert(b@.subrange(0, q as int) =~= input_text(staircases@, allowed_moves@));
        assert forall|net: Seq<Staircase>, moves: Seq<usize>| #[trigger] reads_as(b@, net, moves) implies allowed_moves@
            == moves.take(0) by {
            assert(moves.take(0) =~= allowed_moves@);
        }
    }
    while q < len && b[q] != 10
        invariant
            len == b@.len(),
            b@ == input.spec_bytes(),
            p2 <= q <= len,
            comma@ == comma_text(),
            b@.subrange(0, q as int) == input_text(staircases@, allowed_moves@),
            forall|net: Seq<Staircase>, moves: Seq<usize>| #[trigger] reads_as(b@, net, moves) ==> staircases@ == net,
            forall|net: Seq<Staircase>, moves: Seq<usize>|
                #[trigger] reads_as(b@, net, moves) ==> allowed_moves@.len() <= moves.len() && allowed_moves@
                    == moves.take(allowed_moves@.len() as int),
        decreases len - q,
    {
        proof {
            assert forall|net: Seq<Staircase>, moves: Seq<usize>| #[trigger] reads_as(b@, net, moves) implies allowed_moves@.len()
                < moves.len() && (allowed_moves@.len() > 0 ==> text_at(b@, q as int, comma_text())) && number_at(
                b@,
                if allowed_moves@.len() == 0 {
                    q as int
                } else {
                    q + 2
                },
                moves[allowed_moves@.len() as int] as nat,
            ) by {
                let k = allowed_moves@.len() as int;
                assert(input_text(net, moves.take(k)).len() == q);
                lemma_move_at(b@, net, moves, k);
            }
        }
        let start = if allowed_moves.len() == 0 {
            q
        } else {
            match expect(b, q, &comma) {
                Some(m) => m,
                None => {
                    proof {
                        assert forall|net: Seq<Staircase>, moves: Seq<usize>| !reads_as(b@, net, moves) by {
                            if reads_as(b@, net, moves) {
                                assert(text_at(b@, q as int, comma_text()));
                            }
                        }
                    }
                    return None;
                },
            }
        };
        match read_number(b, start) {
            Some((v, m)) => {
                let ghost before = allowed_moves@;
                allowed_moves.push(v);
                proof {
                    lemma_split(b@, 0, q as int, m as int);
                    assert(allowed_moves@.drop_last() =~= before);
                    if before.len() > 0 {
                        lemma_split(b@, q as int, start as int, m as int);
                        assert(b@.subrange(q as int, m as int) == comma_text() + decimal(v as nat));
                        assert(input_text(staircases@, allowed_moves@) =~= input_text(staircases@, before)
                            + comma_text() + decimal(v as nat));
                    } else {
                        assert(input_text(staircases@, allowed_moves@) =~= input_text(staircases@, before)
                            + decimal(v as nat));
                    }
                    assert forall|net: Seq<Staircase>, moves: Seq<usize>| #[trigger] reads_as(b@, net, moves) implies allowed_moves@.len()
                        <= moves.len() && allowed_moves@ == moves.take(allowed_moves@.len() as int) by {
                        let k = before.len() as int;
                        assert(moves.take(k + 1) =~= moves.take(k).push(moves[k]));
                    }
                }
                q = m;
            },
            None => {
                proof {
                    assert forall|net: Seq<Staircase>, moves: Seq<usize>| !reads_as(b@, net, moves) by {
                        if reads_as(b@, net, moves) {
                            assert(number_at(b@, start as int, moves[allowed_moves@.len() as int] as nat));
                        }
                    }
                }
                return None;
            },
        }
    }
    proof {
        assert forall|net: Seq<Staircase>, moves: Seq<usize>| #[trigger] reads_as(b@, net, moves) implies allowed_moves@
            == moves && (q == len || q + 1 == len) by {
            let k = allowed_moves@.len() as int;
            assert(input_text(net, moves.take(k)).len() == q);
            lemma_move_at(b@, net, moves, k);
            assert(moves.take(k) =~= moves);
        }
    }
    if q < len {
        if q + 1 != len {
            return None;
        }
        proof {
            assert(b@ =~= b@.subrange(0, q as int).push(b@[q as int]));
        }
    } else {
        proof {
            assert(b@ =~= b@.subrange(0, q as int));
        }
    }
    Some(Data { staircases, allowed_moves })
}

/// Number of ways up the primary corridor taken alone, or `None` when it
/// does not fit in 128 bits.
pub fn solve_part1(data: &Data) -> (r: Option<u128>)
    requires
        data.staircases@.len() >= 1,
        data.staircases@[0].begin <= data.staircases@[0].end,
    ensures
        r matches Some(c) ==> c as nat == compositions(
            data.allowed_moves@,
            (data.staircases@[0].end - data.staircases@[0].begin) as nat,
        ),
        r is None ==> exists|i: nat|
            i <= data.staircases@[0].end - data.staircases@[0].begin && compositions(
                data.allowed_moves@,
                i,
            ) > u128::MAX,
{
    path_count(data.staircases[0].end - data.staircases[0].begin, &data.allowed_moves)
}

fn table_of(data: &Data) -> (r: Result<PathTable, BuildError>)
    requires
        data.staircases@.len() < usize::MAX,
        forall|i: int| 0 <= i < data.staircases@.len() ==> (#[trigger] data.staircases@[i]).end < usize::MAX,
    ensures
        match r {
            Ok(t) => t.wf() && sound(data.staircases@) && t.network() == data.staircases@
                && t.allowed() == data.allowed_moves@,
            Err(BuildError::Malformed(e)) => !sound(data.staircases@) && crate::network::first_fault(
                data.staircases@,
            ) == Some(e),
            Err(BuildError::Overflow(m)) => sound(data.staircases@) && crate::network::is_node(
                data.staircases@,
                m,
            ) && crate::counting::paths(data.staircases@, data.allowed_moves@, m) > u128::MAX,
        },
{
    PathTable::build(data.staircases.clone(), data.allowed_moves.clone())
}

/// Number of walks through the whole network.
pub fn solve_part2(data: &Data) -> (r: Result<u128, BuildError>)
    requires
        data.staircases@.len() < usize::MAX,
        forall|i: int| 0 <= i < data.staircases@.len() ==> (#[trigger] data.staircases@[i]).end < usize::MAX,
    ensures
        r matches Ok(c) ==> sound(data.staircases@) && c as nat == total_walks(
            data.staircases@,
            data.allowed_moves@,
        ),
        r matches Err(BuildError::Malformed(e)) ==> !sound(data.staircases@) && crate::network::first_fault(
            data.staircases@,
        ) == Some(e),
        r matches Err(BuildError::Overflow(m)) ==> sound(data.staircases@) && crate::network::is_node(
            data.staircases@,
            m,
        ) && crate::counting::paths(data.staircases@, data.allowed_moves@, m) > u128::MAX,
{
    let t = table_of(data)?;
    Ok(t.total_path_count())
}

/// The text of the walk of rank `TARGET_PATH_RANK` (the last walk when there
/// are fewer), or `None` when there is no walk at all.
pub fn solve_part3(data: &Data) -> (r: Result<Option<Vec<u8>>, BuildError>)
    requires
        data.staircases@.len() < usize::MAX,
        forall|i: int| 0 <= i < data.staircases@.len() ==> (#[trigger] data.staircases@[i]).end < usize::MAX,
    ensures
        r matches Ok(Some(text)) ==> sound(data.staircases@) && total_walks(
            data.staircases@,
            data.allowed_moves@,
        ) >= 1 && text@ == render(
            walk_at(data.staircases@, data.allowed_moves@, TARGET_PATH_RANK as int),
        ),
        r matches Ok(None) ==> sound(data.staircases@) && total_walks(
            data.staircases@,
            data.allowed_moves@,
        ) == 0,
        r matches Err(BuildError::Malformed(e)) ==> !sound(data.staircases@) && crate::network::first_fault(
            data.staircases@,
        ) == Some(e),
        r matches Err(BuildError::Overflow(m)) ==> sound(data.staircases@) && crate::network::is_node(
            data.staircases@,
            m,
        ) && crate::counting::paths(data.staircases@, data.allowed_moves@, m) > u128::MAX,
{
    let t = table_of(data)?;
    if t.total_path_count() == 0 {
        return Ok(None);
    }
    let path = t.select(TARGET_PATH_RANK);
    Ok(Some(render_path(&path)))
}

} // verus!
