use vstd::prelude::*;
use crate::network::Node;

verus! {

/// The decimal digits of `n`, in ASCII, without leading zeros.
pub open spec fn decimal(n: nat) -> Seq<u8>
    decreases n,
{
    if n < 10 {
        seq![(48 + n) as u8]
    } else {
        decimal(n / 10).push((48 + n % 10) as u8)
    }
}

/// How a node is written: `S<id>_<rank>`.
pub open spec fn label(n: Node) -> Seq<u8> {
    seq![83u8] + decimal(n.staircase_id as nat) + seq![95u8] + decimal(n.step_rank as nat)
}

/// How a walk is written: the labels of its nodes, joined by `-`.
pub open spec fn render(p: Seq<Node>) -> Seq<u8>
    decreases p.len(),
{
    if p.len() == 0 {
        Seq::empty()
    } else if p.len() == 1 {
        label(p[0])
    } else {
        render(p.drop_last()) + seq![45u8] + label(p.last())
    }
}

pub open spec fn is_digit(c: u8) -> bool {
    48 <= c <= 57
}

/// The bytes of `t` stand at `p` in `b`.
pub open spec fn text_at(b: Seq<u8>, p: int, t: Seq<u8>) -> bool {
    &&& 0 <= p
    &&& p + t.len() <= b.len()
    &&& b.subrange(p, p + t.len()) == t
}

/// No digit follows position `q` of `b`.
pub open spec fn digits_end(b: Seq<u8>, q: int) -> bool {
    q == b.len() || !is_digit(b[q])
}

/// The decimal digits of `v` stand at `p` in `b`, and no digit follows.
pub open spec fn number_at(b: Seq<u8>, p: int, v: nat) -> bool {
    text_at(b, p, decimal(v)) && digits_end(b, p + decimal(v).len())
}

/// The digits of a number are digits, and the first is `0` only for zero.
pub proof fn lemma_decimal_shape(n: nat)
    ensures
        decimal(n).len() >= 1,
        forall|i: int| 0 <= i < decimal(n).len() ==> is_digit(#[trigger] decimal(n)[i]),
        (decimal(n)[0] == 48) == (n == 0),
        n < 10 <==> decimal(n).len() == 1,
    decreases n,
{
    if n >= 10 {
        lemma_decimal_shape(n / 10);
        let d = decimal(n / 10);
        assert(decimal(n) == d.push((48 + n % 10) as u8));
        assert forall|i: int| 0 <= i < decimal(n).len() implies is_digit(#[trigger] decimal(n)[i]) by {
            if i < d.len() {
                assert(decimal(n)[i] == d[i]);
            }
        }
    }
}

/// Different numbers have different digits.
pub proof fn lemma_decimal_injective(a: nat, v: nat)
    requires
        decimal(a) == decimal(v),
    ensures
        a == v,
    decreases v,
{
    lemma_decimal_shape(a);
    lemma_decimal_shape(v);
    if v < 10 && a < 10 {
        assert(decimal(a)[0] == decimal(v)[0]);
    } else if v >= 10 && a >= 10 {
        assert(decimal(a).drop_last() == decimal(a / 10));
        assert(decimal(v).drop_last() == decimal(v / 10));
        lemma_decimal_injective(a / 10, v / 10);
        assert(decimal(a) == decimal(a / 10).push((48 + a % 10) as u8));
        assert(decimal(v) == decimal(v / 10).push((48 + v % 10) as u8));
        assert(decimal(a).last() == (48 + a % 10) as u8);
        assert(decimal(v).last() == (48 + v % 10) as u8);
        assert(decimal(a).last() == decimal(v).last());
        assert(a % 10 == v % 10);
        assert(a == 10 * (a / 10) + a % 10 && v == 10 * (v / 10) + v % 10) by (nonlinear_arith);
    }
}

/// A number whose digits begin the digits of `v` is at most `v`.
pub proof fn lemma_decimal_prefix(a: nat, v: nat, k: int)
    requires
        1 <= k <= decimal(v).len(),
        decimal(a) == decimal(v).take(k),
    ensures
        a <= v,
    decreases v,
{
    lemma_decimal_shape(v);
    if k == decimal(v).len() {
        assert(decimal(v).take(k) =~= decimal(v));
        lemma_decimal_injective(a, v);
    } else {
        assert(v >= 10);
        let d = decimal(v / 10);
        assert(decimal(v) == d.push((48 + v % 10) as u8));
        assert(decimal(v).take(k) =~= d.take(k));
        lemma_decimal_prefix(a, v / 10, k);
    }
}

/// Appends the decimal digits of `n`.
pub fn push_decimal(out: &mut Vec<u8>, n: usize)
    ensures
        final(out)@ == old(out)@ + decimal(n as nat),
    decreases n,
{
    if n >= 10 {
        push_decimal(out, n / 10);
    }
    let d = (n % 10) as u8;
    out.push(48 + d);
    proof {
        if n >= 10 {
            assert(final(out)@ =~= old(out)@ + decimal((n / 10) as nat).push((48 + n % 10) as u8));
        } else {
            assert(final(out)@ =~= old(out)@ + seq![(48 + n) as u8]);
        }
    }
}

/// Appends the label of a node.
pub fn push_label(out: &mut Vec<u8>, n: Node)
    ensures
        final(out)@ == old(out)@ + label(n),
{
    let ghost o = out@;
    out.push(83);
    push_decimal(out, n.staircase_id);
    out.push(95);
    push_decimal(out, n.step_rank);
    proof {
        assert(final(out)@ =~= o + label(n));
    }
}

impl Node {
    /// The label of the node, `S<id>_<rank>`, in ASCII.
    pub fn label(&self) -> (r: Vec<u8>)
        ensures
            r@ == label(*self),
    {
        let mut out: Vec<u8> = Vec::new();
        push_label(&mut out, *self);
        proof {
            assert(out@ =~= label(*self));
        }
        out
    }
}

/// The text of a walk.
pub fn render_path(path: &Vec<Node>) -> (r: Vec<u8>)
    ensures
        r@ == render(path@),
{
    let mut out: Vec<u8> = Vec::new();
    let mut i: usize = 0;
    while i < path.len()
        invariant
            i <= path@.len(),
            out@ == render(path@.take(i as int)),
        decreases path.len() - i,
    {
        if i > 0 {
            out.push(45);
        }
        push_label(&mut out, path[i]);
        proof {
            let t = path@.take(i + 1);
            assert(t.drop_last() =~= path@.take(i as int));
            if i > 0 {
                assert(out@ =~= render(t.drop_last()) + seq![45u8] + label(t.last()));
            } else {
                assert(out@ =~= label(t[0]));
            }
        }
        i = i + 1;
    }
    proof {
        assert(path@.take(path@.len() as int) =~= path@);
    }
    out
}

/// Reads the bytes of `lit` at `p`, returning the position after them.
pub(crate) fn expect(b: &[u8], p: usize, lit: &Vec<u8>) -> (r: Option<usize>)
    requires
        p <= b@.len(),
    ensures
        r matches Some(q) ==> q == p + lit@.len() && q <= b@.len() && b@.subrange(p as int, q as int)
            == lit@,
        text_at(b@, p as int, lit@) ==> r == Some((p + lit@.len()) as usize),
{
    if lit.len() > b.len() - p {
        return None;
    }
    let blen = b.len();
    let mut i: usize = 0;
    while i < lit.len()
        invariant
            blen == b@.len(),
            p + lit@.len() <= b@.len(),
            i <= lit@.len(),
            b@.subrange(p as int, p + i) == lit@.take(i as int),
        decreases lit.len() - i,
    {
        if b[p + i] != lit[i] {
            proof {
                if text_at(b@, p as int, lit@) {
                    assert(b@.subrange(p as int, p + lit@.len())[i as int] == b@[p + i]);
                }
            }
            return None;
        }
        proof {
            assert(b@.subrange(p as int, p + i + 1) =~= b@.subrange(p as int, p + i).push(b@[p + i]));
            assert(lit@.take(i + 1) =~= lit@.take(i as int).push(lit@[i as int]));
        }
        i = i + 1;
    }
    proof {
        assert(lit@.take(lit@.len() as int) =~= lit@);
    }
    Some(p + lit.len())
}

proof fn lemma_decimal_step(v: nat, d: nat)
    requires
        v >= 1,
        d < 10,
    ensures
        decimal(10 * v + d) == decimal(v).push((48 + d) as u8),
{
    let n = 10 * v + d;
    assert(n / 10 == v && n % 10 == d) by (nonlinear_arith)
        requires
            n == 10 * v + d,
            d < 10,
    ;
}

/// Reads a decimal number without leading zeros at `p`; `None` where there
/// is none or it does not fit in a `usize`.
pub(crate) fn read_number(b: &[u8], p: usize) -> (r: Option<(usize, usize)>)
    requires
        p <= b@.len(),
    ensures
        r matches Some((v, q)) ==> p < q <= b@.len() && b@.subrange(p as int, q as int) == decimal(
            v as nat,
        ),
        (p >= b@.len() || !is_digit(b@[p as int])) ==> r is None,
        forall|v: usize|
            #[trigger] number_at(b@, p as int, v as nat) ==> r == Some((v, (p + decimal(v as nat).len()) as usize)),
{
    if p >= b.len() || b[p] < 48 || b[p] > 57 {
        proof {
            assert forall|v: usize| !number_at(b@, p as int, v as nat) by {
                if number_at(b@, p as int, v as nat) {
                    lemma_decimal_shape(v as nat);
                    assert(b@.subrange(p as int, p + decimal(v as nat).len())[0] == b@[p as int]);
                }
            }
        }
        return None;
    }
    let first = b[p] - 48;
    proof {
        assert forall|v: usize| #[trigger] number_at(b@, p as int, v as nat) implies b@[p as int] == decimal(
            v as nat,
        )[0] by {
            lemma_decimal_shape(v as nat);
            assert(b@.subrange(p as int, p + decimal(v as nat).len())[0] == b@[p as int]);
        }
    }
    if first == 0 {
        proof {
            assert(b@.subrange(p as int, p + 1) =~= seq![48u8]);
            assert forall|v: usize| #[trigger] number_at(b@, p as int, v as nat) implies v == 0 by {
                lemma_decimal_shape(v as nat);
            }
        }
        return Some((0, p + 1));
    }
    let mut v: usize = first as usize;
    let mut q: usize = p + 1;
    proof {
        assert(b@.subrange(p as int, q as int) =~= seq![(48 + v) as u8]);
    }
    while q < b.len() && b[q] >= 48 && b[q] <= 57
        invariant
            p < q <= b@.len(),
            v >= 1,
            b@.subrange(p as int, q as int) == decimal(v as nat),
            forall|w: usize|
                #[trigger] number_at(b@, p as int, w as nat) ==> q - p <= decimal(w as nat).len(),
        decreases b.len() - q,
    {
        let d = (b[q] - 48) as usize;
        proof {
            lemma_decimal_step(v as nat, d as nat);
            assert(b@.subrange(p as int, q + 1) =~= b@.subrange(p as int, q as int).push(b@[q as int]));
            assert forall|w: usize| #[trigger] number_at(b@, p as int, w as nat) implies q + 1 - p <= decimal(
                w as nat,
            ).len() && 10 * v + d <= w by {
                let l = decimal(w as nat).len();
                if q - p == l {
                    assert(!is_digit(b@[q as int]));
                }
                assert(b@.subrange(p as int, q + 1) =~= b@.subrange(p as int, p + l).take(q + 1 - p));
                lemma_decimal_prefix((10 * v + d) as nat, w as nat, q + 1 - p);
            }
        }
        if v > (usize::MAX - d) / 10 {
            proof {
                assert forall|w: usize| !number_at(b@, p as int, w as nat) by {
                    if number_at(b@, p as int, w as nat) {
                        assert(10 * v + d <= w);
                        assert(10 * v + d <= usize::MAX);
                        assert(v <= (usize::MAX - d) / 10) by (nonlinear_arith)
                            requires
                                10 * v + d <= usize::MAX,
                                d < 10,
                        ;
                    }
                }
            }
            return None;
        }
        proof {
            assert(10 * v + d <= usize::MAX) by (nonlinear_arith)
                requires
                    v <= (usize::MAX - d) / 10,
                    d < 10,
            ;
        }
        v = 10 * v + d;
        q = q + 1;
    }
    proof {
        assert forall|w: usize| #[trigger] number_at(b@, p as int, w as nat) implies v == w && q == p + decimal(
            w as nat,
        ).len() by {
            let l = decimal(w as nat).len();
            lemma_decimal_shape(w as nat);
            if q - p < l {
                assert(b@.subrange(p as int, p + l)[q - p] == b@[q as int]);
            }
            assert(b@.subrange(p as int, q as int) =~= b@.subrange(p as int, p + l));
            lemma_decimal_injective(v as nat, w as nat);
        }
    }
    Some((v, q))
}

} // verus!
