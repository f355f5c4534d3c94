//! Gates: the function of a node over its ordered fanin signals.

use crate::network::signal::Signal;
use vstd::arithmetic::power2::{lemma2_to64, lemma_pow2_strictly_increases, lemma_pow2_unfold, pow2};
use vstd::prelude::*;

verus! {

/// Functions of two-input gates.
#[derive(Clone, Copy, Debug, PartialEq, Eq, Hash, Structural)]
pub enum BinaryType {
    And,
    Xor,
}

/// Functions of three-input gates. A `Mux` reads select, then-input and
/// else-input, in this order.
#[derive(Clone, Copy, Debug, PartialEq, Eq, Hash, Structural)]
pub enum TernaryType {
    And,
    Xor,
    Mux,
    Maj,
}

/// Functions of gates with any number of inputs.
#[derive(Clone, Copy, Debug, PartialEq, Eq, Hash, Structural)]
pub enum NaryType {
    And,
    Or,
    Nand,
    Nor,
    Xor,
    Xnor,
}

/// A lookup table: bit `i` of the truth table is the output for the input
/// assignment whose bit pattern is `i`.
#[derive(Clone, Debug, PartialEq, Eq, Hash)]
pub struct Lut {
    pub fanins: Vec<Signal>,
    pub truth_table: Vec<bool>,
}

/// The function of one node, with its ordered fanin signals.
#[derive(Clone, Debug, PartialEq, Eq, Hash)]
pub enum Gate {
    Binary([Signal; 2], BinaryType),
    Ternary([Signal; 3], TernaryType),
    Nary(Vec<Signal>, NaryType),
    Buf(Signal),
    Dff(Signal),
    Lut(Lut),
}

/// The function of a gate without its fanins.
pub enum GateKind {
    Binary(BinaryType),
    Ternary(TernaryType),
    Nary(NaryType),
    Buf,
    Dff,
    Lut(Seq<bool>),
}

/// A gate as a mathematical value: its function and its fanin sequence.
pub struct GateView {
    pub kind: GateKind,
    pub deps: Seq<Signal>,
}

impl GateView {
    /// The fanin count fits the function: two for binary gates, three for
    /// ternary ones, one for buffers and flip-flops, and a truth table of
    /// `2^k` bits for a lookup table over `k` fanins.
    pub open spec fn wf(self) -> bool {
        match self.kind {
            GateKind::Binary(_) => self.deps.len() == 2,
            GateKind::Ternary(_) => self.deps.len() == 3,
            GateKind::Nary(_) => true,
            GateKind::Buf => self.deps.len() == 1,
            GateKind::Dff => self.deps.len() == 1,
            GateKind::Lut(t) => t.len() == pow2(self.deps.len()),
        }
    }

    /// The level increment of a gate: a buffer counts for nothing when
    /// buffers are not counted, every other gate counts for one.
    pub open spec fn increment(self, count_buffer: bool) -> nat {
        if !count_buffer && self.kind is Buf {
            0
        } else {
            1
        }
    }
}

impl View for Gate {
    type V = GateView;

    open spec fn view(&self) -> GateView {
        match *self {
            Gate::Binary(a, t) => GateView { kind: GateKind::Binary(t), deps: a@ },
            Gate::Ternary(a, t) => GateView { kind: GateKind::Ternary(t), deps: a@ },
            Gate::Nary(v, t) => GateView { kind: GateKind::Nary(t), deps: v@ },
            Gate::Buf(s) => GateView { kind: GateKind::Buf, deps: seq![s] },
            Gate::Dff(s) => GateView { kind: GateKind::Dff, deps: seq![s] },
            Gate::Lut(l) => GateView { kind: GateKind::Lut(l.truth_table@), deps: l.fanins@ },
        }
    }
}

/// A copy of a signal vector.
pub fn copy_signals(v: &Vec<Signal>) -> (r: Vec<Signal>)
    ensures
        r@ == v@,
{
    let mut r: Vec<Signal> = Vec::new();
    let mut i: usize = 0;
    while i < v.len()
        invariant
            i <= v.len(),
            r@ == v@.take(i as int),
        decreases v.len() - i,
    {
        r.push(v[i]);
        i += 1;
    }
    r
}

/// A copy of a truth table.
pub fn copy_bits(v: &Vec<bool>) -> (r: Vec<bool>)
    ensures
        r@ == v@,
{
    let mut r: Vec<bool> = Vec::new();
    let mut i: usize = 0;
    while i < v.len()
        invariant
            i <= v.len(),
            r@ == v@.take(i as int),
        decreases v.len() - i,
    {
        r.push(v[i]);
        i += 1;
    }
    r
}

/// Whether `len` is two to the power `k`.
pub fn is_table_len(k: usize, len: usize) -> (b: bool)
    ensures
        b == (len == pow2(k as nat)),
{
    let mut p: usize = 1;
    let mut i: usize = 0;
    proof {
        lemma2_to64();
    }
    while i < k
        invariant
            i <= k,
            p == pow2(i as nat),
            p <= len || i == 0,
        decreases k - i,
    {
        proof {
            lemma_pow2_unfold((i + 1) as nat);
            vstd::arithmetic::power2::lemma_pow2_pos(k as nat);
            if i + 1 < k {
                lemma_pow2_strictly_increases((i + 1) as nat, k as nat);
            }
        }
        if p > len || p > len - p {
            return false;
        }
        p = 2 * p;
        i += 1;
    }
    p == len
}

impl Lut {
    /// A lookup table over `fanins`, if `truth_table` has one bit for each
    /// of the `2^k` assignments of its `k` fanins.
    pub fn new(fanins: Vec<Signal>, truth_table: Vec<bool>) -> (r: Option<Lut>)
        ensures
            r is Some <==> truth_table@.len() == pow2(fanins@.len()),
            r is Some ==> r->Some_0.fanins@ == fanins@ && r->Some_0.truth_table@ == truth_table@,
    {
        if is_table_len(fanins.len(), truth_table.len()) {
            Some(Lut { fanins, truth_table })
        } else {
            None
        }
    }

    /// The number of fanins.
    pub fn num_vars(&self) -> (k: usize)
        ensures
            k == self.fanins@.len(),
    {
        self.fanins.len()
    }

    /// The output for the input assignment whose bit pattern is `i`.
    pub fn value(&self, i: usize) -> (b: bool)
        requires
            i < self.truth_table@.len(),
        ensures
            b == self.truth_table@[i as int],
    {
        self.truth_table[i]
    }
}

impl Gate {
    /// A two-input And gate.
    pub fn and(a: Signal, b: Signal) -> (g: Gate)
        ensures
            g@ == (GateView { kind: GateKind::Binary(BinaryType::And), deps: seq![a, b] }),
    {
        let g = Gate::Binary([a, b], BinaryType::And);
        assert(g@.deps =~= seq![a, b]);
        g
    }

    /// Whether the fanin count fits the function of this gate.
    pub fn is_well_formed(&self) -> (b: bool)
        ensures
            b == self@.wf(),
    {
        match self {
            Gate::Lut(l) => is_table_len(l.fanins.len(), l.truth_table.len()),
            _ => true,
        }
    }

    /// The fanin signals of this gate, in order.
    pub fn dependencies(&self) -> (r: Vec<Signal>)
        ensures
            r@ == self@.deps,
    {
        match self {
            Gate::Binary(a, _) => {
                let r = vec![a[0], a[1]];
                assert(r@ =~= a@);
                r
            },
            Gate::Ternary(a, _) => {
                let r = vec![a[0], a[1], a[2]];
                assert(r@ =~= a@);
                r
            },
            Gate::Nary(v, _) => copy_signals(v),
            Gate::Buf(s) => {
                let r = vec![*s];
                assert(r@ =~= seq![*s]);
                r
            },
            Gate::Dff(s) => {
                let r = vec![*s];
                assert(r@ =~= seq![*s]);
                r
            },
            Gate::Lut(l) => copy_signals(&l.fanins),
        }
    }

    /// Whether this gate is a pure forwarding wire.
    pub fn is_buf(&self) -> (b: bool)
        ensures
            b == (self@.kind is Buf),
    {
        match self {
            Gate::Buf(_) => true,
            _ => false,
        }
    }

    /// A gate with the same function over other fanins.
    pub fn with_dependencies(&self, deps: &Vec<Signal>) -> (g: Gate)
        requires
            deps@.len() == self@.deps.len(),
            self@.wf(),
        ensures
            g@ == (GateView { kind: self@.kind, deps: deps@ }),
    {
        match self {
            Gate::Binary(_, t) => {
                let g = Gate::Binary([deps[0], deps[1]], *t);
                assert(g@.deps =~= deps@);
                g
            },
            Gate::Ternary(_, t) => {
                let g = Gate::Ternary([deps[0], deps[1], deps[2]], *t);
                assert(g@.deps =~= deps@);
                g
            },
            Gate::Nary(_, t) => Gate::Nary(copy_signals(deps), *t),
            Gate::Buf(_) => {
                let g = Gate::Buf(deps[0]);
                assert(g@.deps =~= deps@);
                g
            },
            Gate::Dff(_) => {
                let g = Gate::Dff(deps[0]);
                assert(g@.deps =~= deps@);
                g
            },
            Gate::Lut(l) => Gate::Lut(
                Lut { fanins: copy_signals(deps), truth_table: copy_bits(&l.truth_table) },
            ),
        }
    }
}

} // verus!
