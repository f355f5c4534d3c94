//! Signals: polarity-tagged references to a constant, an input or a node.

use vstd::prelude::*;

verus! {

/// What a signal refers to, regardless of polarity.
#[derive(Clone, Copy, Debug, PartialEq, Eq, Hash, Structural)]
pub enum Source {
    /// The constant; non-inverted it is false, inverted it is true.
    Constant,
    /// The primary input with this index.
    Input(u32),
    /// The node with this index.
    Node(u32),
}

/// A reference to a source together with a polarity bit.
#[derive(Clone, Copy, Debug, PartialEq, Eq, Hash, Structural)]
pub struct Signal {
    pub source: Source,
    pub inverted: bool,
}

impl Signal {
    /// The constant false.
    pub fn zero() -> (s: Signal)
        ensures
            s == (Signal { source: Source::Constant, inverted: false }),
    {
        Signal { source: Source::Constant, inverted: false }
    }

    /// The constant true, which is the constant false complemented.
    pub fn one() -> (s: Signal)
        ensures
            s == (Signal { source: Source::Constant, inverted: true }),
    {
        Signal { source: Source::Constant, inverted: true }
    }

    /// The non-inverted signal of node `v`.
    pub fn from_var(v: u32) -> (s: Signal)
        ensures
            s == (Signal { source: Source::Node(v), inverted: false }),
    {
        Signal { source: Source::Node(v), inverted: false }
    }

    /// The non-inverted signal of primary input `v`.
    pub fn from_input(v: u32) -> (s: Signal)
        ensures
            s == (Signal { source: Source::Input(v), inverted: false }),
    {
        Signal { source: Source::Input(v), inverted: false }
    }

    pub open spec fn spec_is_constant(&self) -> bool {
        self.source == Source::Constant
    }

    pub open spec fn spec_is_input(&self) -> bool {
        self.source is Input
    }

    pub open spec fn spec_is_var(&self) -> bool {
        self.source is Node
    }

    pub open spec fn spec_var(&self) -> u32
        recommends
            self.spec_is_var(),
    {
        self.source->Node_0
    }

    pub open spec fn spec_input(&self) -> u32
        recommends
            self.spec_is_input(),
    {
        self.source->Input_0
    }

    pub open spec fn spec_not(self) -> Signal {
        Signal { source: self.source, inverted: !self.inverted }
    }

    /// The signal with its polarity toggled exactly when `flip` holds.
    pub open spec fn spec_xor(&self, flip: bool) -> Signal {
        Signal { source: self.source, inverted: self.inverted != flip }
    }

    #[verifier::when_used_as_spec(spec_is_constant)]
    pub fn is_constant(&self) -> (b: bool)
        ensures
            b == self.spec_is_constant(),
    {
        match self.source {
            Source::Constant => true,
            _ => false,
        }
    }

    #[verifier::when_used_as_spec(spec_is_input)]
    pub fn is_input(&self) -> (b: bool)
        ensures
            b == self.spec_is_input(),
    {
        match self.source {
            Source::Input(_) => true,
            _ => false,
        }
    }

    #[verifier::when_used_as_spec(spec_is_var)]
    pub fn is_var(&self) -> (b: bool)
        ensures
            b == self.spec_is_var(),
    {
        match self.source {
            Source::Node(_) => true,
            _ => false,
        }
    }

    /// The index of the node this signal refers to.
    #[verifier::when_used_as_spec(spec_var)]
    pub fn var(&self) -> (v: u32)
        requires
            self.spec_is_var(),
        ensures
            v == self.spec_var(),
            self.source == Source::Node(v),
    {
        match self.source {
            Source::Node(v) => v,
            _ => 0,
        }
    }

    /// The index of the primary input this signal refers to.
    #[verifier::when_used_as_spec(spec_input)]
    pub fn input(&self) -> (v: u32)
        requires
            self.spec_is_input(),
        ensures
            v == self.spec_input(),
            self.source == Source::Input(v),
    {
        match self.source {
            Source::Input(v) => v,
            _ => 0,
        }
    }

    pub fn is_inverted(&self) -> (b: bool)
        ensures
            b == self.inverted,
    {
        self.inverted
    }

    /// The same source with the polarity bit cleared.
    pub fn without_inversion(&self) -> (s: Signal)
        ensures
            s == (Signal { source: self.source, inverted: false }),
    {
        Signal { source: self.source, inverted: false }
    }

    /// The same source with the polarity toggled when `flip` holds.
    #[verifier::when_used_as_spec(spec_xor)]
    pub fn xor(&self, flip: bool) -> (s: Signal)
        ensures
            s == self.spec_xor(flip),
    {
        Signal { source: self.source, inverted: self.inverted != flip }
    }
}

impl core::ops::Not for Signal {
    type Output = Signal;

    /// The complement: same source, opposite polarity.
    fn not(self) -> (s: Signal) {
        Signal { source: self.source, inverted: !self.inverted }
    }
}

impl vstd::std_specs::ops::NotSpecImpl for Signal {
    open spec fn obeys_not_spec() -> bool {
        true
    }

    open spec fn not_req(self) -> bool {
        true
    }

    open spec fn not_spec(self) -> Signal {
        self.spec_not()
    }
}

/// Complementing twice gives the signal back, and never changes the source.
pub proof fn lemma_complement_involution(s: Signal)
    ensures
        s.spec_not().spec_not() == s,
        s.spec_not().source == s.source,
        s.spec_not() != s,
{
}

} // verus!
