//! The value types of the machine: counters, registers, labels, instructions
//! and the error taxonomy.

use vstd::prelude::*;

verus! {

/// The value a counter holds after one decrement: one less, but never below
/// zero.
pub open spec fn dec_value(v: usize) -> usize {
    if v > 0 {
        (v - 1) as usize
    } else {
        0
    }
}

/// The value a counter holds after `n` decrements.
pub open spec fn iter_dec(v: usize, n: nat) -> usize
    decreases n,
{
    if n == 0 {
        v
    } else {
        dec_value(iter_dec(v, (n - 1) as nat))
    }
}

/// Law: decrementing a counter that holds zero any number of times leaves
/// it at zero — the floor is never crossed.
pub proof fn lemma_decrement_floor(n: nat)
    ensures
        iter_dec(0, n) == 0,
    decreases n,
{
    if n > 0 {
        lemma_decrement_floor((n - 1) as nat);
    }
}

/// A non-negative counter value held by one register of the machine.
#[derive(Clone, Copy, PartialEq, Eq, Structural, Debug)]
pub struct Unsigned(pub usize);

impl Unsigned {
    /// Adds one to the counter. The caller keeps the counter inside the
    /// machine word.
    pub fn increment(&mut self)
        requires
            old(self).0 < usize::MAX,
        ensures
            final(self).0 == old(self).0 + 1,
    {
        self.0 = self.0 + 1;
    }

    /// Takes one from the counter, stopping at zero: decrementing a counter
    /// that holds zero leaves it at zero.
    pub fn decrement(&mut self)
        ensures
            final(self).0 == dec_value(old(self).0),
    {
        self.0 = if self.0 > 0 {
            self.0 - 1
        } else {
            0
        };
    }
}

impl Default for Unsigned {
    /// A fresh counter holds zero.
    fn default() -> (r: Self)
        ensures
            r.0 == 0,
    {
        Unsigned(0)
    }
}

/// One storage cell of the machine. Two registers name the same cell exactly
/// when they have the same variant and the same index.
#[derive(Clone, Copy, PartialEq, Eq, Structural, Debug)]
pub enum Register {
    /// An input register, `X<index>` in source text.
    X(Unsigned),
    /// The single output register, `Y` in source text.
    Y,
    /// A scratch register, `Z<index>` in source text.
    Z(Unsigned),
}

/// A textual name attached to a program line and used as a jump target.
#[derive(Clone, PartialEq, Eq, Debug)]
pub struct Label(pub Vec<u8>);

impl View for Label {
    type V = Seq<u8>;

    open spec fn view(&self) -> Seq<u8> {
        self.0@
    }
}

impl Label {
    /// A fresh label carrying the same text.
    pub fn duplicate(&self) -> (r: Label)
        ensures
            r@ == self@,
    {
        let v = self.0.clone();
        proof {
            assert(v@ =~= self.0@);
        }
        Label(v)
    }
}

/// True exactly when the two labels carry the same text.
pub fn label_eq(a: &Label, b: &Label) -> (r: bool)
    ensures
        r == (a@ == b@),
{
    bytes_eq(&a.0, &b.0)
}

/// True exactly when the two byte vectors hold the same bytes.
pub fn bytes_eq(a: &Vec<u8>, b: &Vec<u8>) -> (r: bool)
    ensures
        r == (a@ == b@),
{
    if a.len() != b.len() {
        return false;
    }
    let mut i: usize = 0;
    #[verifier::loop_isolation(false)]
    while i < a.len()
        invariant
            i <= a.len(),
            forall|j: int| 0 <= j < i ==> a@[j] == b@[j],
        decreases a.len() - i,
    {
        if a[i] != b[i] {
            return false;
        }
        i = i + 1;
    }
    proof {
        assert(a@ =~= b@);
    }
    true
}

/// One instruction of the machine, immutable once constructed.
#[derive(Clone, PartialEq, Eq, Debug)]
pub enum Instruction {
    /// Adds one to a register.
    Increment(Register),
    /// Takes one from a register, stopping at zero.
    Decrement(Register),
    /// Jumps to the label when the register is non-zero, else falls through.
    Conditional(Register, Label),
    /// Jumps to the label unconditionally.
    Goto(Label),
    /// Halts the machine.
    Stop,
}

/// The mathematical shape of an [`Instruction`]: labels as byte sequences.
pub enum InstructionV {
    /// Adds one to a register.
    Increment(Register),
    /// Takes one from a register, stopping at zero.
    Decrement(Register),
    /// Jumps to the label when the register is non-zero, else falls through.
    Conditional(Register, Seq<u8>),
    /// Jumps to the label unconditionally.
    Goto(Seq<u8>),
    /// Halts the machine.
    Stop,
}

impl Instruction {
    /// A fresh instruction equal in meaning to this one.
    pub fn duplicate(&self) -> (r: Instruction)
        ensures
            r@ == self@,
    {
        match self {
            Instruction::Increment(r) => Instruction::Increment(*r),
            Instruction::Decrement(r) => Instruction::Decrement(*r),
            Instruction::Conditional(r, l) => Instruction::Conditional(*r, l.duplicate()),
            Instruction::Goto(l) => Instruction::Goto(l.duplicate()),
            Instruction::Stop => Instruction::Stop,
        }
    }
}

impl View for Instruction {
    type V = InstructionV;

    open spec fn view(&self) -> InstructionV {
        match self {
            Instruction::Increment(r) => InstructionV::Increment(*r),
            Instruction::Decrement(r) => InstructionV::Decrement(*r),
            Instruction::Conditional(r, l) => InstructionV::Conditional(*r, l@),
            Instruction::Goto(l) => InstructionV::Goto(l@),
            Instruction::Stop => InstructionV::Stop,
        }
    }
}

/// A fatal defect in the interpreted program. Every error aborts the run;
/// there is no recovery.
#[derive(Clone, PartialEq, Eq, Debug)]
pub enum Error {
    /// A line could not be parsed; carries the offending token.
    SyntaxError(Vec<u8>),
    /// A jump was taken to a label that no line defines. Dangling labels are
    /// reported lazily, at the moment the jump is attempted.
    UnresolvedLabel(Label),
    /// A register was incremented past the machine word.
    CounterOverflow,
}

/// The mathematical shape of an [`Error`].
pub enum ErrorV {
    /// A line could not be parsed; carries the offending token.
    SyntaxError(Seq<u8>),
    /// A jump was taken to a label that no line defines.
    UnresolvedLabel(Seq<u8>),
    /// A register was incremented past the machine word.
    CounterOverflow,
}

impl View for Error {
    type V = ErrorV;

    open spec fn view(&self) -> ErrorV {
        match self {
            Error::SyntaxError(t) => ErrorV::SyntaxError(t@),
            Error::UnresolvedLabel(l) => ErrorV::UnresolvedLabel(l@),
            Error::CounterOverflow => ErrorV::CounterOverflow,
        }
    }
}

} // verus!
