//! The edit script model: instructions, scripts, modes and errors, with the
//! mathematical view that the contracts speak of.
use vstd::prelude::*;

verus! {

/// How a script was built, or how it is to be replayed.
#[derive(Copy, Clone, Debug, PartialEq, Eq, Structural)]
pub enum Mode {
    Normal,
    Suffix,
    Prefix,
    /// Only used when applying a script: it may then match any part (infix)
    /// of the input, and fire at every non-overlapping occurrence.
    Infix,
}

/// A malformed text form of an edit script or instruction.
#[derive(Debug)]
pub struct ParseError(pub String);

/// Why an edit script could not be applied to an input.
#[derive(Debug)]
pub enum ApplyError {
    /// Content that the script requires is absent from the input.
    NoMatch,
    /// A specific literal or length did not match, or the script is ambiguous.
    WithMessage(String),
}

/// The kind of an `ApplyError`, as the contracts see it.
pub enum Failure {
    NoMatch,
    WithMessage,
}

impl ApplyError {
    pub open spec fn failure(&self) -> Failure {
        match self {
            ApplyError::NoMatch => Failure::NoMatch,
            ApplyError::WithMessage(_) => Failure::WithMessage,
        }
    }
}

/// One step of an edit script.
///
/// The three option forms hold alternatives. When a script is applied, the
/// first alternative that matches is taken; where none matches, the step is
/// skipped without error. Insertion options cannot be applied at all, as the
/// choice between them would be a guess.
#[derive(Debug)]
pub enum EditInstruction {
    /// An insertion
    Insertion(String),
    /// A deletion
    Deletion(String),
    /// An identity check
    Identity(String),
    /// An identity check for a specific length (a generic abstraction)
    GenericIdentity(u32),
    /// A disjunction over multiple possible insertions
    InsertionOptions(Vec<String>),
    /// A disjunction over multiple possible deletions
    DeletionOptions(Vec<String>),
    /// A disjunction over multiple possible identities
    IdentityOptions(Vec<String>),
}

/// The mathematical value of an `EditInstruction`.
pub enum Op {
    Insertion(Seq<char>),
    Deletion(Seq<char>),
    Identity(Seq<char>),
    GenericIdentity(u32),
    InsertionOptions(Seq<Seq<char>>),
    DeletionOptions(Seq<Seq<char>>),
    IdentityOptions(Seq<Seq<char>>),
}

pub open spec fn strings_view(v: Seq<String>) -> Seq<Seq<char>> {
    v.map_values(|s: String| s@)
}

impl View for EditInstruction {
    type V = Op;

    open spec fn view(&self) -> Op {
        match self {
            EditInstruction::Insertion(s) => Op::Insertion(s@),
            EditInstruction::Deletion(s) => Op::Deletion(s@),
            EditInstruction::Identity(s) => Op::Identity(s@),
            EditInstruction::GenericIdentity(n) => Op::GenericIdentity(*n),
            EditInstruction::InsertionOptions(v) => Op::InsertionOptions(strings_view(v@)),
            EditInstruction::DeletionOptions(v) => Op::DeletionOptions(strings_view(v@)),
            EditInstruction::IdentityOptions(v) => Op::IdentityOptions(strings_view(v@)),
        }
    }
}

/// Whether an instruction changes the text (insertions and deletions, with
/// or without options).
pub open spec fn op_is_change(op: Op) -> bool {
    match op {
        Op::Insertion(_) | Op::Deletion(_) | Op::InsertionOptions(_) | Op::DeletionOptions(_) => true,
        _ => false,
    }
}

/// The number of change-bearing instructions in `ops`.
pub open spec fn change_count(ops: Seq<Op>) -> nat
    decreases ops.len(),
{
    if ops.len() == 0 {
        0
    } else {
        change_count(ops.drop_last()) + if op_is_change(ops.last()) { 1nat } else { 0nat }
    }
}

/// An ordered list of instructions, the mode it was made for, and its
/// distance.
#[derive(Debug)]
pub struct EditScript {
    pub mode: Mode,
    pub distance: u32,
    pub instructions: Vec<EditInstruction>,
}

impl EditScript {
    /// The instructions, as mathematical values.
    pub open spec fn ops(&self) -> Seq<Op> {
        self.instructions@.map_values(|i: EditInstruction| i@)
    }

    /// The number of instructions.
    pub fn len(&self) -> (r: usize)
        ensures
            r == self.ops().len(),
    {
        self.instructions.len()
    }
}

impl EditInstruction {
    /// Whether this instruction changes the text.
    pub fn is_change(&self) -> (r: bool)
        ensures
            r == op_is_change(self@),
    {
        match self {
            EditInstruction::Insertion(_) | EditInstruction::Deletion(_) => true,
            EditInstruction::Identity(_) => false,
            EditInstruction::GenericIdentity(_) => false,
            EditInstruction::InsertionOptions(_) | EditInstruction::DeletionOptions(_) => true,
            EditInstruction::IdentityOptions(_) => false,
        }
    }
}

} // verus!
