//! The text form of edit scripts: `<op>[<payload>]` for each instruction,
//! with `op` one of `+`, `-`, `=`, a payload `#<N>` for a generic identity of
//! length `N`, and alternatives joined by `|`.
use vstd::prelude::*;
use crate::script::{EditInstruction, EditScript, Op};
use crate::text::{chars_of, string_of};

verus! {

/// The decimal digit for `d` (`d < 10`).
pub open spec fn digit(d: nat) -> char {
    seq!['0', '1', '2', '3', '4', '5', '6', '7', '8', '9'][d as int]
}

/// The decimal notation of `n`, without leading zeros.
pub open spec fn decimal(n: nat) -> Seq<char>
    decreases n,
{
    if n < 10 {
        seq![digit(n)]
    } else {
        decimal(n / 10).push(digit(n % 10))
    }
}

/// The pieces of `v` joined by `sep` (empty for no pieces).
pub open spec fn join(v: Seq<Seq<char>>, sep: char) -> Seq<char>
    decreases v.len(),
{
    if v.len() == 0 {
        Seq::empty()
    } else if v.len() == 1 {
        v[0]
    } else {
        join(v.drop_last(), sep).push(sep) + v.last()
    }
}

/// What stands between the brackets of an instruction's text.
pub open spec fn payload_text(op: Op) -> Seq<char> {
    match op {
        Op::Insertion(s) | Op::Deletion(s) | Op::Identity(s) => s,
        Op::GenericIdentity(n) => seq!['#'] + decimal(n as nat),
        Op::InsertionOptions(v) | Op::DeletionOptions(v) | Op::IdentityOptions(v) => join(v, '|'),
    }
}

/// The operator character of an instruction.
pub open spec fn op_char(op: Op) -> char {
    match op {
        Op::Insertion(_) | Op::InsertionOptions(_) => '+',
        Op::Deletion(_) | Op::DeletionOptions(_) => '-',
        _ => '=',
    }
}

/// The text form of one instruction.
pub open spec fn op_text(op: Op) -> Seq<char> {
    seq![op_char(op), '['] + payload_text(op) + seq![']']
}

/// The text form of a list of instructions: their forms in order.
pub open spec fn ops_text(ops: Seq<Op>) -> Seq<char>
    decreases ops.len(),
{
    if ops.len() == 0 {
        Seq::empty()
    } else {
        ops_text(ops.drop_last()) + op_text(ops.last())
    }
}

fn digit_char(d: u32) -> (c: char)
    requires
        d < 10,
    ensures
        c == digit(d as nat),
{
    match d {
        0 => '0',
        1 => '1',
        2 => '2',
        3 => '3',
        4 => '4',
        5 => '5',
        6 => '6',
        7 => '7',
        8 => '8',
        _ => '9',
    }
}

fn push_decimal(out: &mut Vec<char>, n: u32)
    ensures
        final(out)@ == old(out)@ + decimal(n as nat),
    decreases n,
{
    if n >= 10 {
        push_decimal(out, n / 10);
    }
    out.push(digit_char(n % 10));
    assert(final(out)@ =~= old(out)@ + decimal(n as nat));
}

fn push_str(out: &mut Vec<char>, s: &str)
    ensures
        final(out)@ == old(out)@ + s@,
{
    let mut cs = chars_of(s);
    out.append(&mut cs);
}

fn push_joined(out: &mut Vec<char>, v: &Vec<String>, sep: char)
    ensures
        final(out)@ == old(out)@ + join(v@.map_values(|s: String| s@), sep),
{
    let ghost pieces = v@.map_values(|s: String| s@);
    let ghost start = out@;
    let mut i: usize = 0;
    while i < v.len()
        invariant
            i <= v.len(),
            pieces == v@.map_values(|s: String| s@),
            out@ == start + join(pieces.take(i as int), sep),
        decreases v.len() - i,
    {
        if i > 0 {
            out.push(sep);
        }
        push_str(out, v[i].as_str());
        i += 1;
        assert(pieces.take(i as int).drop_last() =~= pieces.take(i - 1));
        assert(out@ =~= start + join(pieces.take(i as int), sep));
    }
    assert(pieces.take(v.len() as int) =~= pieces);
}

fn push_instruction(out: &mut Vec<char>, instruction: &EditInstruction)
    ensures
        final(out)@ == old(out)@ + op_text(instruction@),
{
    let ghost start = out@;
    match instruction {
        EditInstruction::Insertion(_) | EditInstruction::InsertionOptions(_) => out.push('+'),
        EditInstruction::Deletion(_) | EditInstruction::DeletionOptions(_) => out.push('-'),
        _ => out.push('='),
    }
    out.push('[');
    match instruction {
        EditInstruction::Insertion(s) | EditInstruction::Deletion(s) | EditInstruction::Identity(s) => {
            push_str(out, s.as_str());
        },
        EditInstruction::GenericIdentity(n) => {
            out.push('#');
            push_decimal(out, *n);
        },
        EditInstruction::InsertionOptions(v) | EditInstruction::DeletionOptions(v)
        | EditInstruction::IdentityOptions(v) => {
            push_joined(out, v, '|');
        },
    }
    out.push(']');
    assert(out@ =~= start + op_text(instruction@));
}

impl EditInstruction {
    /// The text form of this instruction.
    pub fn to_string(&self) -> (r: String)
        ensures
            r@ == op_text(self@),
    {
        let mut out: Vec<char> = Vec::new();
        push_instruction(&mut out, self);
        assert(out@ =~= op_text(self@));
        string_of(out.as_slice())
    }
}

impl EditScript {
    /// The text form of this script: that of its instructions, in order. The
    /// mode and the distance are not part of it.
    pub fn to_string(&self) -> (r: String)
        ensures
            r@ == ops_text(self.ops()),
    {
        let ghost ops = self.ops();
        let mut out: Vec<char> = Vec::new();
        let mut i: usize = 0;
        while i < self.instructions.len()
            invariant
                i <= self.instructions.len(),
                ops == self.ops(),
                out@ == ops_text(ops.take(i as int)),
            decreases self.instructions.len() - i,
        {
            push_instruction(&mut out, &self.instructions[i]);
            i += 1;
            assert(ops.take(i as int).drop_last() =~= ops.take(i - 1));
        }
        assert(ops.take(self.instructions.len() as int) =~= ops);
        string_of(out.as_slice())
    }
}

} // verus!
