//! Reading the text form of edit scripts back into instructions.
use vstd::prelude::*;
use crate::script::{change_count, EditInstruction, EditScript, Mode, Op, ParseError, strings_view};
use crate::text::{chars_of, string_of, with_detail};

verus! {

/// The spans of `t` that end with `]` (each one from just after the
/// previous `]`), and the text after the last `]`.
pub open spec fn tokens(t: Seq<char>) -> (Seq<Seq<char>>, Seq<char>)
    decreases t.len(),
{
    if t.len() == 0 {
        (Seq::empty(), Seq::empty())
    } else {
        let (done, current) = tokens(t.drop_last());
        if t.last() == ']' {
            (done.push(current.push(']')), Seq::empty())
        } else {
            (done, current.push(t.last()))
        }
    }
}

/// `s` cut at each occurrence of `sep` (one piece more than there are
/// occurrences).
pub open spec fn split(s: Seq<char>, sep: char) -> Seq<Seq<char>>
    decreases s.len(),
{
    if s.len() == 0 {
        seq![Seq::empty()]
    } else {
        let pieces = split(s.drop_last(), sep);
        if s.last() == sep {
            pieces.push(Seq::empty())
        } else {
            pieces.update(pieces.len() - 1, pieces.last().push(s.last()))
        }
    }
}

pub open spec fn is_digit(c: char) -> bool {
    '0' <= c && c <= '9'
}

pub open spec fn digit_value(c: char) -> nat {
    (c as u32 - '0' as u32) as nat
}

/// The number that the decimal digits `ds` denote.
pub open spec fn digits_value(ds: Seq<char>) -> nat
    decreases ds.len(),
{
    if ds.len() == 0 {
        0
    } else {
        digits_value(ds.drop_last()) * 10 + digit_value(ds.last())
    }
}

/// The length that a payload `#<digits>` denotes, if it has that form and
/// the number fits in `u32`.
pub open spec fn generic_length(p: Seq<char>) -> Option<u32> {
    if p.len() >= 2 && p[0] == '#' && (forall|i: int| 1 <= i < p.len() ==> is_digit(#[trigger] p[i]))
        && digits_value(p.skip(1)) <= u32::MAX {
        Some(digits_value(p.skip(1)) as u32)
    } else {
        None
    }
}

/// The instruction that a token denotes: an operator, `[`, a payload and a
/// closing character; `None` where it is malformed.
pub open spec fn parse_token(tok: Seq<char>) -> Option<Op> {
    if tok.len() <= 3 || tok[1] != '[' {
        None
    } else {
        let p = tok.subrange(2, tok.len() - 1);
        let options = p.contains('|');
        if tok[0] == '+' {
            Some(if options { Op::InsertionOptions(split(p, '|')) } else { Op::Insertion(p) })
        } else if tok[0] == '-' {
            Some(if options { Op::DeletionOptions(split(p, '|')) } else { Op::Deletion(p) })
        } else if tok[0] == '=' {
            if options {
                if generic_length(p) is Some {
                    None
                } else {
                    Some(Op::IdentityOptions(split(p, '|')))
                }
            } else {
                match generic_length(p) {
                    Some(n) => Some(Op::GenericIdentity(n)),
                    None => Some(Op::Identity(p)),
                }
            }
        } else {
            None
        }
    }
}

/// The instructions of a list of tokens, if every token is well-formed.
pub open spec fn parse_tokens(toks: Seq<Seq<char>>) -> Option<Seq<Op>>
    decreases toks.len(),
{
    if toks.len() == 0 {
        Some(Seq::empty())
    } else {
        match parse_tokens(toks.drop_last()) {
            None => None,
            Some(ops) => match parse_token(toks.last()) {
                None => None,
                Some(op) => Some(ops.push(op)),
            },
        }
    }
}

/// The instructions of a script's text form; `None` where a token is
/// malformed or there is no token at all. Text after the last `]` is
/// ignored.
pub open spec fn parse_text(t: Seq<char>) -> Option<Seq<Op>> {
    let toks = tokens(t).0;
    if toks.len() == 0 {
        None
    } else {
        parse_tokens(toks)
    }
}

/// The distance that a parsed script carries: its number of change-bearing
/// instructions, saturated at the largest `u32`.
pub open spec fn parsed_distance(ops: Seq<Op>) -> u32 {
    if change_count(ops) <= u32::MAX {
        change_count(ops) as u32
    } else {
        u32::MAX
    }
}

fn error_with(message: &str, detail: &[char]) -> (r: ParseError) {
    ParseError(with_detail(message, detail))
}

fn contains_char(s: &[char], c: char) -> (r: bool)
    ensures
        r == s@.contains(c),
{
    let mut i: usize = 0;
    while i < s.len()
        invariant
            i <= s.len(),
            forall|j: int| 0 <= j < i ==> s@[j] != c,
        decreases s.len() - i,
    {
        if s[i] == c {
            return true;
        }
        i += 1;
    }
    false
}

fn split_strings(s: &[char], sep: char) -> (r: Vec<String>)
    ensures
        strings_view(r@) == split(s@, sep),
{
    let mut out: Vec<String> = Vec::new();
    let mut current: Vec<char> = Vec::new();
    let mut i: usize = 0;
    while i < s.len()
        invariant
            i <= s.len(),
            strings_view(out@).push(current@) == split(s@.take(i as int), sep),
        decreases s.len() - i,
    {
        assert(s@.take(i + 1).drop_last() =~= s@.take(i as int));
        if s[i] == sep {
            let piece = string_of(current.as_slice());
            out.push(piece);
            current = Vec::new();
            assert(strings_view(out@) =~= split(s@.take(i as int), sep));
        } else {
            current.push(s[i]);
        }
        i += 1;
        assert(strings_view(out@).push(current@) =~= split(s@.take(i as int), sep));
    }
    assert(s@.take(s.len() as int) =~= s@);
    let last = string_of(current.as_slice());
    out.push(last);
    assert(strings_view(out@) =~= split(s@, sep));
    out
}

fn generic_length_of(p: &[char]) -> (r: Option<u32>)
    ensures
        r == generic_length(p@),
{
    if p.len() < 2 || p[0] != '#' {
        return None;
    }
    let mut value: u64 = 0;
    let mut i: usize = 1;
    while i < p.len()
        invariant
            1 <= i <= p.len(),
            p@.len() >= 2,
            p@[0] == '#',
            forall|j: int| 1 <= j < i ==> is_digit(#[trigger] p@[j]),
            value == digits_value(p@.subrange(1, i as int)),
            value <= u32::MAX,
        decreases p.len() - i,
    {
        let c = p[i];
        if !('0' <= c && c <= '9') {
            return None;
        }
        assert(p@.subrange(1, i + 1).drop_last() =~= p@.subrange(1, i as int));
        value = value * 10 + (c as u32 - '0' as u32) as u64;
        if value > u32::MAX as u64 {
            assert(generic_length(p@) is None) by {
                let ds = p@.skip(1);
                if forall|j: int| 1 <= j < p@.len() ==> is_digit(#[trigger] p@[j]) {
                    assert forall|j: int| 0 <= j < ds.len() implies is_digit(#[trigger] ds[j]) by {
                        assert(ds[j] == p@[j + 1]);
                    }
                    lemma_digits_value_grows(ds, i as int);
                    assert(ds.take(i as int) =~= p@.subrange(1, i + 1));
                }
            }
            return None;
        }
        i += 1;
    }
    assert(p@.subrange(1, p.len() as int) =~= p@.skip(1));
    Some(value as u32)
}

/// A longer run of digits denotes a number at least as large.
proof fn lemma_digits_value_grows(ds: Seq<char>, k: int)
    requires
        0 <= k <= ds.len(),
        forall|j: int| 0 <= j < ds.len() ==> is_digit(#[trigger] ds[j]),
    ensures
        digits_value(ds.take(k)) <= digits_value(ds),
    decreases ds.len(),
{
    if k < ds.len() {
        assert(ds.drop_last().take(k) =~= ds.take(k));
        lemma_digits_value_grows(ds.drop_last(), k);
    } else {
        assert(ds.take(k) =~= ds);
    }
}

fn parse_instruction(tok: &[char]) -> (r: Result<EditInstruction, ParseError>)
    ensures
        match r {
            Ok(i) => parse_token(tok@) == Some(i@),
            Err(_) => parse_token(tok@) is None,
        },
{
    if tok.len() <= 3 {
        return Err(error_with("String too short to describe a valid edit instruction: ", tok));
    }
    if tok[1] != '[' {
        return Err(error_with("Expected start bracket: ", tok));
    }
    let mut p: Vec<char> = Vec::new();
    let mut i: usize = 2;
    while i < tok.len() - 1
        invariant
            2 <= i <= tok.len() - 1,
            p@ == tok@.subrange(2, i as int),
        decreases tok.len() - i,
    {
        p.push(tok[i]);
        i += 1;
        assert(p@ =~= tok@.subrange(2, i as int));
    }
    let options = contains_char(p.as_slice(), '|');
    let op = tok[0];
    if op == '+' {
        if options {
            Ok(EditInstruction::InsertionOptions(split_strings(p.as_slice(), '|')))
        } else {
            Ok(EditInstruction::Insertion(string_of(p.as_slice())))
        }
    } else if op == '-' {
        if options {
            Ok(EditInstruction::DeletionOptions(split_strings(p.as_slice(), '|')))
        } else {
            Ok(EditInstruction::Deletion(string_of(p.as_slice())))
        }
    } else if op == '=' {
        let generic = generic_length_of(p.as_slice());
        if options {
            if generic.is_some() {
                Err(error_with("GenericIdentity can not take multiple values: ", tok))
            } else {
                Ok(EditInstruction::IdentityOptions(split_strings(p.as_slice(), '|')))
            }
        } else {
            match generic {
                Some(n) => Ok(EditInstruction::GenericIdentity(n)),
                None => Ok(EditInstruction::Identity(string_of(p.as_slice()))),
            }
        }
    } else {
        Err(error_with("Invalid operator in edit instruction: ", tok))
    }
}

impl EditInstruction {
    /// Reads one instruction from its text form.
    pub fn parse(text: &str) -> (r: Result<EditInstruction, ParseError>)
        ensures
            match r {
                Ok(i) => parse_token(text@) == Some(i@),
                Err(_) => parse_token(text@) is None,
            },
    {
        let cs = chars_of(text);
        parse_instruction(cs.as_slice())
    }
}

impl EditScript {
    /// Reads a script from its text form. The result is in `Normal` mode, and
    /// its distance is the number of change-bearing instructions.
    pub fn parse(text: &str) -> (r: Result<EditScript, ParseError>)
        ensures
            match r {
                Ok(e) => {
                    &&& parse_text(text@) == Some(e.ops())
                    &&& e.distance == parsed_distance(e.ops())
                    &&& e.mode == Mode::Normal
                },
                Err(_) => parse_text(text@) is None,
            },
    {
        let cs = chars_of(text);
        let mut instructions: Vec<EditInstruction> = Vec::new();
        let mut current: Vec<char> = Vec::new();
        let mut distance: u32 = 0;
        let mut i: usize = 0;
        while i < cs.len()
            invariant
                i <= cs.len(),
                cs@ == text@,
                tokens(cs@.take(i as int)).1 == current@,
                parse_tokens(tokens(cs@.take(i as int)).0) == Some(
                    instructions@.map_values(|x: EditInstruction| x@),
                ),
                distance == parsed_distance(instructions@.map_values(|x: EditInstruction| x@)),
            decreases cs.len() - i,
        {
            let ghost ops = instructions@.map_values(|x: EditInstruction| x@);
            assert(cs@.take(i + 1).drop_last() =~= cs@.take(i as int));
            let c = cs[i];
            let ghost before = tokens(cs@.take(i as int)).0;
            current.push(c);
            if c == ']' {
                assert(tokens(cs@.take(i + 1)).0.drop_last() =~= before);
                let instruction = parse_instruction(current.as_slice());
                match instruction {
                    Ok(instruction) => {
                        if instruction.is_change() && distance < u32::MAX {
                            distance += 1;
                        }
                        instructions.push(instruction);
                        assert(instructions@.map_values(|x: EditInstruction| x@) =~= ops.push(
                            instructions@.last()@,
                        ));
                        assert(instructions@.map_values(|x: EditInstruction| x@).drop_last()
                            =~= ops);
                    },
                    Err(e) => {
                        proof {
                            lemma_parse_tokens_fails_on(cs@, i + 1, text@);
                        }
                        return Err(e);
                    },
                }
                current = Vec::new();
            }
            i += 1;
        }
        assert(cs@.take(cs.len() as int) =~= cs@);
        if instructions.len() == 0 {
            return Err(error_with("Not a valid edit script, no instructions found: ", cs.as_slice()));
        }
        Ok(EditScript { distance, instructions, mode: Mode::Normal })
    }
}

/// Once a token fails, the whole text fails, whatever follows.
proof fn lemma_parse_tokens_fails_on(t: Seq<char>, k: int, whole: Seq<char>)
    requires
        0 <= k <= t.len(),
        t == whole,
        parse_tokens(tokens(t.take(k)).0) is None,
    ensures
        parse_text(whole) is None,
    decreases t.len() - k,
{
    if k < t.len() {
        assert(t.take(k + 1).drop_last() =~= t.take(k));
        let before = tokens(t.take(k)).0;
        if t[k] == ']' {
            let next = tokens(t.take(k + 1)).0;
            assert(next.drop_last() =~= before);
        }
        lemma_parse_tokens_fails_on(t, k + 1, whole);
    } else {
        assert(t.take(k) =~= t);
    }
}

impl std::str::FromStr for EditScript {
    type Err = ParseError;

    fn from_str(text: &str) -> Result<EditScript, ParseError> {
        EditScript::parse(text)
    }
}

impl std::str::FromStr for EditInstruction {
    type Err = ParseError;

    fn from_str(text: &str) -> Result<EditInstruction, ParseError> {
        EditInstruction::parse(text)
    }
}

} // verus!
