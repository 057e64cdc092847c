//! Replaying an edit script on an input, in one of four modes.
use vstd::prelude::*;
use crate::script::{ApplyError, EditInstruction, EditScript, Failure, Mode, Op};
use crate::text::{chars_of, concat, string_of, with_detail};

verus! {

/// Where a forward (normal or prefix) replay stands: the output so far, the
/// input not yet consumed, and whether any instruction has matched.
pub struct Forward {
    pub out: Seq<char>,
    pub rest: Seq<char>,
    pub matched: bool,
}

/// Where a backward (suffix) replay stands: the input not yet consumed, and
/// the output that has been built in front of what follows it.
pub struct Backward {
    pub rest: Seq<char>,
    pub out: Seq<char>,
}

/// The first alternative that `t` starts with.
pub open spec fn first_prefix(ps: Seq<Seq<char>>, t: Seq<char>) -> Option<Seq<char>>
    decreases ps.len(),
{
    if ps.len() == 0 {
        None
    } else if ps[0].is_prefix_of(t) {
        Some(ps[0])
    } else {
        first_prefix(ps.drop_first(), t)
    }
}

/// The first alternative that `t` ends with.
pub open spec fn first_suffix(ps: Seq<Seq<char>>, t: Seq<char>) -> Option<Seq<char>>
    decreases ps.len(),
{
    if ps.len() == 0 {
        None
    } else if ps[0].is_suffix_of(t) {
        Some(ps[0])
    } else {
        first_suffix(ps.drop_first(), t)
    }
}

/// One instruction of a forward replay.
pub open spec fn forward_step(st: Forward, op: Op) -> Result<Forward, Failure> {
    match op {
        Op::Deletion(p) => if p.is_prefix_of(st.rest) {
            Ok(Forward { out: st.out, rest: st.rest.skip(p.len() as int), matched: true })
        } else {
            Err(Failure::NoMatch)
        },
        Op::Insertion(s) => Ok(Forward { out: st.out + s, rest: st.rest, matched: true }),
        Op::GenericIdentity(n) => if n <= st.rest.len() {
            Ok(
                Forward {
                    out: st.out + st.rest.take(n as int),
                    rest: st.rest.skip(n as int),
                    matched: true,
                },
            )
        } else {
            Err(Failure::WithMessage)
        },
        Op::Identity(p) => if p.is_prefix_of(st.rest) {
            Ok(Forward { out: st.out + p, rest: st.rest.skip(p.len() as int), matched: true })
        } else {
            Err(Failure::NoMatch)
        },
        Op::IdentityOptions(ps) => match first_prefix(ps, st.rest) {
            Some(p) => Ok(
                Forward { out: st.out + p, rest: st.rest.skip(p.len() as int), matched: true },
            ),
            None => Ok(st),
        },
        Op::DeletionOptions(ps) => match first_prefix(ps, st.rest) {
            Some(p) => Ok(
                Forward { out: st.out, rest: st.rest.skip(p.len() as int), matched: true },
            ),
            None => Ok(st),
        },
        Op::InsertionOptions(_) => Err(Failure::WithMessage),
    }
}

/// A forward replay of `ops` on `input`, instruction by instruction.
pub open spec fn forward_run(ops: Seq<Op>, input: Seq<char>) -> Result<Forward, Failure>
    decreases ops.len(),
{
    if ops.len() == 0 {
        Ok(Forward { out: Seq::empty(), rest: input, matched: false })
    } else {
        match forward_run(ops.drop_last(), input) {
            Err(e) => Err(e),
            Ok(st) => forward_step(st, ops.last()),
        }
    }
}

/// A complete forward replay: it fails where no instruction matched.
pub open spec fn forward(ops: Seq<Op>, input: Seq<char>) -> Result<Forward, Failure> {
    match forward_run(ops, input) {
        Err(e) => Err(e),
        Ok(st) => if st.matched {
            Ok(st)
        } else {
            Err(Failure::NoMatch)
        },
    }
}

/// One instruction of a backward replay.
pub open spec fn backward_step(st: Backward, op: Op) -> Result<Backward, Failure> {
    let n = st.rest.len();
    match op {
        Op::Deletion(s) => if s.is_suffix_of(st.rest) {
            Ok(Backward { rest: st.rest.take(n - s.len()), out: st.out })
        } else {
            Err(Failure::WithMessage)
        },
        Op::Insertion(s) => Ok(Backward { rest: st.rest, out: s + st.out }),
        Op::GenericIdentity(k) => if k <= n {
            Ok(Backward { rest: st.rest.take(n - k), out: st.rest.skip(n - k) + st.out })
        } else {
            Err(Failure::WithMessage)
        },
        Op::Identity(s) => if s.is_suffix_of(st.rest) {
            Ok(Backward { rest: st.rest.take(n - s.len()), out: s + st.out })
        } else {
            Err(Failure::WithMessage)
        },
        Op::IdentityOptions(ps) => match first_suffix(ps, st.rest) {
            Some(s) => Ok(Backward { rest: st.rest.take(n - s.len()), out: s + st.out }),
            None => Ok(st),
        },
        Op::DeletionOptions(ps) => match first_suffix(ps, st.rest) {
            Some(s) => Ok(Backward { rest: st.rest.take(n - s.len()), out: st.out }),
            None => Ok(st),
        },
        Op::InsertionOptions(_) => Err(Failure::WithMessage),
    }
}

/// A backward replay of `ops` on `input`, instruction by instruction.
pub open spec fn backward_run(ops: Seq<Op>, input: Seq<char>) -> Result<Backward, Failure>
    decreases ops.len(),
{
    if ops.len() == 0 {
        Ok(Backward { rest: input, out: Seq::empty() })
    } else {
        match backward_run(ops.drop_last(), input) {
            Err(e) => Err(e),
            Ok(st) => backward_step(st, ops.last()),
        }
    }
}

/// An infix replay: at the start of `s`, try a forward replay; where it
/// matches, emit its output and go on after what it consumed (after one more
/// character, copied, where it consumed none); elsewhere copy one character
/// and go on. Also says whether any replay matched.
pub open spec fn infix(ops: Seq<Op>, s: Seq<char>) -> (Seq<char>, bool)
    decreases s.len(),
{
    if s.len() == 0 {
        (Seq::empty(), false)
    } else {
        match forward(ops, s) {
            Ok(st) => if st.rest.len() < s.len() {
                (st.out + infix(ops, s.skip(s.len() - st.rest.len())).0, true)
            } else {
                (st.out.push(s[0]) + infix(ops, s.skip(1)).0, true)
            },
            Err(_) => {
                let (r, m) = infix(ops, s.skip(1));
                (seq![s[0]] + r, m)
            },
        }
    }
}

/// The result of applying `ops` to `input` in `mode`.
pub open spec fn apply_ops(ops: Seq<Op>, mode: Mode, input: Seq<char>) -> Result<Seq<char>, Failure> {
    match mode {
        Mode::Normal | Mode::Prefix => match forward(ops, input) {
            Ok(st) => Ok(st.out),
            Err(e) => Err(e),
        },
        Mode::Suffix => match backward_run(ops, input) {
            Ok(st) => Ok(st.rest + st.out),
            Err(e) => Err(e),
        },
        Mode::Infix => {
            let (r, m) = infix(ops, input);
            if m {
                Ok(r)
            } else {
                Err(Failure::NoMatch)
            }
        },
    }
}

proof fn lemma_first_prefix_is_prefix(ps: Seq<Seq<char>>, t: Seq<char>)
    ensures
        first_prefix(ps, t) matches Some(p) ==> p.is_prefix_of(t),
    decreases ps.len(),
{
    if ps.len() > 0 {
        lemma_first_prefix_is_prefix(ps.drop_first(), t);
    }
}

proof fn lemma_first_suffix_is_suffix(ps: Seq<Seq<char>>, t: Seq<char>)
    ensures
        first_suffix(ps, t) matches Some(s) ==> s.is_suffix_of(t),
    decreases ps.len(),
{
    if ps.len() > 0 {
        lemma_first_suffix_is_suffix(ps.drop_first(), t);
    }
}

/// Whether `input` holds `p` from `pos` on.
fn matches_at(input: &[char], pos: usize, p: &[char]) -> (r: bool)
    requires
        pos <= input.len(),
    ensures
        r == p@.is_prefix_of(input@.skip(pos as int)),
{
    if p.len() > input.len() - pos {
        return false;
    }
    let mut i: usize = 0;
    while i < p.len()
        invariant
            i <= p.len(),
            p.len() <= input.len() - pos,
            forall|j: int| 0 <= j < i ==> p@[j] == input@[pos + j],
        decreases p.len() - i,
    {
        if p[i] != input[pos + i] {
            assert(input@.skip(pos as int).subrange(0, p.len() as int)[i as int] != p@[i as int]);
            return false;
        }
        i += 1;
    }
    assert(p@ =~= input@.skip(pos as int).subrange(0, p.len() as int));
    true
}

/// Whether `input` holds `s` just before `end`.
fn matches_before(input: &[char], end: usize, s: &[char]) -> (r: bool)
    requires
        end <= input.len(),
    ensures
        r == s@.is_suffix_of(input@.take(end as int)),
{
    if s.len() > end {
        return false;
    }
    let start = end - s.len();
    let mut i: usize = 0;
    while i < s.len()
        invariant
            i <= s.len(),
            start + s.len() == end,
            end <= input.len(),
            forall|j: int| 0 <= j < i ==> s@[j] == input@[start + j],
        decreases s.len() - i,
    {
        if s[i] != input[start + i] {
            assert(input@.take(end as int).subrange(start as int, end as int)[i as int] != s@[i as int]);
            return false;
        }
        i += 1;
    }
    assert(s@ =~= input@.take(end as int).subrange(start as int, end as int));
    true
}

/// The characters of each alternative.
fn alternatives(v: &Vec<String>) -> (r: Vec<Vec<char>>)
    ensures
        r@.len() == v@.len(),
        forall|i: int| 0 <= i < v@.len() ==> (#[trigger] r@[i])@ == v@[i]@,
{
    let mut r: Vec<Vec<char>> = Vec::new();
    let mut i: usize = 0;
    while i < v.len()
        invariant
            i <= v.len(),
            r@.len() == i,
            forall|j: int| 0 <= j < i ==> (#[trigger] r@[j])@ == v@[j]@,
        decreases v.len() - i,
    {
        r.push(chars_of(v[i].as_str()));
        i += 1;
    }
    r
}

/// The index of the first alternative that `input` holds from `pos` on.
fn find_prefix(ps: &Vec<String>, input: &[char], pos: usize) -> (r: Option<usize>)
    requires
        pos <= input.len(),
    ensures
        match r {
            Some(j) => j < ps@.len() && first_prefix(
                ps@.map_values(|s: String| s@),
                input@.skip(pos as int),
            ) == Some(ps@[j as int]@),
            None => first_prefix(ps@.map_values(|s: String| s@), input@.skip(pos as int)) is None,
        },
{
    let ghost all = ps@.map_values(|s: String| s@);
    let ghost t = input@.skip(pos as int);
    let alts = alternatives(ps);
    assert(all.skip(0) =~= all);
    let mut i: usize = 0;
    while i < alts.len()
        invariant
            i <= alts@.len(),
            alts@.len() == ps@.len(),
            all == ps@.map_values(|s: String| s@),
            t == input@.skip(pos as int),
            pos <= input.len(),
            forall|j: int| 0 <= j < ps@.len() ==> (#[trigger] alts@[j])@ == ps@[j]@,
            first_prefix(all, t) == first_prefix(all.skip(i as int), t),
        decreases alts.len() - i,
    {
        assert(all.skip(i as int)[0] == alts@[i as int]@);
        if matches_at(input, pos, alts[i].as_slice()) {
            return Some(i);
        }
        assert(all.skip(i as int).drop_first() =~= all.skip(i + 1));
        i += 1;
    }
    None
}

/// The index of the first alternative that `input` holds just before `end`.
fn find_suffix(ps: &Vec<String>, input: &[char], end: usize) -> (r: Option<usize>)
    requires
        end <= input.len(),
    ensures
        match r {
            Some(j) => j < ps@.len() && first_suffix(
                ps@.map_values(|s: String| s@),
                input@.take(end as int),
            ) == Some(ps@[j as int]@),
            None => first_suffix(ps@.map_values(|s: String| s@), input@.take(end as int)) is None,
        },
{
    let ghost all = ps@.map_values(|s: String| s@);
    let ghost t = input@.take(end as int);
    let alts = alternatives(ps);
    assert(all.skip(0) =~= all);
    let mut i: usize = 0;
    while i < alts.len()
        invariant
            i <= alts@.len(),
            alts@.len() == ps@.len(),
            all == ps@.map_values(|s: String| s@),
            t == input@.take(end as int),
            end <= input.len(),
            forall|j: int| 0 <= j < ps@.len() ==> (#[trigger] alts@[j])@ == ps@[j]@,
            first_suffix(all, t) == first_suffix(all.skip(i as int), t),
        decreases alts.len() - i,
    {
        assert(all.skip(i as int)[0] == alts@[i as int]@);
        if matches_before(input, end, alts[i].as_slice()) {
            return Some(i);
        }
        assert(all.skip(i as int).drop_first() =~= all.skip(i + 1));
        i += 1;
    }
    None
}

/// The characters of `input` from `from` up to `to`.
fn range_of(input: &[char], from: usize, to: usize) -> (r: Vec<char>)
    requires
        from <= to <= input.len(),
    ensures
        r@ == input@.subrange(from as int, to as int),
{
    let mut r: Vec<char> = Vec::new();
    let mut i: usize = from;
    while i < to
        invariant
            from <= i <= to,
            to <= input.len(),
            r@ == input@.subrange(from as int, i as int),
        decreases to - i,
    {
        r.push(input[i]);
        i += 1;
        assert(r@ =~= input@.subrange(from as int, i as int));
    }
    r
}

/// An error in a prefix of the instructions is the error of them all.
pub(crate) proof fn lemma_forward_error_stays(ops: Seq<Op>, input: Seq<char>, k: int)
    requires
        0 <= k <= ops.len(),
        forward_run(ops.take(k), input) is Err,
    ensures
        forward_run(ops, input) == forward_run(ops.take(k), input),
    decreases ops.len() - k,
{
    if k < ops.len() {
        assert(ops.take(k + 1).drop_last() =~= ops.take(k));
        lemma_forward_error_stays(ops, input, k + 1);
    } else {
        assert(ops.take(k) =~= ops);
    }
}

/// An error in a prefix of the instructions is the error of them all.
proof fn lemma_backward_error_stays(ops: Seq<Op>, input: Seq<char>, k: int)
    requires
        0 <= k <= ops.len(),
        backward_run(ops.take(k), input) is Err,
    ensures
        backward_run(ops, input) == backward_run(ops.take(k), input),
    decreases ops.len() - k,
{
    if k < ops.len() {
        assert(ops.take(k + 1).drop_last() =~= ops.take(k));
        lemma_backward_error_stays(ops, input, k + 1);
    } else {
        assert(ops.take(k) =~= ops);
    }
}

/// A forward replay of `ops` on `input` from `start` on: the output, and
/// where the input that it did not consume begins.
fn forward_from(ops: &Vec<EditInstruction>, input: &[char], start: usize) -> (r: Result<
    (Vec<char>, usize),
    ApplyError,
>)
    requires
        start <= input.len(),
    ensures
        match r {
            Ok((out, pos)) => {
                &&& start <= pos <= input.len()
                &&& forward(ops@.map_values(|i: EditInstruction| i@), input@.skip(start as int))
                    == Ok::<Forward, Failure>(
                    Forward { out: out@, rest: input@.skip(pos as int), matched: true },
                )
            },
            Err(e) => forward(ops@.map_values(|i: EditInstruction| i@), input@.skip(start as int))
                == Err::<Forward, Failure>(e.failure()),
        },
{
    let ghost all = ops@.map_values(|i: EditInstruction| i@);
    let ghost s = input@.skip(start as int);
    let mut out: Vec<char> = Vec::new();
    let mut pos: usize = start;
    let mut matched = false;
    let mut i: usize = 0;
    assert(input@.skip(start as int) =~= s);
    while i < ops.len()
        invariant
            i <= ops@.len(),
            start <= pos <= input.len(),
            all == ops@.map_values(|i: EditInstruction| i@),
            s == input@.skip(start as int),
            forward_run(all.take(i as int), s) == Ok::<Forward, Failure>(
                Forward { out: out@, rest: input@.skip(pos as int), matched },
            ),
        decreases ops.len() - i,
    {
        assert(all.take(i + 1).drop_last() =~= all.take(i as int));
        assert(all.take(i + 1).last() == ops@[i as int]@);
        let ghost rest = input@.skip(pos as int);
        match &ops[i] {
            EditInstruction::Deletion(p) => {
                let pc = chars_of(p.as_str());
                if matches_at(input, pos, pc.as_slice()) {
                    assert(rest.skip(pc@.len() as int) =~= input@.skip(pos + pc@.len()));
                    pos = pos + pc.len();
                    matched = true;
                } else {
                    proof { lemma_forward_error_stays(all, s, i + 1); }
                    return Err(ApplyError::NoMatch);
                }
            },
            EditInstruction::Insertion(t) => {
                let mut tc = chars_of(t.as_str());
                out.append(&mut tc);
                matched = true;
            },
            EditInstruction::GenericIdentity(n) => {
                let n = *n as usize;
                if n > input.len() - pos {
                    proof { lemma_forward_error_stays(all, s, i + 1); }
                    return Err(ApplyError::WithMessage(with_detail(
                        "Edit script does not match current word, length to keep is longer than what remains",
                        &[],
                    )));
                }
                let mut kept = range_of(input, pos, pos + n);
                assert(kept@ =~= rest.take(n as int));
                assert(rest.skip(n as int) =~= input@.skip(pos + n));
                out.append(&mut kept);
                pos = pos + n;
                matched = true;
            },
            EditInstruction::Identity(p) => {
                let mut pc = chars_of(p.as_str());
                if matches_at(input, pos, pc.as_slice()) {
                    assert(rest.skip(pc@.len() as int) =~= input@.skip(pos + pc@.len()));
                    pos = pos + pc.len();
                    out.append(&mut pc);
                    matched = true;
                } else {
                    proof { lemma_forward_error_stays(all, s, i + 1); }
                    return Err(ApplyError::NoMatch);
                }
            },
            EditInstruction::IdentityOptions(ps) => {
                let found = find_prefix(ps, input, pos);
                proof { lemma_first_prefix_is_prefix(ps@.map_values(|s: String| s@), rest); }
                match found {
                    Some(j) => {
                        let mut pc = chars_of(ps[j].as_str());
                        assert(rest.skip(pc@.len() as int) =~= input@.skip(pos + pc@.len()));
                        pos = pos + pc.len();
                        out.append(&mut pc);
                        matched = true;
                    },
                    None => {},
                }
            },
            EditInstruction::DeletionOptions(ps) => {
                let found = find_prefix(ps, input, pos);
                proof { lemma_first_prefix_is_prefix(ps@.map_values(|s: String| s@), rest); }
                match found {
                    Some(j) => {
                        let pc = chars_of(ps[j].as_str());
                        assert(rest.skip(pc@.len() as int) =~= input@.skip(pos + pc@.len()));
                        pos = pos + pc.len();
                        matched = true;
                    },
                    None => {},
                }
            },
            EditInstruction::InsertionOptions(_) => {
                proof { lemma_forward_error_stays(all, s, i + 1); }
                return Err(ApplyError::WithMessage(with_detail(
                    "Edit script has multiple insertion options and is therefore ambiguous, unable to apply",
                    &[],
                )));
            },
        }
        i += 1;
    }
    assert(all.take(ops@.len() as int) =~= all);
    if matched {
        Ok((out, pos))
    } else {
        Err(ApplyError::NoMatch)
    }
}

/// A backward replay of `ops` on `input`: the text that results.
fn backward_apply(ops: &Vec<EditInstruction>, input: &[char]) -> (r: Result<Vec<char>, ApplyError>)
    ensures
        match r {
            Ok(o) => backward_run(ops@.map_values(|i: EditInstruction| i@), input@) matches Ok(st)
                && o@ == st.rest + st.out,
            Err(e) => backward_run(ops@.map_values(|i: EditInstruction| i@), input@)
                == Err::<Backward, Failure>(e.failure()),
        },
{
    let ghost all = ops@.map_values(|i: EditInstruction| i@);
    let mut out: Vec<char> = Vec::new();
    let mut end: usize = input.len();
    let mut i: usize = 0;
    assert(input@.take(input@.len() as int) =~= input@);
    while i < ops.len()
        invariant
            i <= ops@.len(),
            end <= input.len(),
            all == ops@.map_values(|i: EditInstruction| i@),
            backward_run(all.take(i as int), input@) == Ok::<Backward, Failure>(
                Backward { rest: input@.take(end as int), out: out@ },
            ),
        decreases ops.len() - i,
    {
        assert(all.take(i + 1).drop_last() =~= all.take(i as int));
        assert(all.take(i + 1).last() == ops@[i as int]@);
        let ghost rest = input@.take(end as int);
        match &ops[i] {
            EditInstruction::Deletion(p) => {
                let pc = chars_of(p.as_str());
                if matches_before(input, end, pc.as_slice()) {
                    assert(rest.take(end - pc@.len()) =~= input@.take(end - pc@.len()));
                    end = end - pc.len();
                } else {
                    proof { lemma_backward_error_stays(all, input@, i + 1); }
                    return Err(ApplyError::WithMessage(with_detail(
                        "Edit script does not match current word, unable to find and remove suffix ",
                        pc.as_slice(),
                    )));
                }
            },
            EditInstruction::Insertion(t) => {
                let tc = chars_of(t.as_str());
                out = concat(tc.as_slice(), out.as_slice());
            },
            EditInstruction::GenericIdentity(n) => {
                let n = *n as usize;
                if n > end {
                    proof { lemma_backward_error_stays(all, input@, i + 1); }
                    return Err(ApplyError::WithMessage(with_detail(
                        "Edit script does not match current word, length to keep is longer than head",
                        &[],
                    )));
                }
                let kept = range_of(input, end - n, end);
                assert(kept@ =~= rest.skip(end - n));
                assert(rest.take(end - n) =~= input@.take(end - n));
                out = concat(kept.as_slice(), out.as_slice());
                end = end - n;
            },
            EditInstruction::Identity(p) => {
                let pc = chars_of(p.as_str());
                if matches_before(input, end, pc.as_slice()) {
                    assert(rest.take(end - pc@.len()) =~= input@.take(end - pc@.len()));
                    end = end - pc.len();
                    out = concat(pc.as_slice(), out.as_slice());
                } else {
                    proof { lemma_backward_error_stays(all, input@, i + 1); }
                    return Err(ApplyError::WithMessage(with_detail(
                        "Edit script does not match current word, unable to find and keep suffix ",
                        pc.as_slice(),
                    )));
                }
            },
            EditInstruction::IdentityOptions(ps) => {
                let found = find_suffix(ps, input, end);
                proof { lemma_first_suffix_is_suffix(ps@.map_values(|s: String| s@), rest); }
                match found {
                    Some(j) => {
                        let pc = chars_of(ps[j].as_str());
                        assert(rest.take(end - pc@.len()) =~= input@.take(end - pc@.len()));
                        end = end - pc.len();
                        out = concat(pc.as_slice(), out.as_slice());
                    },
                    None => {},
                }
            },
            EditInstruction::DeletionOptions(ps) => {
                let found = find_suffix(ps, input, end);
                proof { lemma_first_suffix_is_suffix(ps@.map_values(|s: String| s@), rest); }
                match found {
                    Some(j) => {
                        let pc = chars_of(ps[j].as_str());
                        assert(rest.take(end - pc@.len()) =~= input@.take(end - pc@.len()));
                        end = end - pc.len();
                    },
                    None => {},
                }
            },
            EditInstruction::InsertionOptions(_) => {
                proof { lemma_backward_error_stays(all, input@, i + 1); }
                return Err(ApplyError::WithMessage(with_detail(
                    "Edit script has multiple insertion options and is therefore ambiguous, unable to apply",
                    &[],
                )));
            },
        }
        i += 1;
    }
    assert(all.take(ops@.len() as int) =~= all);
    let head = range_of(input, 0, end);
    assert(head@ =~= input@.take(end as int));
    Ok(concat(head.as_slice(), out.as_slice()))
}

/// An infix replay of `ops` on `input`, and whether it matched anywhere.
fn infix_apply(ops: &Vec<EditInstruction>, input: &[char]) -> (r: (Vec<char>, bool))
    ensures
        (r.0@, r.1) == infix(ops@.map_values(|i: EditInstruction| i@), input@),
{
    let ghost all = ops@.map_values(|i: EditInstruction| i@);
    let mut out: Vec<char> = Vec::new();
    let mut any = false;
    let mut pos: usize = 0;
    assert(input@.skip(0) =~= input@);
    while pos < input.len()
        invariant
            pos <= input.len(),
            all == ops@.map_values(|i: EditInstruction| i@),
            infix(all, input@).0 == out@ + infix(all, input@.skip(pos as int)).0,
            infix(all, input@).1 == (any || infix(all, input@.skip(pos as int)).1),
        decreases input.len() - pos,
    {
        let ghost s = input@.skip(pos as int);
        let ghost out0 = out@;
        assert(s[0] == input@[pos as int]);
        assert(s.skip(1) =~= input@.skip(pos + 1));
        match forward_from(ops, input, pos) {
            Ok((found, next)) => {
                let mut found = found;
                out.append(&mut found);
                if next > pos {
                    assert(s.skip(s.len() - input@.skip(next as int).len()) =~= input@.skip(
                        next as int,
                    ));
                    pos = next;
                } else {
                    out.push(input[pos]);
                    pos = pos + 1;
                }
                any = true;
            },
            Err(_) => {
                out.push(input[pos]);
                pos = pos + 1;
            },
        }
        assert(out@ + infix(all, input@.skip(pos as int)).0 =~= out0 + infix(all, s).0);
    }
    (out, any)
}

/// Replays an edit script on an input.
pub trait ApplyEditScript {
    /// The result of applying this script to `input`, in `mode` where it is
    /// given and else in the script's own mode.
    spec fn applied(&self, input: Seq<char>, mode: Option<Mode>) -> Result<Seq<char>, Failure>;

    /// Applies this script to `input`, in `mode` where it is given and else in
    /// the script's own mode.
    fn apply_to(&self, input: &str, mode: Option<Mode>) -> (r: Result<String, ApplyError>)
        ensures
            match r {
                Ok(o) => self.applied(input@, mode) == Ok::<Seq<char>, Failure>(o@),
                Err(e) => self.applied(input@, mode) == Err::<Seq<char>, Failure>(e.failure()),
            },
    ;
}

/// The mode that an application runs in.
pub open spec fn effective_mode(own: Mode, given: Option<Mode>) -> Mode {
    match given {
        Some(m) => m,
        None => own,
    }
}

impl ApplyEditScript for EditScript {
    open spec fn applied(&self, input: Seq<char>, mode: Option<Mode>) -> Result<Seq<char>, Failure> {
        apply_ops(self.ops(), effective_mode(self.mode, mode), input)
    }

    fn apply_to(&self, input: &str, mode: Option<Mode>) -> (r: Result<String, ApplyError>) {
        let mode = match mode {
            Some(m) => m,
            None => self.mode,
        };
        let cs = chars_of(input);
        match mode {
            Mode::Normal | Mode::Prefix => match forward_from(&self.instructions, cs.as_slice(), 0) {
                Ok((out, _)) => {
                    assert(cs@.skip(0) =~= cs@);
                    Ok(string_of(out.as_slice()))
                },
                Err(e) => {
                    assert(cs@.skip(0) =~= cs@);
                    Err(e)
                },
            },
            Mode::Suffix => match backward_apply(&self.instructions, cs.as_slice()) {
                Ok(out) => Ok(string_of(out.as_slice())),
                Err(e) => Err(e),
            },
            Mode::Infix => {
                let (out, any) = infix_apply(&self.instructions, cs.as_slice());
                if any {
                    Ok(string_of(out.as_slice()))
                } else {
                    Err(ApplyError::NoMatch)
                }
            },
        }
    }
}

} // verus!
