//! Laws that relate building, printing, parsing and applying edit scripts.
use vstd::prelude::*;
use crate::apply::{apply_ops, forward_run, lemma_forward_error_stays, Forward};
use crate::builder::{chunk_op, chunk_ops, new_side, old_side, ChunkKind, ChunkView};
use crate::format::{decimal, digit, join, op_char, op_text, ops_text, payload_text};
use crate::parse::{
    digit_value, digits_value, generic_length, is_digit, parse_text, parse_token, parse_tokens,
    split, tokens,
};
use crate::script::{Failure, Mode, Op};

verus! {

/// A literal that the text form can carry: no `]`, and no `|`.
pub open spec fn plain(s: Seq<char>) -> bool {
    !s.contains(']') && !s.contains('|')
}

/// An instruction whose text form reads back as itself: literals are plain
/// and not empty, an identity literal does not look like `#<digits>`, and an
/// option list has at least two alternatives.
pub open spec fn printable(op: Op) -> bool {
    match op {
        Op::Insertion(s) | Op::Deletion(s) => s.len() > 0 && plain(s),
        Op::Identity(s) => s.len() > 0 && plain(s) && generic_length(s) is None,
        Op::GenericIdentity(_) => true,
        Op::InsertionOptions(v) | Op::DeletionOptions(v) | Op::IdentityOptions(v) => plain_options(v),
    }
}

/// At least two alternatives, all of them plain.
pub open spec fn plain_options(v: Seq<Seq<char>>) -> bool {
    v.len() >= 2 && forall|i: int| 0 <= i < v.len() ==> plain(#[trigger] v[i])
}

proof fn lemma_digit(d: nat)
    requires
        d < 10,
    ensures
        is_digit(digit(d)),
        digit_value(digit(d)) == d,
{
    if d == 0 {
        assert(digit(d) == '0');
    } else if d == 1 {
        assert(digit(d) == '1');
    } else if d == 2 {
        assert(digit(d) == '2');
    } else if d == 3 {
        assert(digit(d) == '3');
    } else if d == 4 {
        assert(digit(d) == '4');
    } else if d == 5 {
        assert(digit(d) == '5');
    } else if d == 6 {
        assert(digit(d) == '6');
    } else if d == 7 {
        assert(digit(d) == '7');
    } else if d == 8 {
        assert(digit(d) == '8');
    } else {
        assert(digit(d) == '9');
    }
}

/// The decimal notation of `n` is made of digits, and denotes `n`.
proof fn lemma_decimal(n: nat)
    ensures
        decimal(n).len() >= 1,
        forall|i: int| 0 <= i < decimal(n).len() ==> is_digit(#[trigger] decimal(n)[i]),
        digits_value(decimal(n)) == n,
    decreases n,
{
    assert(digits_value(Seq::<char>::empty()) == 0);
    if n < 10 {
        lemma_digit(n);
        assert(decimal(n).drop_last() =~= Seq::<char>::empty());
        assert(decimal(n).last() == digit(n));
    } else {
        lemma_decimal(n / 10);
        lemma_digit(n % 10);
        assert(decimal(n).drop_last() =~= decimal(n / 10));
        assert(decimal(n).last() == digit(n % 10));
        assert(n == (n / 10) * 10 + n % 10) by (nonlinear_arith);
    }
}

/// Splitting a text without separators gives that text alone.
proof fn lemma_split_plain(x: Seq<char>, sep: char)
    requires
        !x.contains(sep),
    ensures
        split(x, sep) == seq![x],
    decreases x.len(),
{
    if x.len() > 0 {
        assert(!x.drop_last().contains(sep)) by {
            if x.drop_last().contains(sep) {
                let i = choose|i: int| 0 <= i < x.drop_last().len() && x.drop_last()[i] == sep;
                assert(x[i] == sep);
            }
        }
        assert(x[x.len() - 1] != sep);
        lemma_split_plain(x.drop_last(), sep);
        assert(x.drop_last().push(x.last()) =~= x);
        assert(split(x, sep) =~= seq![x]);
    } else {
        assert(x =~= Seq::<char>::empty());
        assert(split(x, sep) =~= seq![x]);
    }
}

/// Splitting `a`, a separator and a text without separators gives the
/// pieces of `a` and then that text.
proof fn lemma_split_after(a: Seq<char>, x: Seq<char>, sep: char)
    requires
        !x.contains(sep),
    ensures
        split(a.push(sep) + x, sep) == split(a, sep).push(x),
    decreases x.len(),
{
    if x.len() == 0 {
        assert(a.push(sep) + x =~= a.push(sep));
        assert(a.push(sep).drop_last() =~= a);
        assert(x =~= Seq::<char>::empty());
        assert(a.push(sep).last() == sep);
    } else {
        assert(!x.drop_last().contains(sep)) by {
            if x.drop_last().contains(sep) {
                let i = choose|i: int| 0 <= i < x.drop_last().len() && x.drop_last()[i] == sep;
                assert(x[i] == sep);
            }
        }
        assert(x[x.len() - 1] != sep);
        lemma_split_after(a, x.drop_last(), sep);
        assert((a.push(sep) + x).drop_last() =~= a.push(sep) + x.drop_last());
        assert((a.push(sep) + x).last() == x.last());
        assert(x.drop_last().push(x.last()) =~= x);
        assert(split(a.push(sep) + x, sep) =~= split(a, sep).push(x));
    }
}

/// Joining pieces without separators and splitting again gives the pieces.
proof fn lemma_split_join(v: Seq<Seq<char>>, sep: char)
    requires
        v.len() >= 1,
        forall|i: int| 0 <= i < v.len() ==> !(#[trigger] v[i]).contains(sep),
    ensures
        split(join(v, sep), sep) == v,
    decreases v.len(),
{
    if v.len() == 1 {
        lemma_split_plain(v[0], sep);
        assert(seq![v[0]] =~= v);
    } else {
        lemma_split_join(v.drop_last(), sep);
        lemma_split_after(join(v.drop_last(), sep), v.last(), sep);
        assert(v.drop_last().push(v.last()) =~= v);
    }
}

/// A character that no piece holds, and that is not the separator, is not in
/// their join.
proof fn lemma_join_lacks(v: Seq<Seq<char>>, sep: char, c: char)
    requires
        c != sep,
        forall|i: int| 0 <= i < v.len() ==> !(#[trigger] v[i]).contains(c),
    ensures
        !join(v, sep).contains(c),
    decreases v.len(),
{
    if v.len() >= 2 {
        lemma_join_lacks(v.drop_last(), sep, c);
        let j = join(v.drop_last(), sep).push(sep);
        let l = v.last();
        assert(!l.contains(c));
        if join(v, sep).contains(c) {
            let i = choose|i: int| 0 <= i < join(v, sep).len() && join(v, sep)[i] == c;
            if i < j.len() {
                if i < j.len() - 1 {
                    assert(join(v.drop_last(), sep)[i] == c);
                }
            } else {
                assert(l[i - j.len()] == c);
            }
        }
    } else if v.len() == 1 {
        assert(!v[0].contains(c));
    }
}

/// Two or more pieces joined hold the separator.
proof fn lemma_join_has_sep(v: Seq<Seq<char>>, sep: char)
    requires
        v.len() >= 2,
    ensures
        join(v, sep).contains(sep),
{
    let j = join(v.drop_last(), sep);
    assert(join(v, sep)[j.len() as int] == sep);
}

/// A payload that holds a character that is not a digit past its first is
/// no generic length.
proof fn lemma_not_generic(p: Seq<char>, i: int)
    requires
        0 <= i < p.len(),
        !is_digit(p[i]),
        i >= 1 || p[0] != '#',
    ensures
        generic_length(p) is None,
{
}

proof fn lemma_options_text(v: Seq<Seq<char>>)
    requires
        plain_options(v),
    ensures
        join(v, '|').len() >= 1,
        !join(v, '|').contains(']'),
        join(v, '|').contains('|'),
        split(join(v, '|'), '|') == v,
        generic_length(join(v, '|')) is None,
{
    assert forall|i: int| 0 <= i < v.len() implies !(#[trigger] v[i]).contains(']') && !v[i].contains('|') by {
        assert(plain(v[i]));
    }
    lemma_join_lacks(v, '|', ']');
    lemma_join_has_sep(v, '|');
    lemma_split_join(v, '|');
    let p = join(v, '|');
    let i = choose|i: int| 0 <= i < p.len() && p[i] == '|';
    lemma_not_generic(p, i);
}

proof fn lemma_payload(op: Op)
    requires
        printable(op),
    ensures
        payload_text(op).len() >= 1,
        !payload_text(op).contains(']'),
        payload_text(op).contains('|') <==> (op is InsertionOptions || op is DeletionOptions
            || op is IdentityOptions),
{
    match op {
        Op::GenericIdentity(n) => {
            lemma_decimal(n as nat);
            let p = payload_text(op);
            assert(p =~= seq!['#'] + decimal(n as nat));
            assert forall|c: char| p.contains(c) implies c == '#' || is_digit(c) by {
                let i = choose|i: int| 0 <= i < p.len() && p[i] == c;
                if i > 0 {
                    assert(p[i] == decimal(n as nat)[i - 1]);
                }
            }
            assert(!is_digit(']') && !is_digit('|'));
        },
        Op::InsertionOptions(v) => lemma_options_text(v),
        Op::DeletionOptions(v) => lemma_options_text(v),
        Op::IdentityOptions(v) => lemma_options_text(v),
        _ => {},
    }
}

/// Each printable instruction reads back as itself from its text form.
proof fn lemma_token_round_trip(op: Op)
    requires
        printable(op),
    ensures
        parse_token(op_text(op)) == Some(op),
{
    lemma_payload(op);
    let tok = op_text(op);
    let p = payload_text(op);
    assert(tok.subrange(2, tok.len() - 1) =~= p);
    assert(tok[0] == op_char(op));
    assert(tok[1] == '[');
    match op {
        Op::GenericIdentity(n) => {
            lemma_decimal(n as nat);
            assert(p.skip(1) =~= decimal(n as nat));
            assert forall|i: int| 1 <= i < p.len() implies is_digit(#[trigger] p[i]) by {
                assert(p[i] == decimal(n as nat)[i - 1]);
            }
        },
        Op::InsertionOptions(v) => lemma_options_text(v),
        Op::DeletionOptions(v) => lemma_options_text(v),
        Op::IdentityOptions(v) => lemma_options_text(v),
        _ => {},
    }
}

/// Tokens of a text followed by characters other than `]`.
proof fn lemma_tokens_extend(a: Seq<char>, x: Seq<char>)
    requires
        !x.contains(']'),
    ensures
        tokens(a + x) == (tokens(a).0, tokens(a).1 + x),
    decreases x.len(),
{
    if x.len() == 0 {
        assert(a + x =~= a);
        assert(tokens(a).1 + x =~= tokens(a).1);
    } else {
        assert(!x.drop_last().contains(']')) by {
            if x.drop_last().contains(']') {
                let i = choose|i: int| 0 <= i < x.drop_last().len() && x.drop_last()[i] == ']';
                assert(x[i] == ']');
            }
        }
        assert(x[x.len() - 1] != ']');
        lemma_tokens_extend(a, x.drop_last());
        assert((a + x).drop_last() =~= a + x.drop_last());
        assert((tokens(a).1 + x.drop_last()).push(x.last()) =~= tokens(a).1 + x);
    }
}

/// The tokens of a list of printable instructions' text are their texts.
proof fn lemma_tokens_of_text(ops: Seq<Op>)
    requires
        forall|i: int| 0 <= i < ops.len() ==> printable(#[trigger] ops[i]),
    ensures
        tokens(ops_text(ops)) == (ops.map_values(|op: Op| op_text(op)), Seq::<char>::empty()),
    decreases ops.len(),
{
    if ops.len() > 0 {
        let op = ops.last();
        assert(printable(ops[ops.len() - 1]));
        assert forall|i: int| 0 <= i < ops.drop_last().len() implies printable(
            #[trigger] ops.drop_last()[i],
        ) by {
            assert(printable(ops[i]));
        }
        lemma_tokens_of_text(ops.drop_last());
        lemma_payload(op);
        let a = ops_text(ops.drop_last());
        let body = seq![op_char(op), '['] + payload_text(op);
        assert(!body.contains(']')) by {
            if body.contains(']') {
                let i = choose|i: int| 0 <= i < body.len() && body[i] == ']';
                assert(i >= 2);
                assert(payload_text(op)[i - 2] == ']');
            }
        }
        lemma_tokens_extend(a, body);
        assert(ops_text(ops) =~= (a + body).push(']'));
        assert((a + body).push(']').drop_last() =~= a + body);
        assert(Seq::<char>::empty() + body =~= body);
        assert(body.push(']') =~= op_text(op));
        assert(ops.map_values(|op: Op| op_text(op)) =~= ops.drop_last().map_values(
            |op: Op| op_text(op),
        ).push(op_text(op)));
    }
}

proof fn lemma_parse_texts(ops: Seq<Op>)
    requires
        forall|i: int| 0 <= i < ops.len() ==> printable(#[trigger] ops[i]),
    ensures
        parse_tokens(ops.map_values(|op: Op| op_text(op))) == Some(ops),
    decreases ops.len(),
{
    if ops.len() > 0 {
        assert forall|i: int| 0 <= i < ops.drop_last().len() implies printable(
            #[trigger] ops.drop_last()[i],
        ) by {
            assert(printable(ops[i]));
        }
        lemma_parse_texts(ops.drop_last());
        assert(printable(ops[ops.len() - 1]));
        lemma_token_round_trip(ops.last());
        assert(ops.map_values(|op: Op| op_text(op)).drop_last() =~= ops.drop_last().map_values(
            |op: Op| op_text(op),
        ));
        assert(ops.drop_last().push(ops.last()) =~= ops);
    }
}

/// Printing a non-empty list of printable instructions and parsing the text
/// gives the same instructions back (a parsed script's distance is then the
/// number of its change-bearing instructions, and its mode `Normal`).
pub proof fn lemma_round_trip(ops: Seq<Op>)
    requires
        ops.len() > 0,
        forall|i: int| 0 <= i < ops.len() ==> printable(#[trigger] ops[i]),
    ensures
        parse_text(ops_text(ops)) == Some(ops),
{
    lemma_tokens_of_text(ops);
    lemma_parse_texts(ops);
}

/// Replaying the instructions of whole diff chunks (none left out, none
/// generic) on a text that begins with their old side consumes that side
/// and yields their new side.
proof fn lemma_forward_chunks(cs: Seq<ChunkView>, z: Seq<char>)
    ensures
        forward_run(chunk_ops(cs, false, false, false), old_side(cs) + z) == Ok::<
            Forward,
            Failure,
        >(Forward { out: new_side(cs), rest: z, matched: cs.len() > 0 }),
    decreases cs.len(),
{
    let ops = chunk_ops(cs, false, false, false);
    if cs.len() == 0 {
        assert(old_side(cs) + z =~= z);
    } else {
        let c = cs.last();
        let taken = if c.0 != ChunkKind::Insert { c.1 } else { Seq::empty() };
        lemma_forward_chunks(cs.drop_last(), taken + z);
        assert(old_side(cs.drop_last()) + (taken + z) =~= old_side(cs) + z);
        assert(ops.drop_last() =~= chunk_ops(cs.drop_last(), false, false, false));
        assert(ops.last() == chunk_op(c, false, false));
        let before = Forward { out: new_side(cs.drop_last()), rest: taken + z, matched: cs.len() > 1 };
        assert(forward_run(ops.drop_last(), old_side(cs) + z) == Ok::<Forward, Failure>(before));
        if c.0 != ChunkKind::Insert {
            assert((c.1 + z).subrange(0, c.1.len() as int) =~= c.1);
            assert((c.1 + z).skip(c.1.len() as int) =~= z);
        } else {
            assert(taken + z =~= z);
        }
    }
}

/// Applying, in `Normal` mode, the script of whole diff chunks (none left
/// out, none generic) to the text they delete from gives the text they
/// build; the one exception is a diff of two empty texts, whose empty script
/// matches nothing.
pub proof fn lemma_apply_inverts_build(cs: Seq<ChunkView>)
    requires
        old_side(cs).len() + new_side(cs).len() > 0,
    ensures
        apply_ops(chunk_ops(cs, false, false, false), Mode::Normal, old_side(cs)) == Ok::<
            Seq<char>,
            Failure,
        >(new_side(cs)),
{
    lemma_forward_chunks(cs, Seq::empty());
    assert(old_side(cs) + Seq::<char>::empty() =~= old_side(cs));
}

/// The literal that a deletion or an identity requires of the input.
pub open spec fn required_literal(op: Op) -> Option<Seq<char>> {
    match op {
        Op::Deletion(p) | Op::Identity(p) => Some(p),
        _ => None,
    }
}

/// A script that begins by deleting or keeping a literal that the input does
/// not begin with fails, in `Normal` mode, with `NoMatch`.
pub proof fn lemma_unmatched_start_fails(ops: Seq<Op>, input: Seq<char>)
    requires
        ops.len() > 0,
        required_literal(ops[0]) matches Some(p) && !p.is_prefix_of(input),
    ensures
        apply_ops(ops, Mode::Normal, input) == Err::<Seq<char>, Failure>(Failure::NoMatch),
{
    let first = ops.take(1);
    assert(first.drop_last() =~= Seq::<Op>::empty());
    assert(first.last() == ops[0]);
    let start = Forward { out: Seq::empty(), rest: input, matched: false };
    assert(forward_run(first.drop_last(), input) == Ok::<Forward, Failure>(start));
    assert(forward_run(first, input) == Err::<Forward, Failure>(Failure::NoMatch));
    lemma_forward_error_stays(ops, input, 1);
}

} // verus!
