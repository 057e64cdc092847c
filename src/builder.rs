//! Building edit scripts from the chunks of a character diff.
use vstd::prelude::*;
use crate::apply::apply_ops;
use crate::laws::lemma_apply_inverts_build;
use crate::script::{EditInstruction, EditScript, Failure, Mode, Op};
use crate::text::{chars_of, reversed, string_of};

verus! {

/// What a diff chunk says of its text.
#[derive(Copy, Clone, Debug, PartialEq, Eq, Structural)]
pub enum ChunkKind {
    Equal,
    Delete,
    Insert,
}

/// A diff chunk as the contracts see it: its kind and its characters.
pub type ChunkView = (ChunkKind, Seq<char>);

/// The chunks of the character diff from `a` to `b`.
pub uninterp spec fn diff_chunks(a: Seq<char>, b: Seq<char>) -> Seq<(ChunkKind, Seq<char>)>;

/// The text that the equal and deleted chunks spell, in order.
pub open spec fn old_side(cs: Seq<ChunkView>) -> Seq<char>
    decreases cs.len(),
{
    if cs.len() == 0 {
        Seq::empty()
    } else {
        old_side(cs.drop_last()) + if cs.last().0 != ChunkKind::Insert {
            cs.last().1
        } else {
            Seq::empty()
        }
    }
}

/// The text that the equal and inserted chunks spell, in order.
pub open spec fn new_side(cs: Seq<ChunkView>) -> Seq<char>
    decreases cs.len(),
{
    if cs.len() == 0 {
        Seq::empty()
    } else {
        new_side(cs.drop_last()) + if cs.last().0 != ChunkKind::Delete {
            cs.last().1
        } else {
            Seq::empty()
        }
    }
}

pub open spec fn chunks_view(v: Seq<(ChunkKind, String)>) -> Seq<ChunkView> {
    v.map_values(|c: (ChunkKind, String)| (c.0, c.1@))
}

/// Relies on `dissimilar::diff`: the chunks in order, the equal and deleted
/// ones spelling out `a`, the equal and inserted ones spelling out `b`.
#[verifier::external_body]
fn diff(a: &str, b: &str) -> (r: Vec<(ChunkKind, String)>)
    ensures
        chunks_view(r@) == diff_chunks(a@, b@),
        old_side(chunks_view(r@)) == a@,
        new_side(chunks_view(r@)) == b@,
{
    dissimilar::diff(a, b)
        .into_iter()
        .map(|c| match c {
            dissimilar::Chunk::Equal(s) => (ChunkKind::Equal, s.to_string()),
            dissimilar::Chunk::Delete(s) => (ChunkKind::Delete, s.to_string()),
            dissimilar::Chunk::Insert(s) => (ChunkKind::Insert, s.to_string()),
        })
        .collect()
}

/// The number of equal chunks at the end of `cs`.
pub open spec fn trailing_equals(cs: Seq<ChunkView>) -> nat
    decreases cs.len(),
{
    if cs.len() == 0 || cs.last().0 != ChunkKind::Equal {
        0
    } else {
        trailing_equals(cs.drop_last()) + 1
    }
}

/// The chunks that a script states: all of them, or, where `trim` is asked
/// for, all but the run of equal chunks at the end.
pub open spec fn kept(cs: Seq<ChunkView>, trim: bool) -> Seq<ChunkView> {
    if trim {
        cs.take(cs.len() - trailing_equals(cs))
    } else {
        cs
    }
}

/// Whether `c` undoes a change of the same length that `p` made: a deletion
/// after an insertion, or an insertion after a deletion.
pub open spec fn is_partner(p: ChunkView, c: ChunkView) -> bool {
    &&& c.1.len() > 0
    &&& p.1.len() == c.1.len()
    &&& ((p.0 == ChunkKind::Insert && c.0 == ChunkKind::Delete) || (p.0 == ChunkKind::Delete
        && c.0 == ChunkKind::Insert))
}

/// What chunk `c`, after `prev`, adds to the distance: nothing for an equal
/// chunk or for a substitution partner where substitutions are allowed, its
/// length otherwise.
pub open spec fn chunk_cost(prev: Option<ChunkView>, c: ChunkView, allow_substitutions: bool) -> nat {
    if c.0 == ChunkKind::Equal {
        0
    } else if allow_substitutions && (prev matches Some(p) && is_partner(p, c)) {
        0
    } else {
        c.1.len()
    }
}

/// The distance of a chunk sequence.
pub open spec fn distance(cs: Seq<ChunkView>, allow_substitutions: bool) -> nat
    decreases cs.len(),
{
    if cs.len() == 0 {
        0
    } else {
        let prev = if cs.len() >= 2 { Some(cs[cs.len() - 2]) } else { None };
        distance(cs.drop_last(), allow_substitutions) + chunk_cost(
            prev,
            cs.last(),
            allow_substitutions,
        )
    }
}

/// The instruction for chunk `c`: its text read backwards where `reversed`,
/// and an equal chunk given by its length alone where `generic`.
pub open spec fn chunk_op(c: ChunkView, generic: bool, reversed: bool) -> Op {
    let text = if reversed { c.1.reverse() } else { c.1 };
    match c.0 {
        ChunkKind::Equal => if generic {
            Op::GenericIdentity(c.1.len() as u32)
        } else {
            Op::Identity(text)
        },
        ChunkKind::Delete => Op::Deletion(text),
        ChunkKind::Insert => Op::Insertion(text),
    }
}

/// The instructions for the chunks that a script states.
pub open spec fn chunk_ops(cs: Seq<ChunkView>, trim: bool, generic: bool, reversed: bool) -> Seq<Op> {
    kept(cs, trim).map_values(|c: ChunkView| chunk_op(c, generic, reversed))
}

/// Whether a script built for `mode` leaves out the equal chunks at the end
/// of the diff.
pub open spec fn trims(mode: Mode) -> bool {
    mode == Mode::Prefix || mode == Mode::Suffix
}

proof fn lemma_sides_grow(cs: Seq<ChunkView>, k: int)
    requires
        0 <= k <= cs.len(),
    ensures
        old_side(cs.take(k)).len() <= old_side(cs).len(),
        new_side(cs.take(k)).len() <= new_side(cs).len(),
    decreases cs.len() - k,
{
    if k < cs.len() {
        assert(cs.take(k + 1).drop_last() =~= cs.take(k));
        lemma_sides_grow(cs, k + 1);
    } else {
        assert(cs.take(k) =~= cs);
    }
}

proof fn lemma_distance_bound(cs: Seq<ChunkView>, allow_substitutions: bool)
    ensures
        distance(cs, allow_substitutions) <= old_side(cs).len() + new_side(cs).len(),
    decreases cs.len(),
{
    if cs.len() > 0 {
        lemma_distance_bound(cs.drop_last(), allow_substitutions);
    }
}

/// Each chunk is no longer than the two texts together.
proof fn lemma_chunk_bound(cs: Seq<ChunkView>, i: int)
    requires
        0 <= i < cs.len(),
    ensures
        cs[i].1.len() <= old_side(cs).len() + new_side(cs).len(),
{
    lemma_sides_grow(cs, i + 1);
    assert(cs.take(i + 1).drop_last() =~= cs.take(i));
}

proof fn lemma_views_push(v: Seq<EditInstruction>, x: EditInstruction)
    ensures
        v.push(x).map_values(|i: EditInstruction| i@) == v.map_values(|i: EditInstruction| i@).push(
            x@,
        ),
{
    assert(v.push(x).map_values(|i: EditInstruction| i@) =~= v.map_values(
        |i: EditInstruction| i@,
    ).push(x@));
}

proof fn lemma_ops_push(cs: Seq<ChunkView>, c: ChunkView, generic: bool, reverse: bool)
    ensures
        cs.push(c).map_values(|c: ChunkView| chunk_op(c, generic, reverse)) == cs.map_values(
            |c: ChunkView| chunk_op(c, generic, reverse),
        ).push(chunk_op(c, generic, reverse)),
{
    assert(cs.push(c).map_values(|c: ChunkView| chunk_op(c, generic, reverse)) =~= cs.map_values(
        |c: ChunkView| chunk_op(c, generic, reverse),
    ).push(chunk_op(c, generic, reverse)));
}

fn chunk_instruction(kind: ChunkKind, text: &String, generic: bool, reverse: bool) -> (r:
    EditInstruction)
    requires
        text@.len() <= u32::MAX,
    ensures
        r@ == chunk_op((kind, text@), generic, reverse),
{
    let cs = chars_of(text.as_str());
    let payload = if reverse { reversed(cs.as_slice()) } else { cs.clone() };
    assert(reverse ==> payload@ == text@.reverse());
    match kind {
        ChunkKind::Equal => if generic {
            EditInstruction::GenericIdentity(cs.len() as u32)
        } else {
            EditInstruction::Identity(string_of(payload.as_slice()))
        },
        ChunkKind::Delete => EditInstruction::Deletion(string_of(payload.as_slice())),
        ChunkKind::Insert => EditInstruction::Insertion(string_of(payload.as_slice())),
    }
}

/// What chunk `i` adds to the distance.
fn cost_at(chunks: &Vec<(ChunkKind, String)>, i: usize, allow_substitutions: bool) -> (r: usize)
    requires
        i < chunks@.len(),
    ensures
        r == chunk_cost(
            if i >= 1 { Some(chunks_view(chunks@)[i - 1]) } else { None },
            chunks_view(chunks@)[i as int],
            allow_substitutions,
        ),
{
    let kind = chunks[i].0;
    let len = chars_of(chunks[i].1.as_str()).len();
    if kind == ChunkKind::Equal {
        0
    } else if allow_substitutions && i > 0 {
        let prev_kind = chunks[i - 1].0;
        let prev_len = chars_of(chunks[i - 1].1.as_str()).len();
        let partner = len > 0 && prev_len == len && ((prev_kind == ChunkKind::Insert && kind
            == ChunkKind::Delete) || (prev_kind == ChunkKind::Delete && kind == ChunkKind::Insert));
        if partner {
            0
        } else {
            len
        }
    } else {
        len
    }
}

/// The edit script that a diff's chunks give: for `Prefix` and `Suffix` the
/// run of equal chunks at the end is left out, for `Suffix` the chunks are
/// those of the reversed texts and each text is read back in reading order,
/// and where `generic` is asked for an unchanged part is given by its length.
pub fn script_from_chunks(
    chunks: &Vec<(ChunkKind, String)>,
    mode: Mode,
    generic: bool,
    allow_substitutions: bool,
) -> (r: EditScript)
    requires
        mode != Mode::Infix,
        old_side(chunks_view(chunks@)).len() + new_side(chunks_view(chunks@)).len() <= u32::MAX,
    ensures
        r.ops() == chunk_ops(chunks_view(chunks@), trims(mode), generic, mode == Mode::Suffix),
        r.distance == distance(kept(chunks_view(chunks@), trims(mode)), allow_substitutions),
        r.mode == mode,
{
    let ghost cv = chunks_view(chunks@);
    let trim = mode == Mode::Prefix || mode == Mode::Suffix;
    let reverse = mode == Mode::Suffix;
    let mut trailing: usize = 0;
    let mut i: usize = 0;
    while i < chunks.len()
        invariant
            i <= chunks.len(),
            cv == chunks_view(chunks@),
            trailing <= i,
            trailing == trailing_equals(cv.take(i as int)),
        decreases chunks.len() - i,
    {
        assert(cv.take(i + 1).drop_last() =~= cv.take(i as int));
        if chunks[i].0 == ChunkKind::Equal {
            trailing += 1;
        } else {
            trailing = 0;
        }
        i += 1;
    }
    assert(cv.take(chunks.len() as int) =~= cv);
    let end = if trim { chunks.len() - trailing } else { chunks.len() };
    let ghost ks = kept(cv, trim);
    assert(ks =~= cv.take(end as int));
    let mut instructions: Vec<EditInstruction> = Vec::new();
    let mut total: u32 = 0;
    let mut i: usize = 0;
    while i < end
        invariant
            i <= end <= chunks.len(),
            cv == chunks_view(chunks@),
            ks == cv.take(end as int),
            old_side(cv).len() + new_side(cv).len() <= u32::MAX,
            instructions@.map_values(|x: EditInstruction| x@) == ks.take(i as int).map_values(
                |c: ChunkView| chunk_op(c, generic, reverse),
            ),
            total == distance(ks.take(i as int), allow_substitutions),
        decreases end - i,
    {
        let ghost before = instructions@;
        assert(ks.take(i + 1).drop_last() =~= ks.take(i as int));
        assert(ks.take(i + 1) =~= cv.take(i + 1));
        assert(cv[i as int] == (chunks@[i as int].0, chunks@[i as int].1@));
        proof {
            lemma_chunk_bound(cv, i as int);
            lemma_distance_bound(cv.take(i + 1), allow_substitutions);
            lemma_sides_grow(cv, i + 1);
        }
        let instruction = chunk_instruction(chunks[i].0, &chunks[i].1, generic, reverse);
        let cost = cost_at(chunks, i, allow_substitutions);
        assert(ks.take(i + 1).last() == cv[i as int]);
        assert(i + 1 >= 2 ==> ks.take(i + 1)[i - 1] == cv[i - 1]);
        total = total + cost as u32;
        instructions.push(instruction);
        proof {
            lemma_views_push(before, instruction);
            lemma_ops_push(ks.take(i as int), cv[i as int], generic, reverse);
            assert(ks.take(i as int).push(cv[i as int]) =~= ks.take(i + 1));
        }
        i += 1;
    }
    assert(ks.take(end as int) =~= ks);
    EditScript { mode, distance: total, instructions }
}

/// The shortest edit script from `source` to `target`, over the chunks of
/// their character diff. Where `prefix` is asked for, the common end is left
/// out (the script is in `Prefix` mode, else in `Normal` mode).
pub fn shortest_edit_script(
    source: &str,
    target: &str,
    prefix: bool,
    generic: bool,
    allow_substitutions: bool,
) -> (r: EditScript)
    requires
        source@.len() + target@.len() <= u32::MAX,
    ensures
        r.ops() == chunk_ops(diff_chunks(source@, target@), prefix, generic, false),
        r.distance == distance(kept(diff_chunks(source@, target@), prefix), allow_substitutions),
        r.mode == (if prefix { Mode::Prefix } else { Mode::Normal }),
        old_side(diff_chunks(source@, target@)) == source@,
        new_side(diff_chunks(source@, target@)) == target@,
        !prefix && !generic && source@.len() + target@.len() > 0 ==> apply_ops(
            r.ops(),
            Mode::Normal,
            source@,
        ) == Ok::<Seq<char>, Failure>(target@),
{
    let chunks = diff(source, target);
    proof {
        if source@.len() + target@.len() > 0 {
            lemma_apply_inverts_build(chunks_view(chunks@));
        }
    }
    let mode = if prefix { Mode::Prefix } else { Mode::Normal };
    script_from_chunks(&chunks, mode, generic, allow_substitutions)
}

/// The shortest edit script from `source` to `target` read from their ends:
/// the chunks are those of the diff of the reversed texts, each text is read
/// back in reading order, and the common beginning is left out. The script
/// is in `Suffix` mode.
pub fn shortest_edit_script_suffix(
    source: &str,
    target: &str,
    generic: bool,
    allow_substitutions: bool,
) -> (r: EditScript)
    requires
        source@.len() + target@.len() <= u32::MAX,
    ensures
        r.ops() == chunk_ops(
            diff_chunks(source@.reverse(), target@.reverse()),
            true,
            generic,
            true,
        ),
        r.distance == distance(
            kept(diff_chunks(source@.reverse(), target@.reverse()), true),
            allow_substitutions,
        ),
        r.mode == Mode::Suffix,
{
    let s = chars_of(source);
    let t = chars_of(target);
    let rs = string_of(reversed(s.as_slice()).as_slice());
    let rt = string_of(reversed(t.as_slice()).as_slice());
    let chunks = diff(rs.as_str(), rt.as_str());
    script_from_chunks(&chunks, Mode::Suffix, generic, allow_substitutions)
}

} // verus!
