//! What connects encoding and decoding.
//!
//! The laws are stated over the models of the two directions:
//! [`encode_one`] and [`encode_list`] on one side, [`decode`] and
//! [`cells_from`] on the other. The executable functions are tied to these
//! models by their own contracts.

use crate::alphabet::{closer, is_delim, BACK, FWD, PIPE};
use crate::decode::{
    cells_from, closes_at, decode, first_close, first_delim, lemma_first_close,
    lemma_next_cell_bounds, next_cell, run_end, Cell,
};
use crate::encode::{
    chosen_open, chosen_run, eligible, encode_list, encode_one, frame, lemma_encode_list_unfold,
    needed_run,
};
use crate::runs::{is_run, lemma_longest_run_attained, lemma_longest_run_bounds, longest_run};
use vstd::prelude::*;

verus! {

/// Whether the scheme that opens with `open`, with runs of `n` bytes, frames
/// `s` so that it can be read back: `open` is a delimiter, `s` neither
/// begins with the opening byte nor ends with the closing byte, `s` holds
/// no run of `n` closing bytes, and where `s` is empty the two bytes differ.
pub open spec fn well_framed(open: u8, n: nat, s: Seq<u8>) -> bool {
    &&& is_delim(open)
    &&& n > longest_run(s, closer(open))
    &&& if s.len() == 0 {
        open != closer(open)
    } else {
        s.first() != open && s.last() != closer(open)
    }
}

/// Where a run of `b` is known to stop, `run_end` finds that place.
proof fn lemma_run_end_is(s: Seq<u8>, b: u8, from: int, end: int)
    requires
        0 <= from <= end <= s.len(),
        forall|k: int| from <= k < end ==> s[k] == b,
        end < s.len() ==> s[end] != b,
    ensures
        run_end(s, b, from) == end,
    decreases end - from,
{
    if from < end {
        lemma_run_end_is(s, b, from + 1, end);
    }
}

/// Where the first closing position is known, `first_close` finds it.
proof fn lemma_first_close_is(s: Seq<u8>, c: u8, n: int, to: int, q: int)
    requires
        to <= q,
        closes_at(s, c, n, q),
        forall|k: int| to <= k < q ==> !closes_at(s, c, n, k),
    ensures
        first_close(s, c, n, to) == Some(q),
{
    lemma_first_close(s, c, n, to);
}

/// A well-framed string is the first cell of whatever list it stands in,
/// for a search that starts at its opening run.
pub proof fn lemma_framed_cell(before: Seq<u8>, open: u8, n: nat, s: Seq<u8>, after: Seq<u8>)
    requires
        well_framed(open, n, s),
    ensures
        next_cell(before + frame(open, n, s) + after, before.len() as int) == Some(
            Cell {
                start: (before.len() + n) as int,
                end: (before.len() + n + s.len()) as int,
                next: (before.len() + n + s.len() + n) as int,
            },
        ),
        (before + frame(open, n, s) + after).subrange(
            (before.len() + n) as int,
            (before.len() + n + s.len()) as int,
        ) == s,
{
    let t = before + frame(open, n, s) + after;
    let close = closer(open);
    let at = before.len() as int;
    let start = at + n;
    let end = start + s.len();
    let next = end + n;
    assert forall|k: int| at <= k < start implies t[k] == open by {}
    assert forall|k: int| start <= k < end implies t[k] == s[k - start] by {}
    assert forall|k: int| end <= k < next implies t[k] == close by {}
    lemma_run_end_is(t, open, at, start);
    assert forall|q: int| start + n <= q < next implies !closes_at(t, close, n as int, q) by {
        if closes_at(t, close, n as int, q) {
            if q <= end {
                assert forall|k: int| q - n - start <= k < q - start implies s[k] == close by {
                    assert(t[k + start] == close);
                }
                lemma_longest_run_bounds(s, close, q - n - start, n as int);
            } else {
                assert(t[end - 1] == close);
            }
        }
    }
    lemma_first_close_is(t, close, n as int, start + n, next);
}

/// A well-framed string is read back as it was, and as nothing else.
/// Together with [`law_shorter_run_is_misread`]: the run that a scheme
/// needs is the shortest with which the string is read back.
pub proof fn law_framed_round_trip(open: u8, n: nat, s: Seq<u8>)
    requires
        well_framed(open, n, s),
    ensures
        decode(frame(open, n, s)) == seq![s],
{
    let empty = Seq::<u8>::empty();
    let t = frame(open, n, s);
    lemma_framed_cell(empty, open, n, s, empty);
    assert(empty + t + empty =~= t);
    // Nothing follows the cell.
    assert(first_delim(t, t.len() as int) == t.len());
    assert(cells_from(t, t.len() as int) =~= Seq::<Seq<u8>>::empty());
}

/// The scheme chosen for a string can frame it: for every string that is
/// not empty at least one scheme is eligible, and the chosen one is.
pub proof fn law_chosen_scheme_is_eligible(s: Seq<u8>)
    ensures
        is_delim(chosen_open(s)),
        s.len() > 0 ==> eligible(s, chosen_open(s)),
        well_framed(chosen_open(s), chosen_run(s), s),
{
}

/// No eligible scheme needs a shorter run than the chosen one, and an
/// eligible scheme that needs the same run does not come before the chosen
/// one in the order `PIPE`, `FWD`, `BACK`.
pub proof fn law_chosen_scheme_is_cheapest(s: Seq<u8>, open: u8)
    requires
        is_delim(open),
        eligible(s, open),
    ensures
        chosen_run(s) <= needed_run(s, open),
        chosen_run(s) == needed_run(s, open) ==> {
            ||| chosen_open(s) == open
            ||| chosen_open(s) == PIPE
            ||| chosen_open(s) == FWD && open == BACK
        },
{
}

/// The run length of a cell is one more than the longest run of the closing
/// byte in the string: the string holds a run of one byte less, and no run
/// as long as the cell's or longer.
pub proof fn law_run_length_is_minimal(s: Seq<u8>)
    ensures
        chosen_run(s) == 1 + longest_run(s, closer(chosen_open(s))),
        exists|at: int|
            is_run(s, closer(chosen_open(s)), at, longest_run(s, closer(chosen_open(s))) as int),
        forall|at: int, n: int|
            n >= chosen_run(s) ==> !is_run(s, closer(chosen_open(s)), at, n),
{
    let close = closer(chosen_open(s));
    lemma_longest_run_attained(s, close);
    assert forall|at: int, n: int| n >= chosen_run(s) implies !is_run(s, close, at, n) by {
        if is_run(s, close, at, n) {
            lemma_longest_run_bounds(s, close, at, n);
        }
    }
}

/// With a shorter run than the scheme needs, a framed string is not read
/// back: the first cell of the frame ends inside the string.
pub proof fn law_shorter_run_is_misread(s: Seq<u8>, open: u8, n: nat)
    requires
        is_delim(open),
        eligible(s, open),
        1 <= n < needed_run(s, open),
    ensures
        decode(frame(open, n, s)) != seq![s],
{
    let t = frame(open, n, s);
    let close = closer(open);
    lemma_longest_run_attained(s, close);
    let at = choose|at: int| is_run(s, close, at, longest_run(s, close) as int);
    assert forall|k: int| 0 <= k < n implies t[k] == open by {}
    assert forall|k: int| n <= k < n + s.len() implies t[k] == s[k - n] by {}
    lemma_run_end_is(t, open, 0, n as int);
    // The run inside the string closes the cell before the string ends.
    assert(closes_at(t, close, n as int, n + at + n)) by {
        assert forall|k: int| n + at <= k < n + at + n implies t[k] == close by {}
    }
    lemma_first_close(t, close, n as int, (n + n) as int);
    lemma_next_cell_bounds(t, 0);
    assert(seq![s][0] == s);
}

/// A cell is read back as the string it was made from, wherever it stands:
/// the cells of a list from the start of a cell on are its string and then
/// the cells from its end on.
pub proof fn law_cell_is_read_back(before: Seq<u8>, s: Seq<u8>, after: Seq<u8>)
    ensures
        cells_from(before + encode_one(s) + after, before.len() as int) == seq![s] + cells_from(
            before + encode_one(s) + after,
            (before.len() + encode_one(s).len()) as int,
        ),
{
    law_chosen_scheme_is_eligible(s);
    lemma_framed_cell(before, chosen_open(s), chosen_run(s), s, after);
}

/// Bytes between cells that are no delimiters are passed over: the cells
/// from the start of such bytes on are the cells from their end on.
pub proof fn law_filler_is_skipped(before: Seq<u8>, filler: Seq<u8>, after: Seq<u8>)
    requires
        forall|i: int| 0 <= i < filler.len() ==> !is_delim(filler[i]),
    ensures
        cells_from(before + filler + after, before.len() as int) == cells_from(
            before + filler + after,
            (before.len() + filler.len()) as int,
        ),
{
    let t = before + filler + after;
    lemma_skip_to(t, before.len() as int, (before.len() + filler.len()) as int);
}

/// Where no delimiter stands between two positions, the search for a
/// delimiter from the first is the search from the second.
proof fn lemma_skip_to(t: Seq<u8>, from: int, to: int)
    requires
        0 <= from <= to <= t.len(),
        forall|k: int| from <= k < to ==> !is_delim(t[k]),
    ensures
        first_delim(t, from) == first_delim(t, to),
    decreases to - from,
{
    if from < to {
        lemma_skip_to(t, from + 1, to);
    }
}

/// Round trip: the cell of a string decodes to that string and nothing else.
pub proof fn law_round_trip(s: Seq<u8>)
    ensures
        decode(encode_one(s)) == seq![s],
{
    law_chosen_scheme_is_eligible(s);
    law_framed_round_trip(chosen_open(s), chosen_run(s), s);
}

/// Filler tolerance: bytes that are no delimiters, before and after a cell,
/// do not change what is read.
pub proof fn law_filler_round_trip(lead: Seq<u8>, s: Seq<u8>, trail: Seq<u8>)
    requires
        forall|i: int| 0 <= i < lead.len() ==> !is_delim(lead[i]),
        forall|i: int| 0 <= i < trail.len() ==> !is_delim(trail[i]),
    ensures
        decode(lead + encode_one(s) + trail) == seq![s],
{
    let empty = Seq::<u8>::empty();
    let cell = encode_one(s);
    let t = lead + cell + trail;
    law_filler_is_skipped(empty, lead, cell + trail);
    assert(empty + lead + (cell + trail) =~= t);
    law_cell_is_read_back(lead, s, trail);
    law_filler_is_skipped(lead + cell, trail, empty);
}

/// An encoded list is read back as the list it was made from, whatever
/// stands before it.
pub proof fn law_list_is_read_back(before: Seq<u8>, l: Seq<Seq<u8>>)
    ensures
        cells_from(before + encode_list(l), before.len() as int) == l,
    decreases l.len(),
{
    if l.len() > 0 {
        let cell = encode_one(l.first());
        let rest = encode_list(l.drop_first());
        lemma_encode_list_unfold(l);
        law_cell_is_read_back(before, l.first(), rest);
        law_list_is_read_back(before + cell, l.drop_first());
        assert(before + cell + rest =~= before + encode_list(l));
    }
}

/// List round trip: the encoding of a list decodes to that list, string for
/// string and in order.
pub proof fn law_list_round_trip(l: Seq<Seq<u8>>)
    ensures
        decode(encode_list(l)) == l,
{
    law_list_is_read_back(Seq::<u8>::empty(), l);
}

/// Nesting: an encoded list can be a string of another list. Decoding the
/// outer list gives the inner encoding back, and decoding that gives the
/// inner list.
pub proof fn law_nesting(inner: Seq<Seq<u8>>)
    ensures
        decode(encode_list(seq![encode_list(inner)])) == seq![encode_list(inner)],
        decode(decode(encode_list(seq![encode_list(inner)]))[0]) == inner,
{
    law_list_round_trip(seq![encode_list(inner)]);
    law_list_round_trip(inner);
}

} // verus!
