//! Decoding: the cells of an encoded list, one after the other.

use crate::alphabet::{closer, closing_byte, is_delim, is_delimiter};
use vstd::prelude::*;
use vstd::slice::slice_subrange;

verus! {

/// The first position at or after `from` where `s` holds a delimiter byte,
/// or the length of `s` where there is none.
pub open spec fn first_delim(s: Seq<u8>, from: int) -> int
    decreases s.len() - from,
{
    if from >= s.len() {
        s.len() as int
    } else if from >= 0 && is_delim(s[from]) {
        from
    } else {
        first_delim(s, from + 1)
    }
}

/// The first position at or after `from` where `s` holds another byte than
/// `b`, or the length of `s` where there is none.
pub open spec fn run_end(s: Seq<u8>, b: u8, from: int) -> int
    decreases s.len() - from,
{
    if from >= s.len() {
        s.len() as int
    } else if from >= 0 && s[from] != b {
        from
    } else {
        run_end(s, b, from + 1)
    }
}

/// Whether the `n` bytes of `s` just before position `to` all are `c`.
pub open spec fn closes_at(s: Seq<u8>, c: u8, n: int, to: int) -> bool {
    &&& 0 <= to - n
    &&& to <= s.len()
    &&& forall|k: int| to - n <= k < to ==> s[k] == c
}

/// The first position at or after `to` that `n` bytes `c` in a row lead up
/// to, if there is one.
pub open spec fn first_close(s: Seq<u8>, c: u8, n: int, to: int) -> Option<int>
    decreases s.len() + 1 - to,
{
    if to > s.len() {
        None
    } else if closes_at(s, c, n, to) {
        Some(to)
    } else {
        first_close(s, c, n, to + 1)
    }
}

/// Where a cell lies in an encoded list.
pub struct Cell {
    /// The position of the first byte of the content.
    pub start: int,
    /// The position just past the last byte of the content.
    pub end: int,
    /// The position just past the cell, where the search for the next one starts.
    pub next: int,
}

/// The first cell of `s` at or after position `from`, if there is one.
///
/// Bytes before the first delimiter are filler. The run of that delimiter
/// opens the cell; a run that reaches the end of `s` opens nothing. The
/// content begins after the opening run and ends before the first run, as
/// long as the opening run, of the byte that closes it; where no such run
/// follows, the content is the rest of `s`.
pub open spec fn next_cell(s: Seq<u8>, from: int) -> Option<Cell> {
    let at = first_delim(s, from);
    if at >= s.len() {
        None
    } else {
        let start = run_end(s, s[at], at);
        let n = start - at;
        if start >= s.len() {
            None
        } else {
            match first_close(s, closer(s[at]), n, start + n) {
                Some(to) => Some(Cell { start, end: to - n, next: to }),
                None => Some(Cell { start, end: s.len() as int, next: s.len() as int }),
            }
        }
    }
}

/// Where the search stands after looking for the first cell of `s` at or
/// after `from`: past the cell that was found; at the opening run that
/// reaches the end of `s`; or still at `from` where no delimiter follows.
pub open spec fn next_cursor(s: Seq<u8>, from: int) -> int {
    match next_cell(s, from) {
        Some(cell) => cell.next,
        None => if first_delim(s, from) < s.len() {
            first_delim(s, from)
        } else {
            from
        },
    }
}

/// The first delimiter at or after `from` is not before `from`, not past
/// the end, and no delimiter stands between the two.
pub proof fn lemma_first_delim(s: Seq<u8>, from: int)
    requires
        0 <= from <= s.len(),
    ensures
        from <= first_delim(s, from) <= s.len(),
        first_delim(s, from) < s.len() ==> is_delim(s[first_delim(s, from)]),
        forall|k: int| from <= k < first_delim(s, from) ==> !is_delim(s[k]),
    decreases s.len() - from,
{
    if from < s.len() && !is_delim(s[from]) {
        lemma_first_delim(s, from + 1);
    }
}

/// A run ends not before it starts, not past the end, at another byte, and
/// holds only the one byte.
pub proof fn lemma_run_end(s: Seq<u8>, b: u8, from: int)
    requires
        0 <= from <= s.len(),
    ensures
        from <= run_end(s, b, from) <= s.len(),
        run_end(s, b, from) < s.len() ==> s[run_end(s, b, from)] != b,
        forall|k: int| from <= k < run_end(s, b, from) ==> s[k] == b,
    decreases s.len() - from,
{
    if from < s.len() && s[from] == b {
        lemma_run_end(s, b, from + 1);
    }
}

/// The first closing position, where there is one, is one, and none lies
/// between `to` and it; where there is none, no position from `to` on is one.
pub proof fn lemma_first_close(s: Seq<u8>, c: u8, n: int, to: int)
    ensures
        match first_close(s, c, n, to) {
            Some(q) => to <= q && closes_at(s, c, n, q) && forall|k: int|
                to <= k < q ==> !closes_at(s, c, n, k),
            None => forall|k: int| to <= k ==> !closes_at(s, c, n, k),
        },
    decreases s.len() + 1 - to,
{
    if to <= s.len() && !closes_at(s, c, n, to) {
        lemma_first_close(s, c, n, to + 1);
    }
}

/// A cell lies inside the list, after the position the search started at,
/// and the search for the next one starts after at least two more bytes.
pub proof fn lemma_next_cell_bounds(s: Seq<u8>, from: int)
    requires
        0 <= from <= s.len(),
    ensures
        match next_cell(s, from) {
            Some(cell) => from < cell.start <= cell.end <= cell.next <= s.len(),
            None => true,
        },
        from <= next_cursor(s, from) <= s.len(),
{
    lemma_first_delim(s, from);
    let at = first_delim(s, from);
    if at < s.len() {
        lemma_run_end(s, s[at], at);
        let start = run_end(s, s[at], at);
        let n = start - at;
        lemma_first_close(s, closer(s[at]), n, start + n);
    }
}

/// The cells of `s` at or after position `from`, in order.
pub open spec fn cells_from(s: Seq<u8>, from: int) -> Seq<Seq<u8>>
    decreases s.len() - from,
    via cells_from_decreases
{
    if 0 <= from <= s.len() {
        match next_cell(s, from) {
            Some(cell) => seq![s.subrange(cell.start, cell.end)] + cells_from(s, cell.next),
            None => Seq::empty(),
        }
    } else {
        Seq::empty()
    }
}

#[via_fn]
proof fn cells_from_decreases(s: Seq<u8>, from: int) {
    if 0 <= from <= s.len() {
        lemma_next_cell_bounds(s, from);
    }
}

/// The byte strings that the encoded list `s` holds, in order.
pub open spec fn decode(s: Seq<u8>) -> Seq<Seq<u8>> {
    cells_from(s, 0)
}

/// Once no cell is found, none is found from where the search then stands.
pub proof fn lemma_no_cell_left(s: Seq<u8>, from: int)
    requires
        0 <= from <= s.len(),
        next_cell(s, from) is None,
    ensures
        next_cell(s, next_cursor(s, from)) is None,
        cells_from(s, from) == Seq::<Seq<u8>>::empty(),
        cells_from(s, next_cursor(s, from)) == Seq::<Seq<u8>>::empty(),
{
    lemma_first_delim(s, from);
}

/// The byte strings that the slices `cells` hold, in order.
pub open spec fn contents(cells: Seq<&[u8]>) -> Seq<Seq<u8>> {
    Seq::new(cells.len(), |i: int| cells[i]@)
}

/// A walk over the cells of an encoded list, from the first to the last.
///
/// The walk borrows the list, and each cell that it hands out is a slice
/// of the list: nothing is copied.
#[derive(Clone, Copy)]
pub struct NelfIter<'a> {
    string: &'a [u8],
    index: usize,
}

impl<'a> NelfIter<'a> {
    #[verifier::type_invariant]
    spec fn in_bounds(self) -> bool {
        self.index <= self.string@.len()
    }

    /// The encoded list that is walked over.
    pub closed spec fn source(&self) -> Seq<u8> {
        self.string@
    }

    /// The position in the list from which the next cell is looked for.
    pub closed spec fn position(&self) -> int {
        self.index as int
    }

    /// The cells that are still to come, in order.
    pub open spec fn remaining(&self) -> Seq<Seq<u8>> {
        cells_from(self.source(), self.position())
    }

    /// Starts a walk at the beginning of the encoded list `string`.
    pub fn from_string(string: &'a [u8]) -> (iter: Self)
        ensures
            iter.source() == string@,
            iter.position() == 0,
            iter.remaining() == decode(string@),
    {
        NelfIter { string, index: 0 }
    }

    /// Hands out the content of the next cell, or `None` where no cell is
    /// left, and moves the position past what was read.
    pub fn next(&mut self) -> (cell: Option<&'a [u8]>)
        ensures
            final(self).source() == old(self).source(),
            old(self).position() <= final(self).position() <= final(self).source().len(),
            final(self).position() == next_cursor(old(self).source(), old(self).position()),
            match next_cell(old(self).source(), old(self).position()) {
                Some(found) => {
                    &&& cell matches Some(content)
                    &&& content@ == old(self).source().subrange(found.start, found.end)
                },
                None => cell is None,
            },
            match cell {
                Some(content) => old(self).remaining() == seq![content@] + final(self).remaining(),
                None => {
                    &&& old(self).remaining() == Seq::<Seq<u8>>::empty()
                    &&& final(self).remaining() == Seq::<Seq<u8>>::empty()
                },
            },
    {
        proof {
            use_type_invariant(&*self);
            if next_cell(self.source(), self.position()) is None {
                lemma_no_cell_left(self.source(), self.position());
            }
        }
        let s = self.string;
        let len = s.len();
        let mut at = self.index;
        while at < len && !is_delimiter(s[at])
            invariant
                len == s@.len(),
                self.index <= at <= len,
                first_delim(s@, at as int) == first_delim(s@, self.index as int),
            decreases len - at,
        {
            at = at + 1;
        }
        if at >= len {
            return None;
        }
        let open = s[at];
        let mut start = at;
        while start < len && s[start] == open
            invariant
                len == s@.len(),
                at <= start <= len,
                run_end(s@, open, start as int) == run_end(s@, open, at as int),
            decreases len - start,
        {
            start = start + 1;
        }
        if start >= len {
            self.index = at;
            return None;
        }
        let n = start - at;
        let close = closing_byte(open);
        let mut to = start;
        let mut count: usize = 0;
        while to < len && count < n
            invariant
                len == s@.len(),
                start <= to <= len,
                count <= n,
                count <= to - start,
                forall|k: int| to - count <= k < to ==> s@[k] == close,
                count < to - start ==> s@[to - count - 1] != close,
                forall|q: int| start + n <= q < to ==> !closes_at(s@, close, n as int, q),
                count < n ==> !closes_at(s@, close, n as int, to as int) || to < start + n,
            decreases len - to,
        {
            if s[to] == close {
                count = count + 1;
            } else {
                count = 0;
            }
            to = to + 1;
        }
        proof {
            lemma_first_close(s@, close, n as int, start + n);
            if count == n {
                assert(closes_at(s@, close, n as int, to as int));
            }
        }
        self.index = to;
        if count == n {
            Some(slice_subrange(s, start, to - n))
        } else {
            Some(slice_subrange(s, start, len))
        }
    }

    /// Hands out the contents of all the cells that are still to come, in
    /// order.
    pub fn collect(self) -> (cells: Vec<&'a [u8]>)
        ensures
            contents(cells@) == self.remaining(),
    {
        let mut iter = self;
        let mut cells: Vec<&'a [u8]> = Vec::new();
        loop
            invariant
                contents(cells@) + iter.remaining() == self.remaining(),
            ensures
                contents(cells@) == self.remaining(),
            decreases iter.source().len() - iter.position(),
        {
            proof {
                use_type_invariant(&iter);
                lemma_next_cell_bounds(iter.source(), iter.position());
            }
            let ghost before = contents(cells@);
            match iter.next() {
                Some(content) => {
                    cells.push(content);
                    assert(contents(cells@) + iter.remaining() =~= before + (seq![content@]
                        + iter.remaining()));
                },
                None => {
                    break ;
                },
            }
        }
        cells
    }
}

} // verus!
