//! Encoding: one byte string as a cell, a container of them as a list.

use crate::alphabet::{closer, closing_byte, BACK, FWD, PIPE};
use crate::private::{ToCellSealed, ToNelfSealed};
use crate::runs::{lemma_longest_run_below_len, longest_run, longest_run_of};
use vstd::prelude::*;

verus! {

/// Whether the scheme that opens with `open` can frame `s`: `s` is not
/// empty, does not begin with the opening byte and does not end with the
/// closing byte. A byte of `s` at either edge that equals the delimiter next
/// to it would be read as part of the delimiter run.
pub open spec fn eligible(s: Seq<u8>, open: u8) -> bool {
    &&& s.len() > 0
    &&& s.first() != open
    &&& s.last() != closer(open)
}

/// The run length that the scheme opening with `open` needs for `s`: one
/// more than the longest run of its closing byte inside `s`.
pub open spec fn needed_run(s: Seq<u8>, open: u8) -> nat {
    longest_run(s, closer(open)) + 1
}

/// Whether the scheme opening with `a` can frame `s` and needs no longer a
/// run than the scheme opening with `b`, should that one be able to.
pub open spec fn no_worse(s: Seq<u8>, a: u8, b: u8) -> bool {
    eligible(s, a) && (eligible(s, b) ==> needed_run(s, a) <= needed_run(s, b))
}

/// The opening byte of the scheme that frames `s`: among the schemes that
/// can frame it, the one that needs the shortest run, and of several such
/// the first in the order `PIPE`, `FWD`, `BACK`. The empty string is opened
/// by `FWD`.
pub open spec fn chosen_open(s: Seq<u8>) -> u8 {
    if s.len() == 0 {
        FWD
    } else if no_worse(s, PIPE, FWD) && no_worse(s, PIPE, BACK) {
        PIPE
    } else if no_worse(s, FWD, BACK) {
        FWD
    } else {
        BACK
    }
}

/// The run length of the cell of `s`.
pub open spec fn chosen_run(s: Seq<u8>) -> nat {
    needed_run(s, chosen_open(s))
}

/// The byte `b`, `n` times.
pub open spec fn repeat(b: u8, n: nat) -> Seq<u8> {
    Seq::new(n, |i: int| b)
}

/// The string `s` between `n` opening bytes and `n` closing bytes.
pub open spec fn frame(open: u8, n: nat, s: Seq<u8>) -> Seq<u8> {
    repeat(open, n) + s + repeat(closer(open), n)
}

/// The cell of the byte string `s`.
pub open spec fn encode_one(s: Seq<u8>) -> Seq<u8> {
    frame(chosen_open(s), chosen_run(s), s)
}

/// The encoding of the list `l`: the cells of its strings, one after the
/// other, with nothing between them.
pub open spec fn encode_list(l: Seq<Seq<u8>>) -> Seq<u8> {
    l.map_values(|s: Seq<u8>| encode_one(s)).flatten()
}

/// The encoding of a list is the cell of its first string and then the
/// encoding of the others.
pub proof fn lemma_encode_list_unfold(l: Seq<Seq<u8>>)
    requires
        l.len() > 0,
    ensures
        encode_list(l) == encode_one(l.first()) + encode_list(l.drop_first()),
{
    let cells = l.map_values(|s: Seq<u8>| encode_one(s));
    assert(cells.drop_first() =~= l.drop_first().map_values(|s: Seq<u8>| encode_one(s)));
}

/// The encoding of a list with one more string at its end is the encoding
/// of the list and then the cell of that string.
pub proof fn lemma_encode_list_push(l: Seq<Seq<u8>>, s: Seq<u8>)
    ensures
        encode_list(l.push(s)) == encode_list(l) + encode_one(s),
{
    let cells = l.map_values(|s: Seq<u8>| encode_one(s));
    assert(l.push(s).map_values(|s: Seq<u8>| encode_one(s)) =~= cells.push(encode_one(s)));
    cells.lemma_flatten_push(encode_one(s));
}

/// Appends `n` times the byte `b` to `out`.
fn push_run(out: &mut Vec<u8>, b: u8, n: usize)
    ensures
        final(out)@ == old(out)@ + repeat(b, n as nat),
{
    let ghost before = out@;
    let mut k: usize = 0;
    while k < n
        invariant
            k <= n,
            out@ == before + repeat(b, k as nat),
        decreases n - k,
    {
        out.push(b);
        k = k + 1;
    }
}

/// A byte string that can be encoded as a cell of a list.
///
/// Implemented for byte slices, byte arrays and byte vectors, owned or
/// borrowed, and for nothing else.
pub trait ToCell: ToCellSealed {
    /// The byte string that the value holds.
    spec fn content(&self) -> Seq<u8>;

    /// Borrows the byte string that the value holds.
    fn as_bytes(&self) -> (bytes: &[u8])
        ensures
            bytes@ == self.content(),
    ;

    /// Encodes the value as a cell.
    fn to_cell(self) -> (cell: Vec<u8>)
        ensures
            cell@ == encode_one(self.content()),
    ;
}

impl<'a> ToCellSealed for &'a [u8] {

}

impl<'a> ToCell for &'a [u8] {
    open spec fn content(&self) -> Seq<u8> {
        self@
    }

    fn as_bytes(&self) -> (bytes: &[u8]) {
        *self
    }

    fn to_cell(self) -> (cell: Vec<u8>) {
        let mut cell: Vec<u8> = Vec::new();
        if self.len() == 0 {
            cell.push(FWD);
            cell.push(BACK);
            return cell;
        }
        let first = self[0];
        let last = self[self.len() - 1];
        let pipe_ok = first != PIPE && last != PIPE;
        let fwd_ok = first != FWD && last != BACK;
        let back_ok = first != BACK && last != FWD;
        // The run of a scheme that cannot frame the string is never read.
        let pipe_run: usize = if pipe_ok {
            proof {
                lemma_longest_run_below_len(self@, PIPE);
            }
            longest_run_of(self, PIPE) + 1
        } else {
            0
        };
        let fwd_run: usize = if fwd_ok {
            proof {
                lemma_longest_run_below_len(self@, BACK);
            }
            longest_run_of(self, BACK) + 1
        } else {
            0
        };
        let back_run: usize = if back_ok {
            proof {
                lemma_longest_run_below_len(self@, FWD);
            }
            longest_run_of(self, FWD) + 1
        } else {
            0
        };
        let open: u8;
        let run: usize;
        if pipe_ok && (!fwd_ok || pipe_run <= fwd_run) && (!back_ok || pipe_run <= back_run) {
            open = PIPE;
            run = pipe_run;
        } else if fwd_ok && (!back_ok || fwd_run <= back_run) {
            open = FWD;
            run = fwd_run;
        } else {
            open = BACK;
            run = back_run;
        }
        push_run(&mut cell, open, run);
        cell.extend_from_slice(self);
        push_run(&mut cell, closing_byte(open), run);
        cell
    }
}

impl<'a, const N: usize> ToCellSealed for &'a [u8; N] {

}

impl<'a, const N: usize> ToCell for &'a [u8; N] {
    open spec fn content(&self) -> Seq<u8> {
        self@
    }

    fn as_bytes(&self) -> (bytes: &[u8]) {
        self.as_slice()
    }

    fn to_cell(self) -> (cell: Vec<u8>) {
        self.as_slice().to_cell()
    }
}

impl<const N: usize> ToCellSealed for [u8; N] {

}

impl<const N: usize> ToCell for [u8; N] {
    open spec fn content(&self) -> Seq<u8> {
        self@
    }

    fn as_bytes(&self) -> (bytes: &[u8]) {
        self.as_slice()
    }

    fn to_cell(self) -> (cell: Vec<u8>) {
        self.as_slice().to_cell()
    }
}

impl<'a> ToCellSealed for &'a Vec<u8> {

}

impl<'a> ToCell for &'a Vec<u8> {
    open spec fn content(&self) -> Seq<u8> {
        self@
    }

    fn as_bytes(&self) -> (bytes: &[u8]) {
        self.as_slice()
    }

    fn to_cell(self) -> (cell: Vec<u8>) {
        self.as_slice().to_cell()
    }
}

impl ToCellSealed for Vec<u8> {

}

impl ToCell for Vec<u8> {
    open spec fn content(&self) -> Seq<u8> {
        self@
    }

    fn as_bytes(&self) -> (bytes: &[u8]) {
        self.as_slice()
    }

    fn to_cell(self) -> (cell: Vec<u8>) {
        self.as_slice().to_cell()
    }
}

/// The byte strings that the values `items` hold, in order.
pub open spec fn contents_of<V: ToCell>(items: Seq<V>) -> Seq<Seq<u8>> {
    Seq::new(items.len(), |i: int| items[i].content())
}

/// Encodes the strings that `items` hold as a list.
fn encode_items<V: ToCell>(items: &[V]) -> (list: Vec<u8>)
    ensures
        list@ == encode_list(contents_of(items@)),
{
    let mut list: Vec<u8> = Vec::new();
    let mut i: usize = 0;
    while i < items.len()
        invariant
            i <= items.len(),
            list@ == encode_list(contents_of(items@.take(i as int))),
        decreases items.len() - i,
    {
        let mut cell = items[i].as_bytes().to_cell();
        list.append(&mut cell);
        proof {
            let done = contents_of(items@.take(i as int));
            lemma_encode_list_push(done, items@[i as int].content());
            assert(contents_of(items@.take(i + 1)) =~= done.push(items@[i as int].content()));
        }
        i = i + 1;
    }
    assert(items@.take(i as int) =~= items@);
    list
}

/// A container of byte strings that can be encoded as a list.
///
/// Implemented for arrays, vectors and slices of values that can be
/// encoded as a cell, and for nothing else.
pub trait ToNelf: ToNelfSealed {
    /// The byte strings that the container holds, in order.
    spec fn strings(&self) -> Seq<Seq<u8>>;

    /// Encodes the strings of the container, in order, as a list.
    fn to_nelf(self) -> (list: Vec<u8>)
        ensures
            list@ == encode_list(self.strings()),
    ;
}

impl<V: ToCell, const N: usize> ToNelfSealed for [V; N] {

}

impl<V: ToCell, const N: usize> ToNelf for [V; N] {
    open spec fn strings(&self) -> Seq<Seq<u8>> {
        contents_of(self@)
    }

    fn to_nelf(self) -> (list: Vec<u8>) {
        encode_items(self.as_slice())
    }
}

impl<'a, V: ToCell, const N: usize> ToNelfSealed for &'a [V; N] {

}

impl<'a, V: ToCell, const N: usize> ToNelf for &'a [V; N] {
    open spec fn strings(&self) -> Seq<Seq<u8>> {
        contents_of(self@)
    }

    fn to_nelf(self) -> (list: Vec<u8>) {
        encode_items(self.as_slice())
    }
}

impl<V: ToCell> ToNelfSealed for Vec<V> {

}

impl<V: ToCell> ToNelf for Vec<V> {
    open spec fn strings(&self) -> Seq<Seq<u8>> {
        contents_of(self@)
    }

    fn to_nelf(self) -> (list: Vec<u8>) {
        encode_items(self.as_slice())
    }
}

impl<'a, V: ToCell> ToNelfSealed for &'a Vec<V> {

}

impl<'a, V: ToCell> ToNelf for &'a Vec<V> {
    open spec fn strings(&self) -> Seq<Seq<u8>> {
        contents_of(self@)
    }

    fn to_nelf(self) -> (list: Vec<u8>) {
        encode_items(self.as_slice())
    }
}

impl<'a, V: ToCell> ToNelfSealed for &'a [V] {

}

impl<'a, V: ToCell> ToNelf for &'a [V] {
    open spec fn strings(&self) -> Seq<Seq<u8>> {
        contents_of(self@)
    }

    fn to_nelf(self) -> (list: Vec<u8>) {
        encode_items(self)
    }
}

} // verus!
