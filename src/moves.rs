//! Lazy enumeration of legal moves in ascending order.
use vstd::prelude::*;
use arrayvec::ArrayVec;
use crate::bits::bit;
use crate::position::Move;

verus! {

#[verifier::external_type_specification]
#[verifier::external_body]
#[verifier::reject_recursive_types(T)]
pub struct ExArrayVec<T, const CAP: usize>(ArrayVec<T, CAP>);

/// The columns held by a column list, in order.
pub uninterp spec fn column_list(v: ArrayVec<u64, 10>) -> Seq<u64>;

/// Relies on `ArrayVec::new`: an empty vector.
#[verifier::external_body]
pub(crate) fn columns_new() -> (r: ArrayVec<u64, 10>)
    ensures
        column_list(r) == Seq::<u64>::empty(),
{
    ArrayVec::new()
}

/// Relies on `ArrayVec::push`: appends at the end; it panics only when the vector is full.
#[verifier::external_body]
pub(crate) fn columns_push(v: &mut ArrayVec<u64, 10>, x: u64)
    requires
        column_list(*old(v)).len() < 10,
    ensures
        column_list(*final(v)) == column_list(*old(v)).push(x),
{
    v.push(x)
}

/// Relies on `ArrayVec::len`: the number of elements.
#[verifier::external_body]
pub(crate) fn columns_len(v: &ArrayVec<u64, 10>) -> (r: usize)
    ensures
        r == column_list(*v).len(),
{
    v.len()
}

/// Relies on indexing an `ArrayVec` through its slice: the element at `i`.
#[verifier::external_body]
pub(crate) fn columns_get(v: &ArrayVec<u64, 10>, i: usize) -> (r: u64)
    requires
        i < column_list(*v).len(),
    ensures
        r == column_list(*v)[i as int],
{
    v[i]
}

/// The single-bit masks of the set bits of `mask` at positions `i..64`, in ascending order.
pub open spec fn mask_moves(mask: u64, i: int) -> Seq<Move>
    decreases 64 - i,
{
    if i < 0 || i >= 64 {
        Seq::empty()
    } else {
        let rest = mask_moves(mask, i + 1);
        if bit(mask, i) {
            seq![1u64 << (i as u64)] + rest
        } else {
            rest
        }
    }
}

/// A cursor over the legal moves of a position.
#[derive(PartialEq, Eq, Debug)]
pub enum Moves {
    /// Free placement: the mask of empty cells and the next bit position to look at.
    XOMoves(Move, u64),
    /// Gravity: the columns with room and the index of the next one.
    C4Moves(ArrayVec<Move, 10>, usize),
}

/// One step of a cursor.  Free placement: the mask stays, the answer is the first set bit at or
/// after the cursor and the cursor moves just past it; with no such bit the cursor stays and the
/// answer is `None`.  Gravity: the list stays, the answer is the entry under the cursor and the
/// cursor moves by one; past the end the cursor stays and the answer is `None`.
pub open spec fn next_step(before: Moves, after: Moves, r: Option<Move>) -> bool {
    match before {
        Moves::XOMoves(mask, pos) => match r {
            None => after == before && forall|j: int| pos <= j < 64 ==> !#[trigger] bit(mask, j),
            Some(m) => match after {
                Moves::XOMoves(mask2, at) => {
                    &&& mask2 == mask
                    &&& pos < at <= 64
                    &&& bit(mask, at - 1)
                    &&& m == 1u64 << ((at - 1) as u64)
                    &&& forall|j: int| pos <= j < at - 1 ==> !#[trigger] bit(mask, j)
                },
                Moves::C4Moves(_, _) => false,
            },
        },
        Moves::C4Moves(v, pos) => match r {
            None => after == before && pos >= column_list(v).len(),
            Some(m) => pos < column_list(v).len() && m == column_list(v)[pos as int] && after
                == Moves::C4Moves(v, (pos + 1) as usize),
        },
    }
}

impl Moves {
    /// The moves still to come, in order.
    pub open spec fn remaining(self) -> Seq<Move> {
        match self {
            Moves::XOMoves(mask, pos) => mask_moves(mask, pos as int),
            Moves::C4Moves(v, pos) => if pos <= column_list(v).len() {
                column_list(v).subrange(pos as int, column_list(v).len() as int)
            } else {
                Seq::empty()
            },
        }
    }

    /// The next move, if any; the cursor moves past it.
    pub fn next(&mut self) -> (r: Option<Move>)
        ensures
            next_step(*old(self), *final(self), r),
            old(self).remaining().len() == 0 ==> r.is_none() && final(self).remaining().len()
                == 0,
            old(self).remaining().len() > 0 ==> r == Some(old(self).remaining()[0])
                && final(self).remaining() == old(self).remaining().drop_first(),
    {
        match self {
            Moves::XOMoves(moves, pos) => {
                match scan(*moves, *pos) {
                    Some((mov, at)) => {
                        *pos = at;
                        Some(mov)
                    },
                    None => None,
                }
            },
            Moves::C4Moves(moves, pos) => {
                if *pos < columns_len(moves) {
                    let mov = columns_get(moves, *pos);
                    *pos = *pos + 1;
                    Some(mov)
                } else {
                    None
                }
            },
        }
    }
}

/// The first set bit of `mask` at or after `pos`, as a single-bit mask, and the position after it.
fn scan(mask: u64, pos: u64) -> (r: Option<(Move, u64)>)
    ensures
        r.is_none() ==> forall|j: int| pos <= j < 64 ==> !#[trigger] bit(mask, j),
        r.is_some() ==> pos < r.unwrap().1 <= 64 && bit(mask, r.unwrap().1 - 1) && r.unwrap().0
            == 1u64 << ((r.unwrap().1 - 1) as u64) && forall|j: int|
            pos <= j < r.unwrap().1 - 1 ==> !#[trigger] bit(mask, j),
        mask_moves(mask, pos as int).len() == 0 ==> r.is_none(),
        mask_moves(mask, pos as int).len() > 0 ==> r.is_some() && r.unwrap().0 == mask_moves(
            mask,
            pos as int,
        )[0] && mask_moves(mask, r.unwrap().1 as int) == mask_moves(mask, pos as int).drop_first(),
{
    let mut i: u64 = pos;
    while i < 64
        invariant
            mask_moves(mask, pos as int) == mask_moves(mask, i as int),
            pos <= i,
            forall|j: int| pos <= j < i ==> !#[trigger] bit(mask, j),
        decreases 64 - i,
    {
        let mov: Move = ((mask >> i) & 1) << i;
        proof {
            lemma_extract(mask, i);
        }
        if mov != 0 {
            proof {
                assert(mask_moves(mask, i as int) == seq![1u64 << i] + mask_moves(mask, i + 1));
                assert((seq![1u64 << i] + mask_moves(mask, i + 1)).drop_first() =~= mask_moves(
                    mask,
                    i + 1,
                ));
            }
            return Some((mov, i + 1));
        }
        i = i + 1;
    }
    None
}

proof fn bv_extract(m: u64, i: u64)
    by (bit_vector)
    requires
        i < 64,
    ensures
        (m >> i) & 1u64 == 1u64 ==> ((m >> i) & 1u64) << i == 1u64 << i && 1u64 << i != 0u64,
        (m >> i) & 1u64 != 1u64 ==> ((m >> i) & 1u64) << i == 0u64,
{
}

proof fn lemma_extract(m: u64, i: u64)
    requires
        i < 64,
    ensures
        bit(m, i as int) ==> ((m >> i) & 1u64) << i == 1u64 << i && 1u64 << i != 0u64,
        !bit(m, i as int) ==> ((m >> i) & 1u64) << i == 0u64,
        mask_moves(m, i as int) == if bit(m, i as int) {
            seq![1u64 << i] + mask_moves(m, i + 1)
        } else {
            mask_moves(m, i + 1)
        },
{
    bv_extract(m, i);
}

} // verus!
