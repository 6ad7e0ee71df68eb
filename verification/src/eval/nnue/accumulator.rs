//! Accumulator pairs: the first layer's output from White's and from
//! Black's point of view, kept up to date feature by feature.
use vstd::prelude::*;

use super::net::{Accumulator, Network};
use crate::board::types::{type_index, Color, Piece, Square};

verus! {

/// The (White-view, Black-view) feature indices of a piece on square `s`:
/// own pieces first (offset 0), the opponent's at 384, 64 per piece type,
/// and Black's view mirrors the rank.
pub open spec fn feature_pair(p: Piece, s: int) -> (int, int) {
    let t = type_index(p.spec_type());
    let mirrored = s % 8 + 8 * (7 - s / 8);
    if p.spec_color() == Color::White {
        (64 * t + s, 384 + 64 * t + mirrored)
    } else {
        (384 + 64 * t + s, 64 * t + mirrored)
    }
}

/// The (White-view, Black-view) feature indices of `piece` on `sq`.
pub fn feature_indices(piece: Piece, sq: Square) -> (r: (usize, usize))
    ensures
        r.0 == feature_pair(piece, sq@).0,
        r.1 == feature_pair(piece, sq@).1,
        r.0 < 768,
        r.1 < 768,
{
    let pt = piece.piece_type().index();
    let s = sq.index();
    let flipped = s % 8 + 8 * (7 - s / 8);
    assert(s ^ 56 == s % 8 + 8 * (7 - s / 8)) by (bit_vector)
        requires
            s < 64,
    ;
    let (w_off, b_off): (usize, usize) = match piece.color() {
        Color::White => (0, 384),
        Color::Black => (384, 0),
    };
    (w_off + 64 * pt + s, b_off + 64 * pt + flipped)
}

/// Element-wise wrapping sum of two accumulator halves.
pub open spec fn plus(a: Seq<i16>, c: Seq<i16>) -> Seq<i16> {
    Seq::new(768, |i: int| vstd::wrapping::i16_specs::wrapping_add(a[i], c[i]))
}

/// Element-wise wrapping difference of two accumulator halves.
pub open spec fn minus(a: Seq<i16>, c: Seq<i16>) -> Seq<i16> {
    Seq::new(768, |i: int| vstd::wrapping::i16_specs::wrapping_sub(a[i], c[i]))
}

/// Both perspective accumulators of a position.
#[derive(Clone, Copy)]
pub struct AccPair {
    pub white: Accumulator,
    pub black: Accumulator,
}

impl AccPair {
    /// Both halves at the first-layer bias.
    pub fn fresh(net: &Network) -> (r: AccPair)
        ensures
            r.white.vals@ == net.bias(),
            r.black.vals@ == net.bias(),
    {
        AccPair { white: net.feature_bias(), black: net.feature_bias() }
    }

    /// Adds the feature columns of `piece` on `sq` to both halves.
    pub fn add(&mut self, net: &Network, piece: Piece, sq: Square)
        requires
            net.wf(),
        ensures
            final(self).white.vals@ == plus(old(self).white.vals@, net.column(feature_pair(piece, sq@).0)),
            final(self).black.vals@ == plus(old(self).black.vals@, net.column(feature_pair(piece, sq@).1)),
    {
        let (w, b) = feature_indices(piece, sq);
        let ghost ow = self.white.vals@;
        let ghost ob = self.black.vals@;
        let mut i: usize = 0;
        while i < 768
            invariant
                i <= 768,
                net.wf(),
                w < 768,
                b < 768,
                self.white.vals@.len() == 768,
                self.black.vals@.len() == 768,
                forall|j: int| 0 <= j < i ==> #[trigger] self.white.vals@[j] == vstd::wrapping::i16_specs::wrapping_add(ow[j], net.column(w as int)[j]),
                forall|j: int| 0 <= j < i ==> #[trigger] self.black.vals@[j] == vstd::wrapping::i16_specs::wrapping_add(ob[j], net.column(b as int)[j]),
                forall|j: int| i <= j < 768 ==> #[trigger] self.white.vals@[j] == ow[j],
                forall|j: int| i <= j < 768 ==> #[trigger] self.black.vals@[j] == ob[j],
            decreases 768 - i,
        {
            let cw = net.weight(w, i);
            let cb = net.weight(b, i);
            self.white.vals[i] = self.white.vals[i].wrapping_add(cw);
            self.black.vals[i] = self.black.vals[i].wrapping_add(cb);
            i += 1;
        }
        proof {
            assert(self.white.vals@ =~= plus(ow, net.column(w as int)));
            assert(self.black.vals@ =~= plus(ob, net.column(b as int)));
        }
    }

    /// Subtracts the feature columns of `piece` on `sq` from both halves.
    pub fn sub(&mut self, net: &Network, piece: Piece, sq: Square)
        requires
            net.wf(),
        ensures
            final(self).white.vals@ == minus(old(self).white.vals@, net.column(feature_pair(piece, sq@).0)),
            final(self).black.vals@ == minus(old(self).black.vals@, net.column(feature_pair(piece, sq@).1)),
    {
        let (w, b) = feature_indices(piece, sq);
        let ghost ow = self.white.vals@;
        let ghost ob = self.black.vals@;
        let mut i: usize = 0;
        while i < 768
            invariant
                i <= 768,
                net.wf(),
                w < 768,
                b < 768,
                self.white.vals@.len() == 768,
                self.black.vals@.len() == 768,
                forall|j: int| 0 <= j < i ==> #[trigger] self.white.vals@[j] == vstd::wrapping::i16_specs::wrapping_sub(ow[j], net.column(w as int)[j]),
                forall|j: int| 0 <= j < i ==> #[trigger] self.black.vals@[j] == vstd::wrapping::i16_specs::wrapping_sub(ob[j], net.column(b as int)[j]),
                forall|j: int| i <= j < 768 ==> #[trigger] self.white.vals@[j] == ow[j],
                forall|j: int| i <= j < 768 ==> #[trigger] self.black.vals@[j] == ob[j],
            decreases 768 - i,
        {
            let cw = net.weight(w, i);
            let cb = net.weight(b, i);
            self.white.vals[i] = self.white.vals[i].wrapping_sub(cw);
            self.black.vals[i] = self.black.vals[i].wrapping_sub(cb);
            i += 1;
        }
        proof {
            assert(self.white.vals@ =~= minus(ow, net.column(w as int)));
            assert(self.black.vals@ =~= minus(ob, net.column(b as int)));
        }
    }
}

/// Removing a feature column after adding it gives back the accumulator:
/// wrapping addition and subtraction undo each other.
pub proof fn lemma_add_sub_identity(a: Seq<i16>, c: Seq<i16>)
    requires
        a.len() == 768,
    ensures
        minus(plus(a, c), c) == a,
{
    assert(minus(plus(a, c), c) =~= a);
}

} // verus!
