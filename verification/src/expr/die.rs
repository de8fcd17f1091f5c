use vstd::prelude::*;

use crate::expr::draws::fair;
use crate::expr::error::{Error, Result};
use crate::stats::{ints, Distribution};

verus! {

/// A die with `sides` faces numbered from 1; a die without faces always shows 0.
#[derive(Clone, Copy, Debug, PartialEq, Eq, Structural)]
pub struct Die {
    pub sides: u32,
}

/// Draws a face with `rand::random_range(1..=sides)`. The crate documents
/// that the value lies in the inclusive range; it panics on an empty range,
/// which `requires` rules out, and when the thread-local generator cannot be
/// seeded by the operating system, which no input decides. Which value comes
/// out is up to that generator.
#[verifier::external_body]
fn random_face(sides: u32) -> (face: u32)
    requires
        1 <= sides,
    ensures
        1 <= face <= sides,
{
    rand::random_range(1..=sides)
}

/// A source of faces: each draw asks the thread-local generator for a face
/// of a die with a given number of sides, and is recorded.
pub struct FaceDraws {
    drawn: Ghost<Seq<(u32, u32)>>,
}

/// The numbers of sides asked for by the draws `h`, in order.
pub open spec fn sides_of(h: Seq<(u32, u32)>) -> Seq<u32> {
    h.map_values(|p: (u32, u32)| p.0)
}

/// The faces given by the draws `h`, in order.
pub open spec fn faces_of(h: Seq<(u32, u32)>) -> Seq<u32> {
    h.map_values(|p: (u32, u32)| p.1)
}

/// The draws of `h` made after the first `g.len()`.
pub open spec fn draws_after(g: Seq<(u32, u32)>, h: Seq<(u32, u32)>) -> Seq<(u32, u32)> {
    h.subrange(g.len() as int, h.len() as int)
}

/// `h` is `g` followed by more draws.
pub open spec fn extends(g: Seq<(u32, u32)>, h: Seq<(u32, u32)>) -> bool {
    g.len() <= h.len() && h.subrange(0, g.len() as int) == g
}

impl FaceDraws {
    /// Every draw so far, in order: the number of sides asked for and the
    /// face given.
    pub closed spec fn drawn(&self) -> Seq<(u32, u32)> {
        self.drawn@
    }

    /// A source that has drawn nothing yet.
    pub fn new() -> (d: Self)
        ensures
            d.drawn() == Seq::<(u32, u32)>::empty(),
    {
        FaceDraws { drawn: Ghost(Seq::empty()) }
    }

    /// Draws a face of a die with `sides` faces and records the draw.
    pub fn draw(&mut self, sides: u32) -> (face: u32)
        requires
            1 <= sides,
        ensures
            1 <= face <= sides,
            final(self).drawn() == old(self).drawn().push((sides, face)),
    {
        let face = random_face(sides);
        proof {
            self.drawn = Ghost(self.drawn@.push((sides, face)));
        }
        face
    }
}

impl Die {
    pub fn new(sides: u32) -> (d: Self)
        ensures
            d.sides == sides,
    {
        Self { sides }
    }

    pub fn sides(self) -> (n: u32)
        ensures
            n == self.sides,
    {
        self.sides
    }

    /// The smallest face: 1, or 0 for a die without faces.
    pub open spec fn min_spec(self) -> int {
        if self.sides == 0 {
            0
        } else {
            1
        }
    }

    /// The largest face: the number of sides.
    pub open spec fn max_spec(self) -> int {
        self.sides as int
    }

    /// Twice the expected value of a roll: `sides + 1`, or 0 without faces.
    pub open spec fn mean_twice(self) -> int {
        if self.sides == 0 {
            0
        } else {
            self.sides + 1
        }
    }

    /// How many faces a roll takes from a sequence of draws: one, or none
    /// for a die without faces.
    pub open spec fn draw_count(self) -> nat {
        if self.sides == 0 {
            0
        } else {
            1
        }
    }

    /// The draw at `at` is one of the faces of the die.
    pub open spec fn draws_valid(self, fs: Seq<u32>, at: int) -> bool {
        self.sides == 0 || (0 <= at < fs.len() && 1 <= fs[at] <= self.sides)
    }

    /// The value rolled with the draw at `at`.
    pub open spec fn roll_value(self, fs: Seq<u32>, at: int) -> int {
        if self.sides == 0 {
            0
        } else {
            fs[at] as int
        }
    }

    /// Rolls the die with the draw at `at`; gives the value and the position
    /// after the draws it took.
    pub fn roll_with(self, faces: &[u32], at: usize) -> (r: (u32, usize))
        requires
            at + self.draw_count() <= faces@.len(),
        ensures
            r.0 == self.roll_value(faces@, at as int),
            r.1 == at + self.draw_count(),
    {
        if self.sides == 0 {
            (0, at)
        } else {
            (faces[at], at + 1)
        }
    }

    /// The numbers of sides of the dice a roll draws for, in order: this
    /// die's, or none for a die without faces.
    pub open spec fn dice_sides(self) -> Seq<u32> {
        if self.sides == 0 {
            seq![]
        } else {
            seq![self.sides]
        }
    }

    /// Rolls the die with a face drawn from `src`: one draw over all its
    /// faces, or none for a die without faces; the face is that draw's.
    pub fn roll_from(self, src: &mut FaceDraws) -> (face: u32)
        ensures
            extends(old(src).drawn(), final(src).drawn()),
            sides_of(draws_after(old(src).drawn(), final(src).drawn())) == self.dice_sides(),
            fair(draws_after(old(src).drawn(), final(src).drawn())),
            faces_of(draws_after(old(src).drawn(), final(src).drawn())).len() == self.draw_count(),
            self.draws_valid(faces_of(draws_after(old(src).drawn(), final(src).drawn())), 0),
            face == self.roll_value(faces_of(draws_after(old(src).drawn(), final(src).drawn())), 0),
    {
        let ghost h0 = src.drawn();
        if self.sides == 0 {
            assert(draws_after(h0, src.drawn()) =~= Seq::<(u32, u32)>::empty());
            assert(sides_of(draws_after(h0, src.drawn())) =~= self.dice_sides());
            assert(src.drawn().subrange(0, h0.len() as int) =~= h0);
            0
        } else {
            let face = src.draw(self.sides);
            let ghost d = draws_after(h0, src.drawn());
            assert(d =~= seq![(self.sides, face)]);
            assert(d[0] == (self.sides, face));
            assert(sides_of(d) =~= self.dice_sides());
            assert(faces_of(d) =~= seq![face]);
            assert(src.drawn().subrange(0, h0.len() as int) =~= h0);
            face
        }
    }

    /// Rolls the die once.
    pub fn roll(self) -> (face: u32)
        ensures
            self.min_spec() <= face <= self.max_spec(),
            self.sides == 0 ==> face == 0,
            exists|fs: Seq<u32>|
                fs.len() == self.draw_count() && self.draws_valid(fs, 0) && face == self.roll_value(fs, 0),
    {
        let mut src = FaceDraws::new();
        let face = self.roll_from(&mut src);
        let ghost fs = faces_of(draws_after(Seq::empty(), src.drawn()));
        assert(fs.len() == self.draw_count() && self.draws_valid(fs, 0) && face == self.roll_value(fs, 0));
        face
    }

    /// Every face once: `1..=sides`, or just 0 for a die without faces.
    pub open spec fn outcomes(self) -> Seq<int> {
        if self.sides == 0 {
            seq![0]
        } else {
            Seq::new(self.sides as nat, |k: int| k + 1)
        }
    }

    pub fn distribution(&self) -> (r: Result<Distribution>)
        ensures
            r matches Ok(d) && ints(d@) == self.outcomes(),
    {
        let mut out: Vec<i128> = Vec::new();
        if self.sides == 0 {
            out.push(0);
            assert(ints(out@) =~= self.outcomes());
            return Ok(Distribution(out));
        }
        let mut v: u64 = 1;
        while v <= self.sides as u64
            invariant
                1 <= v <= self.sides + 1,
                out@.len() == v - 1,
                forall|k: int| 0 <= k < out@.len() ==> #[trigger] out@[k] == k + 1,
            decreases self.sides + 1 - v,
        {
            out.push(v as i128);
            v = v + 1;
        }
        assert(ints(out@) =~= self.outcomes());
        Ok(Distribution(out))
    }

    pub fn min(&self) -> (r: Result<i128>)
        ensures
            r == Ok::<i128, Error>(self.min_spec() as i128),
    {
        Ok(if self.sides == 0 { 0 } else { 1 })
    }

    pub fn max(&self) -> (r: Result<i128>)
        ensures
            r == Ok::<i128, Error>(self.max_spec() as i128),
    {
        Ok(self.sides as i128)
    }
}

} // verus!
