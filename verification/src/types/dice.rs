//! Die values and ordered die pairs, with their compact encodings.

use vstd::prelude::*;

verus! {

/// One die face.
#[derive(Hash, Eq, PartialEq, Structural, Copy, Clone, Debug)]
pub struct Die(pub u8);

/// An ordered pair of die faces.
#[derive(Hash, Eq, PartialEq, Structural, Copy, Clone, Debug)]
pub struct Dice(pub Die, pub Die);

impl Die {
    /// A die face lies in 1..=6.
    pub open spec fn valid(self) -> bool {
        1 <= self.0 <= 6
    }
}

impl Dice {
    /// Both faces lie in 1..=6.
    pub open spec fn valid(self) -> bool {
        self.0.valid() && self.1.valid()
    }

    /// The character that encodes this pair: the 36 ordered pairs are
    /// indexed row by row and written `'0'..='9'` then `'A'..='Z'`.
    pub open spec fn spec_alnum(self) -> char {
        let index = (self.0.0 - 1) * 6 + (self.1.0 - 1);
        if index < 10 {
            ((48 + index) as u8) as char
        } else {
            ((65 + index - 10) as u8) as char
        }
    }

    /// All 36 ordered die pairs, first face slowest.
    pub fn iter_all_possible() -> (r: Vec<Dice>)
        ensures
            r@.len() == 36,
            forall|k: int|
                0 <= k < 36 ==> #[trigger] r@[k] == Dice(
                    Die((k / 6 + 1) as u8),
                    Die((k % 6 + 1) as u8),
                ),
    {
        let mut r: Vec<Dice> = Vec::new();
        for k in 0..36u8
            invariant
                r@.len() == k,
                forall|j: int|
                    0 <= j < k ==> #[trigger] r@[j] == Dice(
                        Die((j / 6 + 1) as u8),
                        Die((j % 6 + 1) as u8),
                    ),
        {
            r.push(Dice(Die(k / 6 + 1), Die(k % 6 + 1)));
        }
        r
    }

    /// The submoves this roll grants: the two faces, or four uses of the
    /// repeated face for a double.
    pub fn dice(&self) -> (r: Vec<Die>)
        ensures
            self.0 == self.1 ==> r@ == seq![self.0, self.0, self.0, self.0],
            self.0 != self.1 ==> r@ == seq![self.0, self.1],
    {
        if self.0 == self.1 {
            let r = vec![self.0, self.0, self.0, self.0];
            proof {
                assert(r@ =~= seq![self.0, self.0, self.0, self.0]);
            }
            return r;
        }
        let r = vec![self.0, self.1];
        proof {
            assert(r@ =~= seq![self.0, self.1]);
        }
        r
    }

    /// The one-byte encoding: first face in the high three bits.
    pub fn as_u8(&self) -> (r: u8)
        requires
            self.valid(),
        ensures
            r == self.0.0 * 8 + self.1.0,
    {
        let a = self.0.0;
        let b = self.1.0;
        proof {
            assert(a << 3u8 | b == a * 8 + b) by (bit_vector)
                requires
                    a <= 6,
                    b <= 6,
            ;
        }
        a << 3u8 | b
    }

    /// The pair read back from its one-byte encoding.
    pub fn from_u8(u: u8) -> (r: Dice)
        ensures
            r.0.0 == u / 8,
            r.1.0 == u % 8,
    {
        proof {
            assert(u >> 3u8 == u / 8 && u & 0b111 == u % 8) by (bit_vector);
        }
        Dice(Die(u >> 3u8), Die(u & 0b111))
    }

    /// The one-character encoding of this pair.
    pub fn as_alnum(&self) -> (r: char)
        requires
            self.valid(),
        ensures
            r == self.spec_alnum(),
    {
        let index = (self.0.0 - 1) * 6 + (self.1.0 - 1);
        if index < 10 {
            (48 + index) as char
        } else {
            (65 + index - 10) as char
        }
    }

    /// The pair read back from its one-character encoding.
    pub fn from_alnum(c: char) -> (r: Self)
        requires
            ('0' <= c && c <= '9') || ('A' <= c && c <= 'Z'),
        ensures
            r.valid(),
            r.spec_alnum() == c,
    {
        let u = #[verifier::truncate] (c as u8);
        proof {
            assert(('0' <= c && c <= '9') ==> 48 <= c as u8 <= 57);
            assert(('A' <= c && c <= 'Z') ==> 65 <= c as u8 <= 90);
        }
        let index: u8 = if u <= 57 {
            u - 48
        } else {
            10 + (u - 65)
        };
        let first = index / 6 + 1;
        let second = index % 6 + 1;
        let r = Dice(Die(first), Die(second));
        proof {
            assert(index < 36);
            assert((r.0.0 - 1) * 6 + (r.1.0 - 1) == index);
        }
        r
    }

    /// Relies on rand's `Rng::gen_range`: a value inside the given range,
    /// drawn for each face.
    #[verifier::external_body]
    pub fn roll(rng: &mut impl rand::Rng) -> (r: Dice)
        ensures
            r.valid(),
    {
        Dice(Die(rng.gen_range(1..=6)), Die(rng.gen_range(1..=6)))
    }

    /// Whether both faces are equal, granting four submoves.
    pub fn is_double(&self) -> (r: bool)
        ensures
            r <==> self.0 == self.1,
    {
        self.0 == self.1
    }
}

} // verus!
