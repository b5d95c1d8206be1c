//! The two checker colors and the signed cell values that carry them.
//!
//! A cell of the board holds a signed count: positive counts are white
//! checkers, negative counts are black checkers, zero is an empty cell.

use vstd::prelude::*;

verus! {

/// One of the two checker colors.
#[derive(Hash, Eq, PartialEq, Structural, Copy, Clone, Debug)]
pub enum Bw {
    Black,
    White,
}

/// The sign that `c`'s checkers carry in a signed cell count.
pub open spec fn sign_of(c: Bw) -> int {
    match c {
        Bw::White => 1,
        Bw::Black => -1,
    }
}

/// Whether a signed cell count `v` holds at least one checker of color `c`.
pub open spec fn owns(v: int, c: Bw) -> bool {
    match c {
        Bw::White => v > 0,
        Bw::Black => v < 0,
    }
}

/// The magnitude of a signed cell count: how many checkers the cell holds.
pub open spec fn mag(v: int) -> int {
    if v >= 0 {
        v
    } else {
        -v
    }
}

impl Bw {
    /// The color moving against this one.
    pub open spec fn spec_opponent(self) -> Bw {
        match self {
            Bw::Black => Bw::White,
            Bw::White => Bw::Black,
        }
    }

    /// The opposing color.
    pub fn opponent(self) -> (r: Bw)
        ensures
            r == self.spec_opponent(),
    {
        match self {
            Bw::Black => Bw::White,
            Bw::White => Bw::Black,
        }
    }

    /// A compact numeric code: black is 0, white is 1.
    pub fn as_u8(&self) -> (r: u8)
        ensures
            r == match *self {
                Bw::Black => 0u8,
                Bw::White => 1u8,
            },
    {
        match self {
            Bw::Black => 0,
            Bw::White => 1,
        }
    }

    /// A one-character code for logs.
    pub fn as_alnum(&self) -> (r: char)
        ensures
            r == match *self {
                Bw::Black => 'B',
                Bw::White => 'W',
            },
    {
        match self {
            Bw::Black => 'B',
            Bw::White => 'W',
        }
    }
}

/// A signed cell count: the owner is the sign, the checker count the magnitude.
#[derive(Clone, Copy, PartialEq, Eq, Structural, Hash, Debug)]
pub struct BOrW(pub i8);

impl BOrW {
    /// The empty cell.
    pub fn empty() -> (r: BOrW)
        ensures
            r.0 == 0,
    {
        BOrW(0)
    }

    /// Whether the cell holds no checker.
    pub fn is_empty(&self) -> (r: bool)
        ensures
            r <==> self.0 == 0,
    {
        self.0 == 0
    }

    /// The owner and checker count of a non-empty cell, or nothing.
    pub fn to_bwn(self) -> (r: Option<(Bw, u8)>)
        requires
            i8::MIN < self.0,
        ensures
            r == if self.0 > 0 {
                Some((Bw::White, self.0 as u8))
            } else if self.0 < 0 {
                Some((Bw::Black, (-self.0) as u8))
            } else {
                None::<(Bw, u8)>
            },
    {
        if self.0 > 0 {
            Some((Bw::White, self.0 as u8))
        } else if self.0 < 0 {
            Some((Bw::Black, (-self.0) as u8))
        } else {
            None
        }
    }

    /// How many checkers the cell holds, whoever owns them.
    pub fn to_count(self) -> (r: u8)
        requires
            i8::MIN < self.0,
        ensures
            r == mag(self.0 as int),
    {
        if self.0 >= 0 {
            self.0 as u8
        } else {
            (-self.0) as u8
        }
    }

    /// The owner of a non-empty cell, or nothing.
    pub fn to_color(self) -> (r: Option<Bw>)
        ensures
            r == if self.0 > 0 {
                Some(Bw::White)
            } else if self.0 < 0 {
                Some(Bw::Black)
            } else {
                None::<Bw>
            },
    {
        if self.0 > 0 {
            Some(Bw::White)
        } else if self.0 < 0 {
            Some(Bw::Black)
        } else {
            None
        }
    }

    /// Whether the cell holds checkers of color `bw`.
    pub fn matches(&self, bw: Bw) -> (r: bool)
        ensures
            r <==> owns(self.0 as int, bw),
    {
        match bw {
            Bw::White => self.0 > 0,
            Bw::Black => self.0 < 0,
        }
    }

    /// A cell of `n` white checkers.
    pub fn white(n: u8) -> (r: Self)
        requires
            n <= 15,
        ensures
            r.0 == n as i8,
    {
        Self(n as i8)
    }

    /// A cell of `n` black checkers.
    pub fn black(n: u8) -> (r: Self)
        requires
            n <= 15,
        ensures
            r.0 == -(n as int),
    {
        Self(-(n as i8))
    }

    /// The raw count reinterpreted as a machine word.
    pub fn as_u32(self) -> (r: u32)
        ensures
            r == self.0 as u32,
    {
        self.0 as u32
    }

    /// A one-character code: lower case for white, upper case for black,
    /// `'0'` for an empty cell.
    pub fn as_alnum(self) -> (r: char)
        requires
            -15 <= self.0 <= 15,
        ensures
            r == if self.0 > 0 {
                ((self.0 + 97) as u8) as char
            } else if self.0 < 0 {
                ((-self.0 + 65) as u8) as char
            } else {
                '0'
            },
    {
        if self.0 > 0 {
            (self.0 as u8 + 97) as char
        } else if self.0 < 0 {
            ((-self.0) as u8 + 65) as char
        } else {
            '0'
        }
    }
}

/// A cell of exactly one checker of color `c`.
pub fn one_checker(c: Bw) -> (r: BOrW)
    ensures
        r.0 == match c {
            Bw::White => 1i8,
            Bw::Black => -1i8,
        },
{
    match c {
        Bw::White => BOrW(1),
        Bw::Black => BOrW(-1),
    }
}

impl From<(Bw, u8)> for BOrW {
    /// A cell of `n` checkers of the given color; zero checkers give the
    /// empty cell whoever the color is.
    fn from(t: (Bw, u8)) -> (r: Self) {
        let (bw, n) = t;
        if n == 0 {
            BOrW(0)
        } else {
            match bw {
                Bw::White => BOrW(#[verifier::truncate] (n as i8)),
                Bw::Black => BOrW(#[verifier::truncate] ((0i16 - (n as i16)) as i8)),
            }
        }
    }
}

impl vstd::std_specs::convert::FromSpecImpl<(Bw, u8)> for BOrW {
    open spec fn obeys_from_spec() -> bool {
        true
    }

    open spec fn from_spec(t: (Bw, u8)) -> Self {
        if t.1 == 0 {
            BOrW(0)
        } else {
            match t.0 {
                Bw::White => BOrW(t.1 as i8),
                Bw::Black => BOrW((-(t.1 as int)) as i8),
            }
        }
    }
}

impl Default for BOrW {
    /// The empty cell.
    fn default() -> (r: Self)
        ensures
            r.0 == 0,
    {
        Self(0)
    }
}

/// A pair of per-color counts, indexed by color: black first, white second.
#[derive(Debug, Clone, Copy, PartialEq, Eq, Hash)]
pub struct BAndW(pub [u8; 2]);

impl BAndW {
    /// A pair from its two counts.
    pub fn new(black: u8, white: u8) -> (r: Self)
        ensures
            r.0@ == seq![black, white],
    {
        let r = Self([black, white]);
        proof {
            assert(r.0@ =~= seq![black, white]);
        }
        r
    }

    /// Whether both counts are zero.
    pub fn is_empty(&self) -> (r: bool)
        ensures
            r <==> (self.0@[0] == 0 && self.0@[1] == 0),
    {
        self.0[0] == 0 && self.0[1] == 0
    }

    /// The count of color `bw`.
    pub fn get(&self, bw: &Bw) -> (r: u8)
        ensures
            r == match *bw {
                Bw::Black => self.0@[0],
                Bw::White => self.0@[1],
            },
    {
        match bw {
            Bw::Black => self.0[0],
            Bw::White => self.0[1],
        }
    }

    /// Replaces the count of color `bw`.
    pub fn set(&mut self, bw: &Bw, n: u8)
        ensures
            final(self).0@ == old(self).0@.update(
                match *bw {
                    Bw::Black => 0,
                    Bw::White => 1,
                },
                n,
            ),
    {
        match bw {
            Bw::Black => self.0[0] = n,
            Bw::White => self.0[1] = n,
        }
    }

    /// The pair of two empty counts.
    pub fn empty() -> (r: Self)
        ensures
            r.0@ == seq![0u8, 0u8],
    {
        let r = Self([0, 0]);
        proof {
            assert(r.0@ =~= seq![0u8, 0u8]);
        }
        r
    }

    /// The two counts packed into one word: black in the high byte.
    pub fn as_u32(&self) -> (r: u32)
        ensures
            r == self.0@[0] * 256 + self.0@[1],
    {
        let r: u32 = (self.0[0] as u32) << 8u32 | self.0[1] as u32;
        proof {
            let b: u32 = self.0@[0] as u32;
            let w: u32 = self.0@[1] as u32;
            assert(b << 8u32 | w == b * 256 + w) by (bit_vector)
                requires
                    b < 256,
                    w < 256,
            ;
        }
        r
    }

    /// The pair unpacked from one word: black from the high byte.
    pub fn from_u32(n: u32) -> (r: Self)
        ensures
            r.0@[0] == (n / 256) % 256,
            r.0@[1] == n % 256,
            r.0@.len() == 2,
    {
        let hi: u32 = n >> 8u32;
        let r = Self([#[verifier::truncate] (hi as u8), #[verifier::truncate] (n as u8)]);
        proof {
            assert((n >> 8u32) as u8 == (n / 256) % 256 && n as u8 == n % 256) by (bit_vector);
        }
        r
    }

    /// Two one-character codes: upper case for black, lower case for white.
    pub fn as_alnum(&self) -> (r: [char; 2])
        requires
            self.0@[0] <= 15,
            self.0@[1] <= 15,
        ensures
            r@ == seq![((self.0@[0] + 65) as u8) as char, ((self.0@[1] + 97) as u8) as char],
    {
        let r = [(self.0[0] + 65) as char, (self.0[1] + 97) as char];
        proof {
            assert(r@ =~= seq![
                ((self.0@[0] + 65) as u8) as char,
                ((self.0@[1] + 97) as u8) as char,
            ]);
        }
        r
    }
}

} // verus!
