//! Point coordinates and the fixed 26-slot board.
//!
//! Slots 1..=24 are the inner points; slot 0 is black's bar and slot 25 is
//! white's bar. White moves from high coordinates toward 1 and bears off past
//! the low edge; black moves the opposite way. A cell holds a signed checker
//! count as in [`BOrW`].

use vstd::prelude::*;

use crate::types::dice::Die;
use crate::types::prim::{mag, owns, BOrW, Bw};

verus! {

/// The bar slot of color `c`.
pub open spec fn bar_index(c: Bw) -> int {
    match c {
        Bw::White => 25,
        Bw::Black => 0,
    }
}

/// Whether inner point `i` lies in `c`'s home quadrant.
pub open spec fn home_point(i: int, c: Bw) -> bool {
    match c {
        Bw::White => 1 <= i <= 6,
        Bw::Black => 19 <= i <= 24,
    }
}

/// The distance of slot `i` from `c`'s entry edge: the number of pips that
/// would carry a checker at `i` off the board.
pub open spec fn perspective_of(i: int, c: Bw) -> int {
    match c {
        Bw::White => i,
        Bw::Black => 25 - i,
    }
}

/// The slot reached from `i` by moving `d` pips in `c`'s direction.
pub open spec fn dest_of(i: int, c: Bw, d: int) -> int {
    match c {
        Bw::White => i - d,
        Bw::Black => i + d,
    }
}

/// A cell value after a sign-aware decrement: one checker of the current
/// owner leaves the cell.
pub open spec fn dec_val(v: i8) -> i8 {
    if v < 0 {
        (v + 1) as i8
    } else {
        (v - 1) as i8
    }
}

/// A cell value after a sign-aware increment: one more checker of the
/// current owner joins the cell.
pub open spec fn inc_val(v: i8) -> i8 {
    if v < 0 {
        (v - 1) as i8
    } else {
        (v + 1) as i8
    }
}

/// A cell value after adding one checker of color `c` by raw signed addition.
pub open spec fn add_sign(v: i8, c: Bw) -> i8 {
    match c {
        Bw::White => (v + 1) as i8,
        Bw::Black => (v - 1) as i8,
    }
}

/// What cell value `v` contributes to `c`'s checker count.
pub open spec fn cell_contrib(v: i8, c: Bw) -> int {
    if owns(v as int, c) {
        mag(v as int)
    } else {
        0
    }
}

/// `c`'s checker count over the first `n` slots of `s`.
pub open spec fn color_sum_to(s: Seq<i8>, c: Bw, n: int) -> int
    decreases n,
{
    if n <= 0 {
        0
    } else {
        color_sum_to(s, c, n - 1) + cell_contrib(s[n - 1], c)
    }
}

/// `c`'s checker count over the whole 26-slot board, bars included.
pub open spec fn color_sum(s: Seq<i8>, c: Bw) -> int {
    color_sum_to(s, c, 26)
}

proof fn lemma_color_sum_to_update(s: Seq<i8>, c: Bw, i: int, v: i8, n: int)
    requires
        0 <= i < s.len(),
        n <= s.len(),
    ensures
        color_sum_to(s.update(i, v), c, n) == color_sum_to(s, c, n) + if i < n {
            cell_contrib(v, c) - cell_contrib(s[i], c)
        } else {
            0
        },
    decreases n,
{
    if n > 0 {
        lemma_color_sum_to_update(s, c, i, v, n - 1);
    }
}

/// Replacing one cell changes a color's count by the difference of the two
/// cells' contributions.
pub proof fn lemma_color_sum_update(s: Seq<i8>, c: Bw, i: int, v: i8)
    requires
        s.len() == 26,
        0 <= i < 26,
    ensures
        color_sum(s.update(i, v), c) == color_sum(s, c) - cell_contrib(s[i], c) + cell_contrib(
            v,
            c,
        ),
{
    lemma_color_sum_to_update(s, c, i, v, 26);
}

proof fn lemma_color_sum_to_nonneg(s: Seq<i8>, c: Bw, n: int)
    ensures
        color_sum_to(s, c, n) >= 0,
    decreases n,
{
    if n > 0 {
        lemma_color_sum_to_nonneg(s, c, n - 1);
    }
}

proof fn lemma_cell_le_color_sum_to(s: Seq<i8>, c: Bw, i: int, n: int)
    requires
        0 <= i < n,
    ensures
        cell_contrib(s[i], c) <= color_sum_to(s, c, n),
    decreases n,
{
    lemma_color_sum_to_nonneg(s, c, i);
    if i < n - 1 {
        lemma_cell_le_color_sum_to(s, c, i, n - 1);
    }
}

proof fn lemma_two_cells_le_color_sum_to(s: Seq<i8>, c: Bw, i: int, j: int, n: int)
    requires
        0 <= i < j < n,
    ensures
        cell_contrib(s[i], c) + cell_contrib(s[j], c) <= color_sum_to(s, c, n),
    decreases n,
{
    if j == n - 1 {
        lemma_cell_le_color_sum_to(s, c, i, n - 1);
    } else {
        lemma_two_cells_le_color_sum_to(s, c, i, j, n - 1);
    }
}

/// Two distinct cells together hold no more of `c`'s checkers than `c`'s
/// whole count.
pub proof fn lemma_two_cells_le_color_sum(s: Seq<i8>, c: Bw, i: int, j: int)
    requires
        s.len() == 26,
        0 <= i < 26,
        0 <= j < 26,
        i != j,
    ensures
        cell_contrib(s[i], c) + cell_contrib(s[j], c) <= color_sum(s, c),
{
    if i < j {
        lemma_two_cells_le_color_sum_to(s, c, i, j, 26);
    } else {
        lemma_two_cells_le_color_sum_to(s, c, j, i, 26);
    }
}

/// A well-formed 26-slot occupancy vector: the bars carry their colors'
/// signs, every cell holds at most 15 checkers, and neither color exceeds
/// its 15 checkers over board and bars together.
pub open spec fn wf_seq(s: Seq<i8>) -> bool {
    &&& s.len() == 26
    &&& s[0] <= 0
    &&& s[25] >= 0
    &&& forall|i: int| 0 <= i < 26 ==> -15 <= #[trigger] s[i] <= 15
    &&& color_sum(s, Bw::White) <= 15
    &&& color_sum(s, Bw::Black) <= 15
}

/// A point address: 1..=24 are the inner points, 0 and 25 the two bars.
#[derive(Hash, Eq, PartialEq, Structural, Copy, Clone, Debug)]
pub struct BoardCoord(pub u8);

impl BoardCoord {
    /// The 24 inner points in ascending order.
    pub fn inner_board_coords() -> (r: Vec<BoardCoord>)
        ensures
            r@.len() == 24,
            forall|k: int| 0 <= k < 24 ==> (#[trigger] r@[k]).0 == k + 1,
    {
        let mut r: Vec<BoardCoord> = Vec::new();
        for k in 1..25u8
            invariant
                r@.len() == k - 1,
                forall|j: int| 0 <= j < k - 1 ==> (#[trigger] r@[j]).0 == j + 1,
        {
            r.push(BoardCoord(k));
        }
        r
    }

    /// The bar slot of color `color`.
    pub fn bar(color: Bw) -> (r: BoardCoord)
        ensures
            r.0 == bar_index(color),
    {
        match color {
            Bw::White => BoardCoord(25),
            Bw::Black => BoardCoord(0),
        }
    }

    /// The slot at distance `i` from `color`'s entry edge.
    pub fn rel(color: Bw, i: u8) -> (r: BoardCoord)
        requires
            i <= 25,
        ensures
            r.0 as int == match color {
                Bw::White => i as int,
                Bw::Black => 25 - i,
            },
    {
        match color {
            Bw::White => BoardCoord(i),
            Bw::Black => BoardCoord(25 - i),
        }
    }

    /// The same slot seen from the mirrored perspective.
    pub fn mirror(self) -> (r: BoardCoord)
        requires
            self.0 <= 25,
        ensures
            r.0 == 25 - self.0,
    {
        BoardCoord(25 - self.0)
    }

    /// Whether this point lies strictly inside `color`'s home quadrant;
    /// false at either bar.
    pub fn is_home(&self, color: Bw) -> (r: bool)
        ensures
            r <==> home_point(self.0 as int, color),
    {
        match color {
            Bw::White => 1 <= self.0 && self.0 <= 6,
            Bw::Black => 19 <= self.0 && self.0 <= 24,
        }
    }

    /// Whether this slot is `color`'s bar.
    pub fn is_bar(&self, color: Bw) -> (r: bool)
        ensures
            r <==> self.0 == bar_index(color),
    {
        match color {
            Bw::White => self.0 == 25,
            Bw::Black => self.0 == 0,
        }
    }

    /// The distance from `color`'s entry edge, used for bear-off checks.
    pub fn perspective(&self, color: Bw) -> (r: u8)
        requires
            self.0 <= 25,
        ensures
            r as int == perspective_of(self.0 as int, color),
    {
        match color {
            Bw::White => self.0,
            Bw::Black => 25 - self.0,
        }
    }

    /// Moves `die` pips in `color`'s direction; nothing if the step lands at
    /// or beyond either edge. Bear-off handles the edges elsewhere.
    pub fn advance(self, color: Bw, die: Die) -> (r: Option<BoardCoord>)
        requires
            self.0 <= 25,
            die.valid(),
        ensures
            ({
                let t = dest_of(self.0 as int, color, die.0 as int);
                if 1 <= t <= 24 {
                    r == Some(BoardCoord(t as u8))
                } else {
                    r is None
                }
            }),
    {
        let out: u8 = match color {
            Bw::Black => self.0 + die.0,
            Bw::White => {
                if self.0 < die.0 {
                    return None;
                }
                self.0 - die.0
            },
        };
        if out == 0 || out >= 25 {
            None
        } else {
            Some(BoardCoord(out))
        }
    }
}

/// The canonical starting layout.
pub open spec fn starting_board() -> Seq<i8> {
    seq![
        0i8,
        -2i8,
        0i8,
        0i8,
        0i8,
        0i8,
        5i8,
        0i8,
        3i8,
        0i8,
        0i8,
        0i8,
        -5i8,
        5i8,
        0i8,
        0i8,
        0i8,
        -3i8,
        0i8,
        -5i8,
        0i8,
        0i8,
        0i8,
        0i8,
        2i8,
        0i8,
    ]
}

/// A cell with its owner flipped: the same checkers in the other color.
pub open spec fn neg_cell(v: i8) -> i8 {
    if v == i8::MIN {
        i8::MIN
    } else {
        (-(v as int)) as i8
    }
}

/// The mirrored-perspective occupancy: point order reversed and every count
/// negated, so each color's position becomes the other's.
pub open spec fn inv_seq(s: Seq<i8>) -> Seq<i8> {
    Seq::new(s.len(), |i: int| neg_cell(s[s.len() - 1 - i]))
}

/// The color with no checkers left anywhere on `s`, if there is one; white
/// is examined first.
pub open spec fn spec_winner(s: Seq<i8>) -> Option<Bw> {
    if forall|i: int| 0 <= i < 26 ==> !owns(#[trigger] s[i] as int, Bw::White) {
        Some(Bw::White)
    } else if forall|i: int| 0 <= i < 26 ==> !owns(#[trigger] s[i] as int, Bw::Black) {
        Some(Bw::Black)
    } else {
        None
    }
}

/// The fixed 26-slot board: inner points 1..=24, bars at 0 and 25.
#[derive(Eq, Hash, Clone, Copy, Debug)]
pub struct Board(pub [i8; 26]);

impl View for Board {
    type V = Seq<i8>;

    open spec fn view(&self) -> Seq<i8> {
        self.0@
    }
}

impl PartialEq for Board {
    fn eq(&self, other: &Self) -> (r: bool) {
        let mut k: usize = 0;
        while k < 26
            invariant
                k <= 26,
                forall|i: int| 0 <= i < k ==> self@[i] == other@[i],
            decreases 26 - k,
        {
            if self.0[k] != other.0[k] {
                proof {
                    assert(self@[k as int] != other@[k as int]);
                    assert(self@ != other@);
                }
                return false;
            }
            k += 1;
        }
        proof {
            assert(self@ =~= other@);
            assert(self@ == other@);
        }
        true
    }
}

impl vstd::std_specs::cmp::PartialEqSpecImpl for Board {
    open spec fn obeys_eq_spec() -> bool {
        true
    }

    open spec fn eq_spec(&self, other: &Board) -> bool {
        self@ == other@
    }
}

impl Board {
    /// A well-formed board; see [`wf_seq`].
    pub open spec fn wf(self) -> bool {
        wf_seq(self@)
    }

    /// The board with no checkers anywhere.
    pub fn empty() -> (r: Self)
        ensures
            forall|i: int| 0 <= i < 26 ==> #[trigger] r@[i] == 0i8,
    {
        Self([0; 26])
    }

    /// The cell at `coord`.
    pub fn get(&self, coord: BoardCoord) -> (r: BOrW)
        requires
            coord.0 <= 25,
        ensures
            r.0 == self@[coord.0 as int],
    {
        BOrW(self.0[coord.0 as usize])
    }

    /// Replaces the cell at `coord`.
    pub fn set(&mut self, coord: BoardCoord, v: BOrW)
        requires
            coord.0 <= 25,
        ensures
            final(self)@ == old(self)@.update(coord.0 as int, v.0),
    {
        self.0[coord.0 as usize] = v.0;
    }

    /// Removes one checker of the owning color from a non-empty cell.
    pub fn dec_cell(&mut self, coord: BoardCoord)
        requires
            coord.0 <= 25,
            old(self)@[coord.0 as int] != 0,
        ensures
            final(self)@ == old(self)@.update(
                coord.0 as int,
                dec_val(old(self)@[coord.0 as int]),
            ),
    {
        let v = self.0[coord.0 as usize];
        if v < 0 {
            self.0[coord.0 as usize] = v + 1;
        } else {
            self.0[coord.0 as usize] = v - 1;
        }
    }

    /// Adds one checker of the owning color to a cell.
    pub fn inc_cell(&mut self, coord: BoardCoord)
        requires
            coord.0 <= 25,
            i8::MIN < old(self)@[coord.0 as int] < i8::MAX,
        ensures
            final(self)@ == old(self)@.update(
                coord.0 as int,
                inc_val(old(self)@[coord.0 as int]),
            ),
    {
        let v = self.0[coord.0 as usize];
        if v < 0 {
            self.0[coord.0 as usize] = v - 1;
        } else {
            self.0[coord.0 as usize] = v + 1;
        }
    }

    /// Whether `color` has no checkers left anywhere, bars included.
    pub fn is_winner(&self, color: Bw) -> (r: bool)
        ensures
            r <==> forall|i: int| 0 <= i < 26 ==> !owns(#[trigger] self@[i] as int, color),
    {
        let mut k: usize = 0;
        while k < 26
            invariant
                k <= 26,
                forall|i: int| 0 <= i < k ==> !owns(#[trigger] self@[i] as int, color),
            decreases 26 - k,
        {
            let v = self.0[k];
            let found = match color {
                Bw::White => v > 0,
                Bw::Black => v < 0,
            };
            if found {
                proof {
                    assert(owns(self@[k as int] as int, color));
                }
                return false;
            }
            k += 1;
        }
        true
    }

    /// The color with all 15 checkers borne off, if there is one; white is
    /// examined first.
    pub fn winner(&self) -> (r: Option<Bw>)
        ensures
            r == spec_winner(self@),
    {
        if self.is_winner(Bw::White) {
            Some(Bw::White)
        } else if self.is_winner(Bw::Black) {
            Some(Bw::Black)
        } else {
            None
        }
    }

    /// Adds one checker of `color` to its bar.
    pub fn inc_bar(&mut self, color: Bw)
        requires
            i8::MIN < old(self)@[bar_index(color)] < i8::MAX,
        ensures
            final(self)@ == old(self)@.update(
                bar_index(color),
                add_sign(old(self)@[bar_index(color)], color),
            ),
    {
        match color {
            Bw::White => {
                let v = self.0[25];
                self.0[25] = v + 1;
            },
            Bw::Black => {
                let v = self.0[0];
                self.0[0] = v - 1;
            },
        }
    }

    /// Removes one checker from `color`'s non-empty bar.
    pub fn dec_bar(&mut self, color: Bw)
        requires
            old(self)@[bar_index(color)] != 0,
        ensures
            final(self)@ == old(self)@.update(
                bar_index(color),
                dec_val(old(self)@[bar_index(color)]),
            ),
    {
        let bar = BoardCoord::bar(color);
        self.dec_cell(bar);
    }

    /// The mirrored-perspective board: point order reversed, every count
    /// negated.
    pub fn inverse(&self) -> (r: Board)
        requires
            forall|i: int| 0 <= i < 26 ==> -15 <= #[trigger] self@[i] <= 15,
        ensures
            forall|i: int| 0 <= i < 26 ==> #[trigger] r@[i] as int == -(self@[25 - i] as int),
            r@ == inv_seq(self@),
    {
        let mut arr: [i8; 26] = [0; 26];
        let mut k: usize = 0;
        while k < 26
            invariant
                k <= 26,
                forall|i: int| 0 <= i < 26 ==> -15 <= #[trigger] self@[i] <= 15,
                forall|i: int| 0 <= i < k ==> #[trigger] arr@[i] as int == -(self@[25 - i] as int),
            decreases 26 - k,
        {
            let v = self.0[25 - k];
            proof {
                assert(-15 <= self@[25 - k as int] <= 15);
            }
            arr[k] = -v;
            k += 1;
        }
        let r = Board(arr);
        proof {
            assert(r@ =~= inv_seq(self@));
        }
        r
    }

    /// The inner points paired with their cells, in ascending point order.
    pub fn iter_inner_board(&self) -> (r: Vec<(BoardCoord, BOrW)>)
        ensures
            r@.len() == 24,
            forall|k: int|
                0 <= k < 24 ==> (#[trigger] r@[k]).0.0 == k + 1 && r@[k].1.0 == self@[k + 1],
    {
        let mut r: Vec<(BoardCoord, BOrW)> = Vec::new();
        for k in 1..25u8
            invariant
                r@.len() == k - 1,
                forall|j: int|
                    0 <= j < k - 1 ==> (#[trigger] r@[j]).0.0 == j + 1 && r@[j].1.0 == self@[j + 1],
        {
            r.push((BoardCoord(k), BOrW(self.0[k as usize])));
        }
        r
    }
}

/// The two-character mark of one mask lane.
pub open spec fn bool_mark(v: bool) -> Seq<char> {
    if v {
        seq![' ', '*']
    } else {
        seq![' ', '-']
    }
}

/// The separator printed before lane `i`: chunks of six lanes are divided by
/// a bar, lanes inside a chunk by a comma.
pub open spec fn bool_sep(i: int) -> Seq<char> {
    if i == 0 {
        Seq::empty()
    } else if i % 6 == 0 {
        seq![' ', '|', ' ']
    } else {
        seq![',', ' ']
    }
}

/// The rendering of the first `n` lanes of a mask.
pub open spec fn bool_board_text(vals: Seq<bool>, n: int) -> Seq<char>
    decreases n,
{
    if n <= 0 {
        Seq::empty()
    } else {
        bool_board_text(vals, n - 1) + bool_sep(n - 1) + bool_mark(vals[n - 1])
    }
}

/// Renders a boolean lane mask for debugging: six lanes per chunk, `*` for a
/// set lane.
pub fn debug_bool_board(vals: &[bool]) -> (r: String)
    ensures
        r@ == bool_board_text(vals@, vals@.len() as int),
{
    let mut r = String::new();
    let mut i: usize = 0;
    while i < vals.len()
        invariant
            i <= vals@.len(),
            r@ == bool_board_text(vals@, i as int),
        decreases vals@.len() - i,
    {
        proof {
            reveal_strlit(" | ");
            reveal_strlit(", ");
            reveal_strlit(" *");
            reveal_strlit(" -");
        }
        if i > 0 {
            if i % 6 == 0 {
                r.append(" | ");
                proof {
                    assert(" | "@ =~= bool_sep(i as int));
                }
            } else {
                r.append(", ");
                proof {
                    assert(", "@ =~= bool_sep(i as int));
                }
            }
        }
        let ghost mid = r@;
        proof {
            assert(mid =~= bool_board_text(vals@, i as int) + bool_sep(i as int));
        }
        if vals[i] {
            r.append(" *");
            proof {
                assert(" *"@ =~= bool_mark(vals@[i as int]));
            }
        } else {
            r.append(" -");
            proof {
                assert(" -"@ =~= bool_mark(vals@[i as int]));
            }
        }
        proof {
            assert(r@ =~= bool_board_text(vals@, i + 1));
        }
        i += 1;
    }
    r
}

impl Default for Board {
    /// The canonical starting layout.
    fn default() -> (r: Self)
        ensures
            r@ == starting_board(),
            r.wf(),
    {
        let arr: [i8; 26] = [
            0, -2, 0, 0, 0, 0, 5, 0, 3, 0, 0, 0, -5, 5, 0, 0, 0, -3, 0, -5, 0, 0, 0, 0, 2, 0,
        ];
        let r = Board(arr);
        proof {
            assert(r@ =~= starting_board());
            reveal_with_fuel(color_sum_to, 27);
            assert(color_sum(starting_board(), Bw::White) == 15);
            assert(color_sum(starting_board(), Bw::Black) == 15);
        }
        r
    }
}

} // verus!
