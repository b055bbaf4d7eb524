//! The flame animation of the progress window: the doom-fire simulation on an 80×80
//! grid of heat levels (0 to 36), and its rendering through the 37-colour palette.
//!
//! Row 0 is the top. The bottom row is the fire source at full heat; each frame heat
//! spreads one row up, drifting sideways and cooling at random.
use vstd::prelude::*;

verus! {

/// Width of the grid.
pub const FIRE_WIDTH: usize = 80;

/// Height of the grid.
pub const FIRE_HEIGHT: usize = 80;

/// Number of cells.
pub const FIRE_CELLS: usize = 6400;

/// The hottest level.
pub const MAX_HEAT: u8 = 36;

/// The palette colour of a heat level (levels past 36 use the hottest colour).
pub open spec fn palette_spec(i: u8) -> (u8, u8, u8) {
    match i {
        0 => (0x07u8, 0x07u8, 0x07u8),
        1 => (0x1fu8, 0x07u8, 0x07u8),
        2 => (0x2fu8, 0x0fu8, 0x07u8),
        3 => (0x47u8, 0x0fu8, 0x07u8),
        4 => (0x57u8, 0x17u8, 0x07u8),
        5 => (0x67u8, 0x1fu8, 0x07u8),
        6 => (0x77u8, 0x1fu8, 0x07u8),
        7 => (0x8fu8, 0x27u8, 0x07u8),
        8 => (0x9fu8, 0x2fu8, 0x07u8),
        9 => (0xafu8, 0x3fu8, 0x07u8),
        10 => (0xbfu8, 0x47u8, 0x07u8),
        11 => (0xc7u8, 0x47u8, 0x07u8),
        12 => (0xdfu8, 0x4fu8, 0x07u8),
        13 => (0xdfu8, 0x57u8, 0x07u8),
        14 => (0xdfu8, 0x57u8, 0x07u8),
        15 => (0xd7u8, 0x5fu8, 0x07u8),
        16 => (0xd7u8, 0x5fu8, 0x07u8),
        17 => (0xd7u8, 0x67u8, 0x0fu8),
        18 => (0xcfu8, 0x6fu8, 0x0fu8),
        19 => (0xcfu8, 0x77u8, 0x0fu8),
        20 => (0xcfu8, 0x7fu8, 0x0fu8),
        21 => (0xcfu8, 0x87u8, 0x17u8),
        22 => (0xc7u8, 0x87u8, 0x17u8),
        23 => (0xc7u8, 0x8fu8, 0x17u8),
        24 => (0xc7u8, 0x97u8, 0x1fu8),
        25 => (0xbfu8, 0x9fu8, 0x1fu8),
        26 => (0xbfu8, 0x9fu8, 0x1fu8),
        27 => (0xbfu8, 0xa7u8, 0x27u8),
        28 => (0xbfu8, 0xa7u8, 0x27u8),
        29 => (0xbfu8, 0xafu8, 0x2fu8),
        30 => (0xb7u8, 0xafu8, 0x2fu8),
        31 => (0xb7u8, 0xb7u8, 0x2fu8),
        32 => (0xb7u8, 0xb7u8, 0x37u8),
        33 => (0xcfu8, 0xcfu8, 0x6fu8),
        34 => (0xdfu8, 0xdfu8, 0x9fu8),
        35 => (0xefu8, 0xefu8, 0xc7u8),
        _ => (0xffu8, 0xffu8, 0xffu8),
    }
}

/// The palette colour of a heat level.
pub fn palette(i: u8) -> (r: (u8, u8, u8))
    ensures
        r == palette_spec(i),
{
    match i {
        0 => (0x07, 0x07, 0x07),
        1 => (0x1f, 0x07, 0x07),
        2 => (0x2f, 0x0f, 0x07),
        3 => (0x47, 0x0f, 0x07),
        4 => (0x57, 0x17, 0x07),
        5 => (0x67, 0x1f, 0x07),
        6 => (0x77, 0x1f, 0x07),
        7 => (0x8f, 0x27, 0x07),
        8 => (0x9f, 0x2f, 0x07),
        9 => (0xaf, 0x3f, 0x07),
        10 => (0xbf, 0x47, 0x07),
        11 => (0xc7, 0x47, 0x07),
        12 => (0xdf, 0x4f, 0x07),
        13 => (0xdf, 0x57, 0x07),
        14 => (0xdf, 0x57, 0x07),
        15 => (0xd7, 0x5f, 0x07),
        16 => (0xd7, 0x5f, 0x07),
        17 => (0xd7, 0x67, 0x0f),
        18 => (0xcf, 0x6f, 0x0f),
        19 => (0xcf, 0x77, 0x0f),
        20 => (0xcf, 0x7f, 0x0f),
        21 => (0xcf, 0x87, 0x17),
        22 => (0xc7, 0x87, 0x17),
        23 => (0xc7, 0x8f, 0x17),
        24 => (0xc7, 0x97, 0x1f),
        25 => (0xbf, 0x9f, 0x1f),
        26 => (0xbf, 0x9f, 0x1f),
        27 => (0xbf, 0xa7, 0x27),
        28 => (0xbf, 0xa7, 0x27),
        29 => (0xbf, 0xaf, 0x2f),
        30 => (0xb7, 0xaf, 0x2f),
        31 => (0xb7, 0xb7, 0x2f),
        32 => (0xb7, 0xb7, 0x37),
        33 => (0xcf, 0xcf, 0x6f),
        34 => (0xdf, 0xdf, 0x9f),
        35 => (0xef, 0xef, 0xc7),
        _ => (0xff, 0xff, 0xff),
    }
}

/// The simulation state.
pub struct Fire {
    pixels: Vec<u8>,
}

/// A grid in the simulation's invariant: 6400 cells, none hotter than 36, the bottom
/// row at 36.
pub open spec fn grid_ok(p: Seq<u8>) -> bool {
    &&& p.len() == FIRE_CELLS
    &&& forall|i: int| 0 <= i < p.len() ==> #[trigger] p[i] <= MAX_HEAT
    &&& forall|i: int| (FIRE_HEIGHT - 1) * FIRE_WIDTH <= i < FIRE_CELLS ==> #[trigger] p[i] == MAX_HEAT
}

/// The cell that cell `src` feeds when the roll is `roll`: one row up, shifted by
/// `1 - roll` columns, wrapping around.
pub open spec fn spread_target(src: int, roll: int) -> int {
    let x = src % (FIRE_WIDTH as int);
    let y = src / (FIRE_WIDTH as int);
    (y - 1) * (FIRE_WIDTH as int) + (x - roll + 1 + FIRE_WIDTH as int) % (FIRE_WIDTH as int)
}

/// One spread step: a cold cell cools the cell above it; a hot one passes its heat,
/// less the roll's low bit, to its target.
pub open spec fn spread(p: Seq<u8>, src: int, roll: int) -> Seq<u8> {
    if p[src] == 0 {
        p.update(src - FIRE_WIDTH as int, 0)
    } else {
        let decay: int = roll % 2;
        p.update(spread_target(src, roll), (if p[src] >= decay { p[src] - decay } else { 0 }) as u8)
    }
}

/// Cells spread per frame: every cell of the rows below the first.
pub const TICK_STEPS: usize = 6320;

/// The cell spread at step `s` of a frame: column by column from the left, and within a
/// column from the bottom row up to the second.
pub open spec fn tick_src(s: int) -> int {
    (FIRE_HEIGHT as int - 1 - s % (FIRE_HEIGHT as int - 1)) * FIRE_WIDTH as int + s / (FIRE_HEIGHT as int - 1)
}

/// The grid after the first `k` spread steps of a frame with these rolls.
pub open spec fn spread_steps(p: Seq<u8>, rolls: Seq<u32>, k: nat) -> Seq<u8>
    decreases k,
{
    if k == 0 {
        p
    } else {
        spread(spread_steps(p, rolls, (k - 1) as nat), tick_src(k - 1), rolls[k - 1] as int)
    }
}

/// `rand::Rng::gen_range(0..4)` on the thread-local generator (rand 0.8): a roll below
/// 4; nothing else is stated of it.
#[verifier::external_body]
fn roll4() -> (r: u32)
    ensures
        r < 4,
{
    rand::Rng::gen_range(&mut rand::thread_rng(), 0..4u32)
}

proof fn lemma_steps_prefix(p: Seq<u8>, a: Seq<u32>, b: Seq<u32>, k: nat)
    requires
        k <= a.len(),
        k <= b.len(),
        a.take(k as int) == b.take(k as int),
    ensures
        spread_steps(p, a, k) == spread_steps(p, b, k),
    decreases k,
{
    if k > 0 {
        assert(a.take(k - 1) =~= a.take(k as int).take(k - 1));
        assert(b.take(k - 1) =~= b.take(k as int).take(k - 1));
        lemma_steps_prefix(p, a, b, (k - 1) as nat);
        assert(a[k - 1] == a.take(k as int)[k - 1]);
        assert(b[k - 1] == b.take(k as int)[k - 1]);
    }
}

impl Fire {
    /// The grid as the view sees it.
    pub closed spec fn cells(&self) -> Seq<u8> {
        self.pixels@
    }

    /// A cold grid whose bottom row burns at full heat.
    pub fn new() -> (f: Fire)
        ensures
            grid_ok(f.cells()),
            forall|i: int| 0 <= i < (FIRE_HEIGHT - 1) * FIRE_WIDTH ==> f.cells()[i] == 0,
    {
        let mut pixels: Vec<u8> = Vec::new();
        let mut i: usize = 0;
        while i < FIRE_CELLS
            invariant
                i <= FIRE_CELLS,
                pixels.len() == i,
                forall|k: int| 0 <= k < i ==> #[trigger] pixels@[k] == if k < (FIRE_HEIGHT - 1) * FIRE_WIDTH {
                    0u8
                } else {
                    MAX_HEAT
                },
            decreases FIRE_CELLS - i,
        {
            if i < (FIRE_HEIGHT - 1) * FIRE_WIDTH {
                pixels.push(0);
            } else {
                pixels.push(MAX_HEAT);
            }
            i = i + 1;
        }
        Fire { pixels }
    }

    /// One spread step from cell `src` (in rows 1 and below) with roll `roll`.
    pub fn spread_fire(&mut self, src: usize, roll: u32)
        requires
            grid_ok(old(self).cells()),
            FIRE_WIDTH <= src < FIRE_CELLS,
            roll < 4,
        ensures
            grid_ok(final(self).cells()),
            final(self).cells() == spread(old(self).cells(), src as int, roll as int),
    {
        let pixel = self.pixels[src];
        if pixel == 0 {
            self.pixels.set(src - FIRE_WIDTH, 0);
        } else {
            let decay: u8 = (roll & 1) as u8;
            assert(decay as int == roll % 2) by (bit_vector)
                requires
                    decay == (roll & 1) as u8,
                    roll < 4,
            ;
            let x: usize = src % FIRE_WIDTH;
            let y: usize = src / FIRE_WIDTH;
            let dst_x: usize = (x + FIRE_WIDTH + 1 - roll as usize) % FIRE_WIDTH;
            let dst = (y - 1) * FIRE_WIDTH + dst_x;
            proof {
                assert(y >= 1 && y < FIRE_HEIGHT);
                assert(dst as int == spread_target(src as int, roll as int));
                assert(dst < (FIRE_HEIGHT - 1) * FIRE_WIDTH) by (nonlinear_arith)
                    requires
                        y < 80,
                        y >= 1,
                        dst_x < 80,
                        dst == (y - 1) * 80 + dst_x,
                ;
            }
            let v = if pixel >= decay {
                pixel - decay
            } else {
                0
            };
            self.pixels.set(dst, v);
        }
    }

    /// Advances the simulation by one frame: every cell from the second row down, column
    /// by column and bottom-up within a column, spreads with a fresh roll. Whatever the
    /// rolls were, the new grid is the old one after those spreads in that order.
    pub fn tick(&mut self)
        requires
            grid_ok(old(self).cells()),
        ensures
            grid_ok(final(self).cells()),
            exists|rolls: Seq<u32>|
                rolls.len() == TICK_STEPS && (forall|i: int| 0 <= i < rolls.len() ==> #[trigger] rolls[i] < 4)
                    && final(self).cells() == spread_steps(old(self).cells(), rolls, TICK_STEPS as nat),
    {
        let ghost p0 = self.cells();
        let ghost mut rolls: Seq<u32> = Seq::empty();
        let mut x: usize = 0;
        while x < FIRE_WIDTH
            invariant
                x <= FIRE_WIDTH,
                grid_ok(self.cells()),
                rolls.len() == x * (FIRE_HEIGHT - 1),
                forall|i: int| 0 <= i < rolls.len() ==> #[trigger] rolls[i] < 4,
                self.cells() == spread_steps(p0, rolls, rolls.len()),
            decreases FIRE_WIDTH - x,
        {
            let mut y: usize = FIRE_HEIGHT - 1;
            while y >= 1
                invariant
                    y < FIRE_HEIGHT,
                    x < FIRE_WIDTH,
                    grid_ok(self.cells()),
                    rolls.len() == x * (FIRE_HEIGHT - 1) + (FIRE_HEIGHT - 1 - y),
                    forall|i: int| 0 <= i < rolls.len() ==> #[trigger] rolls[i] < 4,
                    self.cells() == spread_steps(p0, rolls, rolls.len()),
                decreases y,
            {
                let src = y * FIRE_WIDTH + x;
                proof {
                    assert(FIRE_WIDTH <= src < FIRE_CELLS) by (nonlinear_arith)
                        requires
                            1 <= y < 80,
                            x < 80,
                            src == y * 80 + x,
                    ;
                    let s: int = rolls.len() as int;
                    assert(tick_src(s) == src) by (nonlinear_arith)
                        requires
                            1 <= y < 80,
                            x < 80,
                            src == y * 80 + x,
                            s == x * 79 + (79 - y),
                            tick_src(s) == (79 - s % 79) * 80 + s / 79,
                    {
                        assert(s % 79 == 79 - y && s / 79 == x) by {
                            vstd::arithmetic::div_mod::lemma_fundamental_div_mod_converse(s, 79, x as int, 79 - y);
                        }
                    }
                }
                let roll = roll4();
                let ghost before = rolls;
                self.spread_fire(src, roll);
                proof {
                    rolls = rolls.push(roll);
                    assert(rolls.take(before.len() as int) =~= before);
                    assert(before.take(before.len() as int) =~= before);
                    lemma_steps_prefix(p0, before, rolls, before.len());
                }
                y = y - 1;
            }
            proof {
                assert(rolls.len() == (x + 1) * (FIRE_HEIGHT - 1)) by (nonlinear_arith)
                    requires
                        rolls.len() == x * 79 + 79,
                ;
            }
            x = x + 1;
        }
        proof {
            assert(rolls.len() == TICK_STEPS);
        }
    }

    /// The frame as RGBA bytes, row by row: each cell's palette colour, transparent for
    /// level 0 and opaque otherwise.
    pub fn rgba(&self) -> (r: Vec<u8>)
        requires
            grid_ok(self.cells()),
        ensures
            r.len() == 4 * FIRE_CELLS,
            forall|i: int|
                0 <= i < FIRE_CELLS ==> {
                    let c = palette_spec(#[trigger] self.cells()[i]);
                    &&& r@[4 * i] == c.0
                    &&& r@[4 * i + 1] == c.1
                    &&& r@[4 * i + 2] == c.2
                    &&& r@[4 * i + 3] == if self.cells()[i] == 0 {
                        0u8
                    } else {
                        255u8
                    }
                },
    {
        let mut out: Vec<u8> = Vec::new();
        let mut i: usize = 0;
        while i < FIRE_CELLS
            invariant
                i <= FIRE_CELLS,
                self.pixels.len() == FIRE_CELLS,
                out.len() == 4 * i,
                forall|k: int|
                    0 <= k < i ==> {
                        let c = palette_spec(#[trigger] self.pixels@[k]);
                        &&& out@[4 * k] == c.0
                        &&& out@[4 * k + 1] == c.1
                        &&& out@[4 * k + 2] == c.2
                        &&& out@[4 * k + 3] == if self.pixels@[k] == 0 {
                            0u8
                        } else {
                            255u8
                        }
                    },
            decreases FIRE_CELLS - i,
        {
            let idx = self.pixels[i];
            let (r, g, b) = palette(idx);
            out.push(r);
            out.push(g);
            out.push(b);
            out.push(if idx == 0 {
                0
            } else {
                255
            });
            i = i + 1;
        }
        out
    }
}

} // verus!
