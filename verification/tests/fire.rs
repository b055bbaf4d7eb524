use lrgex_compress::fire::{palette, Fire, FIRE_CELLS, FIRE_HEIGHT, FIRE_WIDTH, MAX_HEAT};

fn level_at(f: &Fire, i: usize) -> u8 {
    // The alpha byte tells a cold cell (0) from a warm one; the colour tells the level.
    let px = f.rgba();
    let (r, g, b) = (px[4 * i], px[4 * i + 1], px[4 * i + 2]);
    (0..=MAX_HEAT).find(|&l| palette(l) == (r, g, b)).unwrap_or(0)
}

#[test]
fn new_fire_burns_only_at_the_bottom() {
    let f = Fire::new();
    let px = f.rgba();
    assert_eq!(px.len(), 4 * FIRE_CELLS);
    // Top-left cell: cold and transparent.
    assert_eq!(&px[0..4], &[0x07, 0x07, 0x07, 0]);
    // Bottom row: white hot and opaque.
    let last = (FIRE_HEIGHT - 1) * FIRE_WIDTH;
    assert_eq!(&px[4 * last..4 * last + 4], &[0xff, 0xff, 0xff, 255]);
}

#[test]
fn palette_ends() {
    assert_eq!(palette(0), (0x07, 0x07, 0x07));
    assert_eq!(palette(36), (0xff, 0xff, 0xff));
    assert_eq!(palette(200), (0xff, 0xff, 0xff));
}

#[test]
fn tick_keeps_the_source_and_spreads_upward() {
    let mut f = Fire::new();
    for _ in 0..30 {
        f.tick();
    }
    let px = f.rgba();
    // The bottom row stays at full heat.
    for x in 0..FIRE_WIDTH {
        let i = (FIRE_HEIGHT - 1) * FIRE_WIDTH + x;
        assert_eq!(&px[4 * i..4 * i + 4], &[0xff, 0xff, 0xff, 255]);
    }
    // Heat reached the row above the source: each cell there lost at most one level.
    for x in 0..FIRE_WIDTH {
        let i = (FIRE_HEIGHT - 2) * FIRE_WIDTH + x;
        assert!(level_at(&f, i) >= MAX_HEAT - 1);
    }
}

#[test]
fn spreading_one_cell() {
    let mut f = Fire::new();
    let src = (FIRE_HEIGHT - 1) * FIRE_WIDTH + 5;
    // Roll 1: straight up, one level cooler.
    f.spread_fire(src, 1);
    assert_eq!(level_at(&f, src - FIRE_WIDTH), MAX_HEAT - 1);
    // Roll 0: one column to the right, full heat.
    f.spread_fire(src, 0);
    assert_eq!(level_at(&f, src - FIRE_WIDTH + 1), MAX_HEAT);
    // Roll 2: one column to the left, full heat.
    f.spread_fire(src, 2);
    assert_eq!(level_at(&f, src - FIRE_WIDTH - 1), MAX_HEAT);
    // Roll 3: two columns to the left, one level cooler.
    f.spread_fire(src, 3);
    assert_eq!(level_at(&f, src - FIRE_WIDTH - 2), MAX_HEAT - 1);
}
