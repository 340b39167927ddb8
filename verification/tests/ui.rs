use goetia::ui::{build_atlas, glyph_index, glyph_rows, ATLAS_H, ATLAS_W, WHITE_INDEX};

fn px(atlas: &[u8], x: u32, y: u32) -> u8 {
    atlas[(y * ATLAS_W + x) as usize]
}

#[test]
fn glyph_indices() {
    assert_eq!(glyph_index(' '), 0);
    assert_eq!(glyph_index('A'), 33);
    assert_eq!(glyph_index('~'), 94);
    assert_eq!(glyph_index('\u{7f}'), 31);
    assert_eq!(glyph_index('é'), glyph_index('?'));
}

#[test]
fn glyph_shapes() {
    assert_eq!(glyph_rows('A'), [0b01110, 0b10001, 0b10001, 0b11111, 0b10001, 0b10001, 0b10001]);
    assert_eq!(glyph_rows('a'), [0; 7]);
    assert_eq!(glyph_rows(' '), [0; 7]);
}

#[test]
fn atlas_layout() {
    let atlas = build_atlas();
    assert_eq!(atlas.len(), (ATLAS_W * ATLAS_H) as usize);
    // 'A' is cell 33: column 1, row 1 → origin (8, 8); top row .###.
    assert_eq!(px(&atlas, 8, 8), 0);
    assert_eq!(px(&atlas, 9, 8), 255);
    assert_eq!(px(&atlas, 11, 8), 255);
    assert_eq!(px(&atlas, 12, 8), 0);
    // glyph pixels never reach the cell's padding column and row
    assert_eq!(px(&atlas, 13, 11), 0);
    assert_eq!(px(&atlas, 8, 15), 0);
    // the white cell is fully lit
    let (wx, wy) = ((WHITE_INDEX % 32) * 8, (WHITE_INDEX / 32) * 8);
    for y in wy..wy + 8 {
        for x in wx..wx + 8 {
            assert_eq!(px(&atlas, x, y), 255);
        }
    }
    // space is blank
    assert!((0..8).all(|y| (0..8).all(|x| px(&atlas, x, y) == 0)));
    assert!(atlas.iter().all(|&b| b == 0 || b == 255));
}
