use image::GenericImageView;
use std::collections::HashMap;
use tui_mcp::render::{paint_plan, screen_to_png, Paint, Raster, Sample, CELL_H, CELL_W};
use tui_mcp::session::{PtySession, SpawnOpts};

fn screen(rows: u16, cols: u16, output: &str) -> vt100::Parser {
    let mut p = vt100::Parser::new(rows, cols, 0);
    p.process(output.as_bytes());
    p
}

fn picture(p: &vt100::Parser, rasters: &[Raster]) -> image::DynamicImage {
    let png = screen_to_png(p.screen(), rasters).unwrap();
    image::load_from_memory(&png).unwrap()
}

fn rgb(img: &image::DynamicImage, x: u32, y: u32) -> (u8, u8, u8, u8) {
    let p = img.get_pixel(x, y).0;
    (p[0], p[1], p[2], p[3])
}

#[test]
fn blank_screens_are_black() {
    let p = screen(2, 3, "");
    assert!(paint_plan(p.screen()).is_empty());
    let img = picture(&p, &[]);
    assert_eq!((img.width(), img.height()), (3 * CELL_W, 2 * CELL_H));
    assert!(img.pixels().all(|(_, _, p)| p.0 == [0, 0, 0, 255]));
}

#[test]
fn plans_list_fills_and_glyphs_in_order() {
    let p = screen(2, 4, "a\x1b[44mb \x1b[0m\r\n\x1b[7mc");
    let plan = paint_plan(p.screen());
    assert_eq!(
        plan,
        vec![
            Paint::Glyph { row: 0, col: 0, ch: 'a', color: (229, 229, 229) },
            Paint::Fill { row: 0, col: 1, color: (0, 0, 238) },
            Paint::Glyph { row: 0, col: 1, ch: 'b', color: (229, 229, 229) },
            Paint::Fill { row: 0, col: 2, color: (0, 0, 238) },
            Paint::Fill { row: 1, col: 0, color: (229, 229, 229) },
            Paint::Glyph { row: 1, col: 0, ch: 'c', color: (0, 0, 0) },
        ]
    );
}

#[test]
fn palette_entries_are_the_classic_ones() {
    let table = vec![
        (0, (0, 0, 0)),
        (1, (205, 0, 0)),
        (2, (0, 205, 0)),
        (3, (205, 205, 0)),
        (4, (0, 0, 238)),
        (5, (205, 0, 205)),
        (6, (0, 205, 205)),
        (7, (229, 229, 229)),
        (8, (127, 127, 127)),
        (9, (255, 0, 0)),
        (10, (0, 255, 0)),
        (11, (255, 255, 0)),
        (12, (92, 92, 255)),
        (13, (255, 0, 255)),
        (14, (0, 255, 255)),
        (15, (255, 255, 255)),
        (16, (0, 0, 0)),
        (17, (0, 0, 95)),
        (52, (95, 0, 0)),
        (123, (135, 255, 255)),
        (231, (255, 255, 255)),
        (232, (8, 8, 8)),
        (255, (238, 238, 238)),
    ];
    for (idx, color) in table {
        let p = screen(1, 2, &format!("\x1b[38;5;{idx}mx"));
        assert_eq!(
            paint_plan(p.screen()),
            vec![Paint::Glyph { row: 0, col: 0, ch: 'x', color }],
            "{idx}"
        );
    }
    let p = screen(1, 2, "\x1b[38;2;1;2;3mx");
    assert_eq!(
        paint_plan(p.screen()),
        vec![Paint::Glyph { row: 0, col: 0, ch: 'x', color: (1, 2, 3) }]
    );
}

#[test]
fn backgrounds_fill_their_cell() {
    let p = screen(2, 3, "\r\n\x1b[1C\x1b[41m \x1b[0m");
    let img = picture(&p, &[]);
    for x in 0..3 * CELL_W {
        for y in 0..2 * CELL_H {
            let inside = (CELL_W..2 * CELL_W).contains(&x) && (CELL_H..2 * CELL_H).contains(&y);
            let want = if inside { (205, 0, 0, 255) } else { (0, 0, 0, 255) };
            assert_eq!(rgb(&img, x, y), want);
        }
    }
}

#[test]
fn glyphs_are_blended_over_what_is_there() {
    let p = screen(1, 2, "\x1b[48;2;0;100;200m\x1b[38;2;255;0;10mx");
    let raster = Raster {
        base_x: 1,
        base_y: 2,
        samples: vec![
            Sample { gx: 0, gy: 0, alpha: 256 },
            Sample { gx: 1, gy: 0, alpha: 128 },
            Sample { gx: 2, gy: 0, alpha: 0 },
            Sample { gx: 3, gy: 0, alpha: 128 },
            Sample { gx: 3, gy: 0, alpha: 128 },
        ],
    };
    let nothing = Raster { base_x: 0, base_y: 0, samples: vec![] };
    let img = picture(&p, &[nothing, raster]);
    assert_eq!(rgb(&img, 1, 2), (255, 0, 10, 255));
    assert_eq!(rgb(&img, 2, 2), (127, 50, 105, 255));
    assert_eq!(rgb(&img, 3, 2), (0, 100, 200, 255));
    assert_eq!(rgb(&img, 4, 2), (191, 25, 57, 255));
    assert_eq!(rgb(&img, 1, 3), (0, 100, 200, 255));
}

#[test]
fn what_lies_outside_the_picture_is_left_out() {
    let p = screen(1, 1, "x");
    let raster = Raster {
        base_x: -1,
        base_y: 17,
        samples: vec![
            Sample { gx: 0, gy: 0, alpha: 256 },
            Sample { gx: 1, gy: 0, alpha: 256 },
            Sample { gx: 1, gy: 1, alpha: 256 },
            Sample { gx: 10, gy: 0, alpha: 256 },
        ],
    };
    let img = picture(&p, &[raster]);
    assert_eq!(rgb(&img, 0, 17), (229, 229, 229, 255));
    assert_eq!(img.pixels().filter(|(_, _, p)| p.0 != [0, 0, 0, 255]).count(), 1);
}

#[test]
fn later_backgrounds_cover_earlier_glyphs() {
    let p = screen(1, 2, "x\x1b[42m ");
    let wide = Raster {
        base_x: 0,
        base_y: 0,
        samples: (0..18).map(|gx| Sample { gx, gy: 0, alpha: 256 }).collect(),
    };
    let img = picture(&p, &[wide]);
    assert_eq!(rgb(&img, 8, 0), (229, 229, 229, 255));
    assert_eq!(rgb(&img, 9, 0), (0, 205, 0, 255));
}

#[test]
fn screenshots_of_sessions_are_pictures() {
    let opts = SpawnOpts {
        command: "sh".to_string(),
        args: Vec::new(),
        cwd: None,
        env: HashMap::new(),
        cols: 3,
        rows: 2,
        buffer_bytes: 0,
    };
    let s = PtySession::new(&opts, None);
    let png = s.try_screenshot(&[]).unwrap().unwrap();
    assert_eq!(&png[..8], &[0x89, b'P', b'N', b'G', 0x0d, 0x0a, 0x1a, 0x0a]);
}
