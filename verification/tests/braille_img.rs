use braille_art::commons::braille_img::{encode_braille, BrailleImg, BRAILLE_BASE};
use braille_art::commons::dithering::Ditherer;
use braille_art::commons::gray_img::GrayImg;

fn gradient() -> GrayImg {
    let mut pixels = Vec::new();
    for y in 0..5u32 {
        for x in 0..6u32 {
            pixels.push(((x * 37 + y * 59) % 256) as u8);
        }
    }
    GrayImg::from_raw(6, 5, pixels).unwrap()
}

#[test]
fn glyph_counts_round_up() {
    for (w, h, cw, ch) in [(1, 1, 1, 1), (2, 4, 1, 1), (3, 5, 2, 2), (63, 21, 32, 6), (64, 64, 32, 16)] {
        let img = BrailleImg::new(w, h);
        assert_eq!(img.dot_width(), w);
        assert_eq!(img.dot_height(), h);
        assert_eq!(img.char_width(), cw);
        assert_eq!(img.char_height(), ch);
        assert_eq!(img.cells(), &vec![0u8; (cw * ch) as usize]);
    }
}

#[test]
fn an_image_without_dots_has_no_glyphs() {
    let img = BrailleImg::new(0, 9);
    assert_eq!(img.char_width(), 0);
    assert!(img.cells().is_empty());
    assert_eq!(img.to_str(true, true), "");
    assert_eq!(BrailleImg::new(9, 0).to_str(false, false), "");
}

#[test]
fn bit_masks_follow_the_braille_layout() {
    let table: [[u8; 4]; 2] = [[0x01, 0x02, 0x04, 0x40], [0x08, 0x10, 0x20, 0x80]];
    for x in 0..6u32 {
        for y in 0..12u32 {
            assert_eq!(BrailleImg::get_bit_mask(x, y), table[(x % 2) as usize][(y % 4) as usize]);
        }
    }
}

#[test]
fn set_dot_sets_the_bit_of_the_layout_and_clears_it_again() {
    let bits: [[u32; 4]; 2] = [[0, 1, 2, 6], [3, 4, 5, 7]];
    for x in 0..2u32 {
        for y in 0..4u32 {
            let mut img = BrailleImg::new(2, 4);
            img.set_dot(x, y, true);
            assert_eq!(img.cells(), &vec![1u8 << bits[x as usize][y as usize]]);
            assert!(img.get_dot(x, y));
            img.set_dot(x, y, false);
            assert_eq!(img.cells(), &vec![0u8]);
            assert!(!img.get_dot(x, y));
        }
    }
}

#[test]
fn set_dot_finds_the_glyph_of_the_dot() {
    let mut img = BrailleImg::new(5, 9);
    img.set_dot(4, 8, true);
    assert_eq!(img.cells(), &vec![0, 0, 0, 0, 0, 0, 0, 0, 1]);
    img.set_dot(3, 7, true);
    assert_eq!(img.cells(), &vec![0, 0, 0, 0, 0x80, 0, 0, 0, 1]);
    img.set_dot(2, 7, true);
    assert_eq!(img.cells(), &vec![0, 0, 0, 0, 0xC0, 0, 0, 0, 1]);
    img.set_dot(3, 7, false);
    assert_eq!(img.cells(), &vec![0, 0, 0, 0, 0x40, 0, 0, 0, 1]);
    img.set_dot(0, 0, false);
    assert_eq!(img.cells(), &vec![0, 0, 0, 0, 0x40, 0, 0, 0, 1]);
    assert!(img.get_dot(2, 7));
    assert!(!img.get_dot(3, 7));
    assert!(img.get_dot(4, 8));
    assert!(!img.get_dot(4, 7));
}

#[test]
fn set_dot_leaves_other_dots_alone() {
    let mut img = BrailleImg::new(4, 8);
    for x in 0..4 {
        for y in 0..8 {
            img.set_dot(x, y, true);
        }
    }
    img.set_dot(1, 5, false);
    for x in 0..4 {
        for y in 0..8 {
            assert_eq!(img.get_dot(x, y), (x, y) != (1, 5));
        }
    }
}

#[test]
fn glyphs_are_the_braille_block_in_order() {
    assert_eq!(BRAILLE_BASE, 0x2800);
    let table = "⠀⠁⠂⠃⠄⠅⠆⠇⠈⠉⠊⠋⠌⠍⠎⠏⠐⠑⠒⠓⠔⠕⠖⠗⠘⠙⠚⠛⠜⠝⠞⠟⠠⠡⠢⠣⠤⠥⠦⠧⠨⠩⠪⠫⠬⠭⠮⠯⠰⠱⠲⠳⠴⠵⠶⠷⠸⠹⠺⠻⠼⠽⠾⠿\
⡀⡁⡂⡃⡄⡅⡆⡇⡈⡉⡊⡋⡌⡍⡎⡏⡐⡑⡒⡓⡔⡕⡖⡗⡘⡙⡚⡛⡜⡝⡞⡟⡠⡡⡢⡣⡤⡥⡦⡧⡨⡩⡪⡫⡬⡭⡮⡯⡰⡱⡲⡳⡴⡵⡶⡷⡸⡹⡺⡻⡼⡽⡾⡿\
⢀⢁⢂⢃⢄⢅⢆⢇⢈⢉⢊⢋⢌⢍⢎⢏⢐⢑⢒⢓⢔⢕⢖⢗⢘⢙⢚⢛⢜⢝⢞⢟⢠⢡⢢⢣⢤⢥⢦⢧⢨⢩⢪⢫⢬⢭⢮⢯⢰⢱⢲⢳⢴⢵⢶⢷⢸⢹⢺⢻⢼⢽⢾⢿\
⣀⣁⣂⣃⣄⣅⣆⣇⣈⣉⣊⣋⣌⣍⣎⣏⣐⣑⣒⣓⣔⣕⣖⣗⣘⣙⣚⣛⣜⣝⣞⣟⣠⣡⣢⣣⣤⣥⣦⣧⣨⣩⣪⣫⣬⣭⣮⣯⣰⣱⣲⣳⣴⣵⣶⣷⣸⣹⣺⣻⣼⣽⣾⣿";
    let glyphs: Vec<char> = table.chars().collect();
    assert_eq!(glyphs.len(), 256);
    for value in 0..256u32 {
        let mut img = BrailleImg::new(2, 4);
        for x in 0..2 {
            for y in 0..4 {
                if value as u8 & BrailleImg::get_bit_mask(x, y) != 0 {
                    img.set_dot(x, y, true);
                }
            }
        }
        let text = img.to_str(false, true);
        assert_eq!(text.chars().count(), 1);
        let c = text.chars().next().unwrap();
        assert_eq!(c as u32, 0x2800 + value);
        assert_eq!(c, glyphs[value as usize]);
    }
}

#[test]
fn rows_are_separated_by_line_breaks_or_spaces() {
    let mut img = BrailleImg::new(4, 12);
    img.set_dot(0, 0, true);
    img.set_dot(3, 4, true);
    img.set_dot(2, 11, true);
    assert_eq!(img.cells(), &vec![1, 0, 0, 8, 0, 0x40]);
    let lines = BrailleImg::from_binary(&dots_of(&img)).to_str(false, true);
    assert_eq!(lines, "\u{2801}\u{2800}\n\u{2800}\u{2808}\n\u{2800}\u{2840}");
    let spaced = BrailleImg::from_binary(&dots_of(&img)).to_str(false, false);
    assert_eq!(spaced, "\u{2801}\u{2800} \u{2800}\u{2808} \u{2800}\u{2840}");
    let filled = img.to_str(true, true);
    assert_eq!(filled, "\u{2801}\u{2801}\n\u{2801}\u{2808}\n\u{2801}\u{2840}");
}

fn dots_of(img: &BrailleImg) -> GrayImg {
    let mut gray = GrayImg::new(img.dot_width(), img.dot_height());
    for y in 0..img.dot_height() {
        for x in 0..img.dot_width() {
            if img.get_dot(x, y) {
                gray.put_pixel(x, y, 255);
            }
        }
    }
    gray
}

#[test]
fn a_single_row_has_no_separator() {
    let text = BrailleImg::new(7, 3).to_str(true, true);
    assert_eq!(text, "\u{2801}\u{2801}\u{2801}\u{2801}");
}

#[test]
fn text_has_a_row_for_every_four_dots_and_a_glyph_for_every_two() {
    for (w, h) in [(1u32, 1u32), (2, 4), (3, 5), (5, 4), (7, 13), (16, 16), (58, 33)] {
        let cols = ((w + 1) / 2) as usize;
        let rows = ((h + 3) / 4) as usize;
        for (line_break, separator) in [(true, '\n'), (false, ' ')] {
            for suppress_empty in [true, false] {
                let mut pixels = Vec::new();
                for i in 0..w * h {
                    pixels.push(if i % 3 == 0 { 255 } else { 0 });
                }
                let img = GrayImg::from_raw(w, h, pixels).unwrap();
                let text = encode_braille(&img, suppress_empty, line_break);
                let split: Vec<&str> = text.split(separator).collect();
                assert_eq!(split.len(), rows);
                for row in split {
                    assert_eq!(row.chars().count(), cols);
                    assert!(row.chars().all(|c| (0x2800..=0x28FF).contains(&(c as u32))));
                }
            }
        }
    }
}

#[test]
fn black_pixel_is_the_blank_glyph() {
    let img = GrayImg::from_raw(1, 1, vec![0]).unwrap();
    assert_eq!(encode_braille(&img, false, true), "\u{2800}");
    assert_eq!(encode_braille(&img, false, false), "\u{2800}");
}

#[test]
fn black_pixel_is_the_one_dot_glyph_when_empty_glyphs_are_suppressed() {
    let img = GrayImg::from_raw(1, 1, vec![0]).unwrap();
    assert_eq!(encode_braille(&img, true, true), "\u{2801}");
    assert_eq!(encode_braille(&img, true, false), "\u{2801}");
}

#[test]
fn white_block_is_the_full_glyph() {
    let mut img = GrayImg::from_raw(2, 4, vec![255; 8]).unwrap();
    Ditherer::Threshold.dither(&mut img);
    assert_eq!(img.as_raw(), &vec![255; 8]);
    assert_eq!(encode_braille(&img, false, true), "\u{28FF}");
    assert_eq!(encode_braille(&img, true, true), "\u{28FF}");
    let braille = BrailleImg::from_binary(&img);
    assert_eq!(braille.cells(), &vec![255]);
}

#[test]
fn packing_raises_a_dot_for_every_sample_above_the_cut() {
    let img = GrayImg::from_raw(3, 5, vec![128, 127, 255, 0, 200, 0, 127, 128, 0, 255, 255, 255, 1, 2, 129])
        .unwrap();
    let braille = BrailleImg::from_binary(&img);
    assert_eq!(braille.dot_width(), 3);
    assert_eq!(braille.dot_height(), 5);
    assert_eq!(braille.cells(), &vec![0x01 | 0x10 | 0x20 | 0x40 | 0x80, 0x01 | 0x40, 0, 0x01]);
    for y in 0..5 {
        for x in 0..3 {
            assert_eq!(braille.get_dot(x, y), img.get_pixel(x, y) > 127);
        }
    }
}

#[test]
fn from_image_dithers_then_packs() {
    let sierra = BrailleImg::from_image(gradient(), Ditherer::Sierra2Row);
    assert_eq!(sierra.cells(), &vec![228, 118, 27, 1, 0, 8]);
    assert_eq!(sierra.to_str(true, true), "\u{28E4}\u{2876}\u{281B}\n\u{2801}\u{2801}\u{2808}");
    let bayer = BrailleImg::from_image(gradient(), Ditherer::Bayer4x4);
    assert_eq!(bayer.cells(), &vec![148, 117, 27, 1, 1, 9]);
    assert_eq!(bayer.to_str(false, false), "\u{2894}\u{2875}\u{281B} \u{2801}\u{2801}\u{2809}");
    let plain = BrailleImg::from_image(gradient(), Ditherer::Threshold);
    assert_eq!(plain.cells(), &vec![224, 118, 27, 1, 0, 9]);
    assert_eq!(plain.to_str(false, false), "\u{28E0}\u{2876}\u{281B} \u{2801}\u{2800}\u{2809}");
    assert_eq!(
        BrailleImg::from_image(gradient(), Ditherer::Threshold).to_str(true, true),
        "\u{28E0}\u{2876}\u{281B}\n\u{2801}\u{2801}\u{2809}"
    );
}
