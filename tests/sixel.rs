use pica::sixel::{encode_sixel, percent, Rgb};

fn rgb(r: u8, g: u8, b: u8) -> Rgb {
    Rgb { r, g, b }
}

fn header(w: u32, h: u32, defs: &str) -> Vec<u8> {
    let mut v = b"\x1bPq".to_vec();
    v.extend_from_slice(format!("\"1;1;{};{}", w, h).as_bytes());
    v.extend_from_slice(defs.as_bytes());
    v
}

fn stream(w: u32, h: u32, defs: &str, body: &[u8]) -> Vec<u8> {
    let mut v = header(w, h, defs);
    v.extend_from_slice(body);
    v.extend_from_slice(b"\x1b\\");
    v
}

#[test]
fn percentages_truncate() {
    assert_eq!(percent(255), 100);
    assert_eq!(percent(128), 50);
    assert_eq!(percent(1), 0);
    assert_eq!(percent(0), 0);
    assert_eq!(percent(51), 20);
    assert_eq!(percent(204), 80);
}

#[test]
fn single_pixel_image() {
    let out = encode_sixel(1, 1, &vec![rgb(255, 0, 0)], &vec![0]);
    assert_eq!(out, stream(1, 1, "#0;2;100;0;0", b"#0@$-"));
}

#[test]
fn colour_definitions_use_percentages() {
    let out = encode_sixel(1, 1, &vec![rgb(0, 0, 0), rgb(128, 255, 1)], &vec![1]);
    assert_eq!(out, stream(1, 1, "#0;2;0;0;0#1;2;50;100;0", b"#1@$-"));
}

#[test]
fn height_seven_gives_two_bands() {
    let out = encode_sixel(1, 7, &vec![rgb(0, 0, 0)], &vec![0; 7]);
    assert_eq!(out, stream(1, 7, "#0;2;0;0;0", b"#0~$-#0@$-"));
}

#[test]
fn second_band_uses_only_its_rows() {
    // Two columns, seven rows; the last row alternates colours.
    let mut idx = vec![0u8; 14];
    idx[13] = 1;
    let out = encode_sixel(2, 7, &vec![rgb(0, 0, 0), rgb(255, 255, 255)], &idx);
    assert_eq!(
        out,
        stream(2, 7, "#0;2;0;0;0#1;2;100;100;100", b"#0~~$-#0@$#1!1?@$-")
    );
}

#[test]
fn gaps_use_repeat_directive() {
    let idx = vec![0u8, 1, 1, 1, 1, 0];
    let out = encode_sixel(6, 1, &vec![rgb(0, 0, 0), rgb(255, 255, 255)], &idx);
    assert_eq!(
        out,
        stream(6, 1, "#0;2;0;0;0#1;2;100;100;100", b"#0@!4?@$#1!1?@@@@$-")
    );
}

#[test]
fn gap_of_more_than_nine_columns() {
    let mut idx = vec![1u8; 12];
    idx[11] = 0;
    let out = encode_sixel(12, 1, &vec![rgb(0, 0, 0), rgb(0, 0, 0)], &idx);
    assert_eq!(
        out,
        stream(12, 1, "#0;2;0;0;0#1;2;0;0;0", b"#0!11?@$#1@@@@@@@@@@@$-")
    );
}

#[test]
fn colours_absent_from_a_band_are_skipped() {
    // Colour 0 only in the first band, colour 2 only in the second.
    let mut idx = vec![0u8; 6];
    idx.extend_from_slice(&[2, 2]);
    let pal = vec![rgb(0, 0, 0), rgb(1, 1, 1), rgb(2, 2, 2)];
    let out = encode_sixel(1, 8, &pal, &idx);
    assert_eq!(
        out,
        stream(1, 8, "#0;2;0;0;0#1;2;0;0;0#2;2;0;0;0", b"#0~$-#2B$-")
    );
}

#[test]
fn zero_width_emits_no_band() {
    let out = encode_sixel(0, 5, &vec![rgb(255, 255, 255)], &vec![]);
    assert_eq!(out, stream(0, 5, "#0;2;100;100;100", b""));
}

#[test]
fn zero_height_emits_no_band() {
    let out = encode_sixel(4, 0, &vec![], &vec![]);
    assert_eq!(out, stream(4, 0, "", b""));
}

#[test]
fn encoding_is_deterministic() {
    let idx: Vec<u8> = (0..35u32).map(|i| (i * 7 % 3) as u8).collect();
    let pal = vec![rgb(10, 20, 30), rgb(40, 50, 60), rgb(70, 80, 90)];
    assert_eq!(encode_sixel(5, 7, &pal, &idx), encode_sixel(5, 7, &pal, &idx));
}

fn read_number(s: &[u8], pos: &mut usize) -> usize {
    let mut n = 0usize;
    while *pos < s.len() && s[*pos].is_ascii_digit() {
        n = n * 10 + (s[*pos] - b'0') as usize;
        *pos += 1;
    }
    n
}

/// Parses a stream written by the encoder back into a palette and a pixel grid.
fn parse(s: &[u8]) -> (usize, usize, Vec<Rgb>, Vec<u8>) {
    assert_eq!(&s[..3], b"\x1bPq");
    assert_eq!(&s[s.len() - 2..], b"\x1b\\");
    let mut pos = 3;
    assert_eq!(&s[pos..pos + 5], b"\"1;1;");
    pos += 5;
    let w = read_number(s, &mut pos);
    assert_eq!(s[pos], b';');
    pos += 1;
    let h = read_number(s, &mut pos);
    let mut palette = Vec::new();
    let mut grid: Vec<Option<u8>> = vec![None; w * h];
    let mut band = 0usize;
    let mut colour = 0usize;
    let mut x = 0usize;
    let end = s.len() - 2;
    while pos < end {
        match s[pos] {
            b'#' => {
                pos += 1;
                let i = read_number(s, &mut pos);
                if s[pos] == b';' {
                    pos += 3;
                    let r = read_number(s, &mut pos);
                    pos += 1;
                    let g = read_number(s, &mut pos);
                    pos += 1;
                    let b = read_number(s, &mut pos);
                    assert_eq!(i, palette.len());
                    palette.push(rgb(r as u8, g as u8, b as u8));
                } else {
                    colour = i;
                    x = 0;
                }
            }
            b'!' => {
                pos += 1;
                let n = read_number(s, &mut pos);
                assert_eq!(s[pos], 0x3f);
                pos += 1;
                x += n;
            }
            b'$' => {
                pos += 1;
                x = 0;
            }
            b'-' => {
                pos += 1;
                band += 1;
                x = 0;
            }
            byte => {
                assert!((0x3f..=0x7e).contains(&byte));
                let mask = byte - 0x3f;
                for k in 0..6 {
                    if mask & (1 << k) != 0 {
                        let y = band * 6 + k;
                        assert!(y < h && x < w);
                        assert!(grid[y * w + x].is_none());
                        grid[y * w + x] = Some(colour as u8);
                    }
                }
                x += 1;
                pos += 1;
            }
        }
    }
    let indices = grid.into_iter().map(|c| c.expect("every pixel is drawn")).collect();
    (w, h, palette, indices)
}

fn percent_palette(p: &[Rgb]) -> Vec<Rgb> {
    p.iter()
        .map(|c| rgb(percent(c.r) as u8, percent(c.g) as u8, percent(c.b) as u8))
        .collect()
}

#[test]
fn parsing_recovers_every_pixel() {
    let pal = vec![rgb(255, 0, 0), rgb(0, 255, 0), rgb(0, 0, 255), rgb(9, 99, 199)];
    for &(w, h) in &[(1usize, 1usize), (5, 13), (17, 6), (3, 12), (11, 1)] {
        let idx: Vec<u8> = (0..w * h).map(|i| ((i * 5 + i / 3) % 4) as u8).collect();
        let out = encode_sixel(w as u32, h as u32, &pal, &idx);
        let (pw, ph, ppal, pidx) = parse(&out);
        assert_eq!((pw, ph), (w, h));
        assert_eq!(ppal, percent_palette(&pal));
        assert_eq!(pidx, idx);
    }
}
