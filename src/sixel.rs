use vstd::prelude::*;

verus! {

/// A palette colour, one byte per channel.
#[derive(Clone, Copy, Debug, PartialEq, Eq, Structural)]
pub struct Rgb {
    pub r: u8,
    pub g: u8,
    pub b: u8,
}

/// The ASCII decimal digits of `n`, most significant first, without leading zeros.
pub open spec fn decimal(n: nat) -> Seq<u8>
    decreases n,
{
    if n < 10 {
        seq![(48 + n) as u8]
    } else {
        decimal(n / 10) + seq![(48 + n % 10) as u8]
    }
}

/// A channel value in 0..=255 scaled to a percentage in 0..=100, truncated.
pub open spec fn percent_of(c: u8) -> nat {
    (c as nat * 100) / 255
}

/// Device control string introducer: ESC P q.
pub open spec fn introducer() -> Seq<u8> {
    seq![0x1bu8, 0x50u8, 0x71u8]
}

/// String terminator: ESC backslash.
pub open spec fn terminator() -> Seq<u8> {
    seq![0x1bu8, 0x5cu8]
}

/// Raster attributes: `"1;1;<width>;<height>`.
pub open spec fn raster_attributes(w: nat, h: nat) -> Seq<u8> {
    seq![0x22u8, 0x31u8, 0x3bu8, 0x31u8, 0x3bu8] + decimal(w) + seq![0x3bu8] + decimal(h)
}

/// Colour definition of palette entry `i`: `#<i>;2;<r>;<g>;<b>` with percentages.
pub open spec fn color_definition(i: nat, c: Rgb) -> Seq<u8> {
    seq![0x23u8] + decimal(i) + seq![0x3bu8, 0x32u8, 0x3bu8] + decimal(percent_of(c.r)) + seq![
        0x3bu8,
    ] + decimal(percent_of(c.g)) + seq![0x3bu8] + decimal(percent_of(c.b))
}

/// The colour definitions of the first `n` palette entries, in palette order.
pub open spec fn palette_definitions(p: Seq<Rgb>, n: nat) -> Seq<u8>
    decreases n,
{
    if n == 0 {
        seq![]
    } else {
        palette_definitions(p, (n - 1) as nat) + color_definition((n - 1) as nat, p[n - 1])
    }
}

/// Appends the decimal digits of `n`.
fn push_decimal(out: &mut Vec<u8>, n: u64)
    ensures
        final(out)@ == old(out)@ + decimal(n as nat),
    decreases n,
{
    if n >= 10 {
        push_decimal(out, n / 10);
    }
    out.push((48 + n % 10) as u8);
    assert(out@ =~= old(out)@ + decimal(n as nat));
}

/// Scales a channel value to a percentage, truncating toward zero.
pub fn percent(c: u8) -> (r: u32)
    ensures
        r == percent_of(c),
        r <= 100,
{
    (c as u32) * 100 / 255
}

/// Appends the colour definition of palette entry `i`.
fn push_color_definition(out: &mut Vec<u8>, i: u64, c: Rgb)
    ensures
        final(out)@ == old(out)@ + color_definition(i as nat, c),
{
    out.push(0x23);
    push_decimal(out, i);
    out.push(0x3b);
    out.push(0x32);
    out.push(0x3b);
    push_decimal(out, percent(c.r) as u64);
    out.push(0x3b);
    push_decimal(out, percent(c.g) as u64);
    out.push(0x3b);
    push_decimal(out, percent(c.b) as u64);
    assert(out@ =~= old(out)@ + color_definition(i as nat, c));
}

/// Appends the introducer, the raster attributes and one colour definition per palette entry.
fn push_header(out: &mut Vec<u8>, width: u32, height: u32, palette: &Vec<Rgb>)
    ensures
        final(out)@ == old(out)@ + introducer() + raster_attributes(width as nat, height as nat)
            + palette_definitions(palette@, palette@.len()),
{
    out.push(0x1b);
    out.push(0x50);
    out.push(0x71);
    out.push(0x22);
    out.push(0x31);
    out.push(0x3b);
    out.push(0x31);
    out.push(0x3b);
    push_decimal(out, width as u64);
    out.push(0x3b);
    push_decimal(out, height as u64);
    let ghost head = out@;
    assert(head =~= old(out)@ + introducer() + raster_attributes(width as nat, height as nat));
    let mut i: usize = 0;
    while i < palette.len()
        invariant
            i <= palette@.len(),
            out@ == head + palette_definitions(palette@, i as nat),
        decreases palette@.len() - i,
    {
        push_color_definition(out, i as u64, palette[i]);
        i = i + 1;
        assert(out@ =~= head + palette_definitions(palette@, i as nat));
    }
}


/// Number of six-row bands: none when either dimension is zero.
pub open spec fn band_count(w: nat, h: nat) -> nat {
    if w == 0 || h == 0 {
        0
    } else {
        (h + 5) / 6
    }
}

/// Number of image rows in band `b` (six, or fewer in the last band).
pub open spec fn band_rows(h: nat, b: nat) -> nat {
    if h >= 6 * b + 6 {
        6
    } else if h >= 6 * b {
        (h - 6 * b) as nat
    } else {
        0
    }
}

/// The weight of within-band row `k` in a sixel mask: 2 to the power `k`.
pub open spec fn row_weight(k: nat) -> nat
    decreases k,
{
    if k == 0 {
        1
    } else {
        2 * row_weight((k - 1) as nat)
    }
}

/// The pixel at column `x` of row `y` of a raster of width `w`, in row-major order.
pub open spec fn pixel(w: nat, idx: Seq<u8>, x: int, y: int) -> u8 {
    idx[y * w + x]
}

/// Sixel mask of colour `c` at column `x` of band `b` over its first `n` rows:
/// bit `k` is set exactly when the pixel on row `k` of the band has colour `c`.
pub open spec fn mask_upto(w: nat, idx: Seq<u8>, b: nat, c: u8, x: nat, n: nat) -> nat
    decreases n,
{
    if n == 0 {
        0
    } else {
        mask_upto(w, idx, b, c, x, (n - 1) as nat) + if pixel(w, idx, x as int, 6 * b + n - 1)
            == c {
            row_weight((n - 1) as nat)
        } else {
            0
        }
    }
}

/// Sixel mask of colour `c` at column `x` of band `b`.
pub open spec fn column_mask(w: nat, h: nat, idx: Seq<u8>, b: nat, c: u8, x: nat) -> nat {
    mask_upto(w, idx, b, c, x, band_rows(h, b))
}

/// Whether some pixel of band `b` has colour `c`.
pub open spec fn band_has_color(w: nat, h: nat, idx: Seq<u8>, b: nat, c: u8) -> bool {
    exists|j: int| 6 * b * w <= j < (6 * b + band_rows(h, b)) * w && idx[j] == c
}

/// Skip directive from the next undrawn column `next` to column `x`: nothing when
/// they meet, else `!<x - next>` followed by the blank sixel byte.
pub open spec fn gap_directive(x: nat, next: nat) -> Seq<u8> {
    if x == next {
        seq![]
    } else {
        seq![0x21u8] + decimal((x - next) as nat) + seq![0x3fu8]
    }
}

/// The sixel bytes of colour `c` in band `b` from column `x` on, when the next
/// undrawn column is `next`: columns with an empty mask are skipped.
pub open spec fn column_runs(w: nat, h: nat, idx: Seq<u8>, b: nat, c: u8, x: nat, next: nat) -> Seq<
    u8,
>
    decreases w - x,
{
    if x >= w {
        seq![]
    } else if column_mask(w, h, idx, b, c, x) == 0 {
        column_runs(w, h, idx, b, c, x + 1, next)
    } else {
        gap_directive(x, next) + seq![(0x3f + column_mask(w, h, idx, b, c, x)) as u8]
            + column_runs(w, h, idx, b, c, x + 1, x + 1)
    }
}

/// The block of colour `c` in band `b`: `#<c>`, its columns, then `$`.
pub open spec fn color_block(w: nat, h: nat, idx: Seq<u8>, b: nat, c: u8) -> Seq<u8> {
    seq![0x23u8] + decimal(c as nat) + column_runs(w, h, idx, b, c, 0, 0) + seq![0x24u8]
}

/// The blocks of the colours below `n` that occur in band `b`, in ascending order.
pub open spec fn band_colors(w: nat, h: nat, idx: Seq<u8>, b: nat, n: nat) -> Seq<u8>
    decreases n,
{
    if n == 0 {
        seq![]
    } else {
        band_colors(w, h, idx, b, (n - 1) as nat) + if band_has_color(
            w,
            h,
            idx,
            b,
            (n - 1) as u8,
        ) {
            color_block(w, h, idx, b, (n - 1) as u8)
        } else {
            seq![]
        }
    }
}

/// Everything written for band `b`: its colour blocks, then `-`.
pub open spec fn band_content(w: nat, h: nat, idx: Seq<u8>, b: nat) -> Seq<u8> {
    band_colors(w, h, idx, b, 256) + seq![0x2du8]
}

/// The contents of the first `n` bands, top to bottom.
pub open spec fn bands(w: nat, h: nat, idx: Seq<u8>, n: nat) -> Seq<u8>
    decreases n,
{
    if n == 0 {
        seq![]
    } else {
        bands(w, h, idx, (n - 1) as nat) + band_content(w, h, idx, (n - 1) as nat)
    }
}

/// The whole sixel stream of a `w` by `h` raster with palette `p` and pixel indices `idx`.
pub open spec fn sixel_stream(w: nat, h: nat, p: Seq<Rgb>, idx: Seq<u8>) -> Seq<u8> {
    introducer() + raster_attributes(w, h) + palette_definitions(p, p.len()) + bands(
        w,
        h,
        idx,
        band_count(w, h),
    ) + terminator()
}

proof fn lemma_row_weight_small(k: nat)
    requires
        k <= 6,
    ensures
        row_weight(k) <= 64,
        k < 6 ==> row_weight(k) <= 32,
{
    reveal_with_fuel(row_weight, 7);
}

proof fn lemma_mask_bound(w: nat, idx: Seq<u8>, b: nat, c: u8, x: nat, n: nat)
    ensures
        mask_upto(w, idx, b, c, x, n) < row_weight(n),
    decreases n,
{
    if n > 0 {
        lemma_mask_bound(w, idx, b, c, x, (n - 1) as nat);
    }
}

proof fn lemma_pixel_in_range(w: nat, h: nat, x: int, y: int)
    requires
        0 <= x < w,
        0 <= y < h,
    ensures
        0 <= y * w,
        0 <= y * w + x < w * h,
{
    assert(0 <= y * w + x < w * h) by (nonlinear_arith)
        requires
            0 <= x < w,
            0 <= y < h,
    ;
}

/// Computes the sixel mask of colour `c` at column `x` of band `b`.
fn compute_column_mask(width: usize, height: usize, indices: &Vec<u8>, b: usize, c: u8, x: usize) -> (r: u8)
    requires
        indices@.len() == width * height,
        x < width,
        6 * b < height,
    ensures
        r as nat == column_mask(width as nat, height as nat, indices@, b as nat, c, x as nat),
        r < 64,
{
    let len = indices.len();
    let first: usize = 6 * b;
    let rows: usize = if height - first >= 6 {
        6
    } else {
        height - first
    };
    let mut m: u8 = 0;
    let mut weight: u8 = 1;
    let mut k: usize = 0;
    while k < rows
        invariant
            rows == band_rows(height as nat, b as nat),
            rows <= 6,
            first == 6 * b,
            first + rows <= height,
            len == indices@.len(),
            k <= rows,
            indices@.len() == width * height,
            x < width,
            m as nat == mask_upto(width as nat, indices@, b as nat, c, x as nat, k as nat),
            weight as nat == row_weight(k as nat),
        decreases rows - k,
    {
        proof {
            lemma_row_weight_small(k as nat);
            lemma_mask_bound(width as nat, indices@, b as nat, c, x as nat, k as nat);
            lemma_pixel_in_range(width as nat, height as nat, x as int, (first + k) as int);
            assert(((first + k) * width) as int + x < indices@.len());
        }
        if indices[(first + k) * width + x] == c {
            m = m + weight;
        }
        weight = weight * 2;
        k = k + 1;
        proof {
            lemma_row_weight_small(k as nat);
        }
    }
    proof {
        lemma_mask_bound(width as nat, indices@, b as nat, c, x as nat, rows as nat);
        lemma_row_weight_small(rows as nat);
    }
    m
}


/// Appends the sixel bytes of colour `c` in band `b`, with skip directives over gaps.
fn push_column_runs(out: &mut Vec<u8>, width: usize, height: usize, indices: &Vec<u8>, b: usize, c: u8)
    requires
        indices@.len() == width * height,
        6 * b < height,
    ensures
        final(out)@ == old(out)@ + column_runs(
            width as nat,
            height as nat,
            indices@,
            b as nat,
            c,
            0,
            0,
        ),
{
    let ghost w = width as nat;
    let ghost h = height as nat;
    let mut next: usize = 0;
    let mut x: usize = 0;
    while x < width
        invariant
            indices@.len() == width * height,
            6 * b < height,
            w == width,
            h == height,
            x <= width,
            next <= x,
            old(out)@ + column_runs(w, h, indices@, b as nat, c, 0, 0) == out@ + column_runs(
                w,
                h,
                indices@,
                b as nat,
                c,
                x as nat,
                next as nat,
            ),
        decreases width - x,
    {
        let ghost before = out@;
        let m = compute_column_mask(width, height, indices, b, c, x);
        if m != 0 {
            if x != next {
                out.push(0x21);
                push_decimal(out, (x - next) as u64);
                out.push(0x3f);
            }
            out.push(0x3f + m);
            assert(out@ =~= before + gap_directive(x as nat, next as nat) + seq![(0x3f + m) as u8]);
            next = x + 1;
        }
        x = x + 1;
    }
}

/// For each colour, whether some pixel of band `b` has it.
fn band_presence(width: usize, height: usize, indices: &Vec<u8>, b: usize) -> (r: Vec<bool>)
    requires
        indices@.len() == width * height,
        6 * b < height,
    ensures
        r@.len() == 256,
        forall|c: u8| #[trigger] r@[c as int] == band_has_color(width as nat, height as nat, indices@, b as nat, c),
{
    let len = indices.len();
    let first: usize = 6 * b;
    let rows: usize = if height - first >= 6 {
        6
    } else {
        height - first
    };
    proof {
        assert((first + rows) * width <= width * height) by (nonlinear_arith)
            requires
                first + rows <= height,
        ;
        assert(first * width <= (first + rows) * width) by (nonlinear_arith);
        assert(first + rows == height ==> (first + rows) * width == width * height) by (
        nonlinear_arith);
    }
    let start: usize = first * width;
    // The last band ends where the pixels end.
    let end: usize = if first + rows == height {
        len
    } else {
        (first + rows) * width
    };
    let mut present: Vec<bool> = Vec::new();
    let mut i: usize = 0;
    while i < 256
        invariant
            i <= 256,
            present@.len() == i,
            forall|c: int| 0 <= c < i ==> !present@[c],
        decreases 256 - i,
    {
        present.push(false);
        i = i + 1;
    }
    let mut j: usize = start;
    while j < end
        invariant
            start <= j <= end,
            end <= indices@.len(),
            present@.len() == 256,
            forall|c: int|
                0 <= c < 256 ==> present@[c] == exists|k: int| start <= k < j && indices@[k] == c,
        decreases end - j,
    {
        let v = indices[j];
        present.set(v as usize, true);
        assert forall|c: int| 0 <= c < 256 implies present@[c] == exists|k: int|
            start <= k < j + 1 && indices@[k] == c by {
            if c == v {
                assert(start <= j < j + 1 && indices@[j as int] == c);
            }
        }
        j = j + 1;
    }
    proof {
        assert(rows == band_rows(height as nat, b as nat));
        assert forall|c: u8| #[trigger] present@[c as int] == band_has_color(width as nat, height as nat, indices@, b as nat, c) by {
            assert(start == 6 * b * width);
            assert(end == (6 * b + band_rows(height as nat, b as nat)) * width);
        }
    }
    present
}

/// Appends the content of band `b`: one block per colour present in it, then `-`.
fn push_band(out: &mut Vec<u8>, width: usize, height: usize, indices: &Vec<u8>, b: usize)
    requires
        indices@.len() == width * height,
        6 * b < height,
    ensures
        final(out)@ == old(out)@ + band_content(width as nat, height as nat, indices@, b as nat),
{
    let present = band_presence(width, height, indices, b);
    let mut c: usize = 0;
    while c < 256
        invariant
            indices@.len() == width * height,
            6 * b < height,
            c <= 256,
            present@.len() == 256,
            forall|k: u8| #[trigger] present@[k as int] == band_has_color(width as nat, height as nat, indices@, b as nat, k),
            out@ == old(out)@ + band_colors(width as nat, height as nat, indices@, b as nat, c as nat),
        decreases 256 - c,
    {
        let ghost before = out@;
        let ghost has = band_has_color(width as nat, height as nat, indices@, b as nat, c as u8);
        assert(present@[(c as u8) as int] == has);
        if present[c] {
            out.push(0x23);
            push_decimal(out, c as u64);
            push_column_runs(out, width, height, indices, b, c as u8);
            out.push(0x24);
        }
        assert(out@ =~= before + if has {
            color_block(width as nat, height as nat, indices@, b as nat, c as u8)
        } else {
            seq![]
        });
        c = c + 1;
    }
    out.push(0x2d);
    assert(out@ =~= old(out)@ + band_content(width as nat, height as nat, indices@, b as nat));
}

/// Encodes a `width` by `height` raster, given as one palette index per pixel in
/// row-major order, into a complete sixel escape sequence.
pub fn encode_sixel(width: u32, height: u32, palette: &Vec<Rgb>, indices: &Vec<u8>) -> (r: Vec<u8>)
    requires
        indices@.len() == width * height,
    ensures
        r@ == sixel_stream(width as nat, height as nat, palette@, indices@),
{
    let mut out: Vec<u8> = Vec::new();
    push_header(&mut out, width, height, palette);
    let ghost head = out@;
    let w = width as usize;
    let h = height as usize;
    let count: usize = if w == 0 || h == 0 {
        0
    } else {
        (h - 1) / 6 + 1
    };
    let mut b: usize = 0;
    while b < count
        invariant
            indices@.len() == w * h,
            w == width,
            h == height,
            count == band_count(w as nat, h as nat),
            b <= count,
            out@ == head + bands(w as nat, h as nat, indices@, b as nat),
        decreases count - b,
    {
        push_band(&mut out, w, h, indices, b);
        b = b + 1;
        assert(out@ =~= head + bands(w as nat, h as nat, indices@, b as nat));
    }
    out.push(0x1b);
    out.push(0x5c);
    assert(out@ =~= sixel_stream(width as nat, height as nat, palette@, indices@));
    out
}


/// Encoding is deterministic: two encodings of the same raster and palette are
/// byte for byte the same.
pub proof fn lemma_encoding_deterministic(
    w: u32,
    h: u32,
    p: Seq<Rgb>,
    idx: Seq<u8>,
    first: Seq<u8>,
    second: Seq<u8>,
)
    requires
        idx.len() == w * h,
        first == sixel_stream(w as nat, h as nat, p, idx),
        second == sixel_stream(w as nat, h as nat, p, idx),
    ensures
        first == second,
{
}

/// Bands partition the rows: there are `ceil(h / 6)` of them, each holds at least
/// one row, row `y` is row `y % 6` of band `y / 6`, and a band's masks use only
/// the bits of the rows it actually has.
pub proof fn lemma_band_partition(w: nat, h: nat, idx: Seq<u8>, c: u8)
    requires
        w > 0,
        h > 0,
    ensures
        6 * (band_count(w, h) - 1) < h <= 6 * band_count(w, h),
        forall|b: nat| b < band_count(w, h) ==> 1 <= #[trigger] band_rows(h, b) <= 6,
        forall|y: nat|
            y < h ==> (y / 6) < band_count(w, h) && y % 6 < #[trigger] band_rows(h, y / 6) && 6 * (y
                / 6) + y % 6 == y,
        forall|b: nat, x: nat|
            #[trigger] column_mask(w, h, idx, b, c, x) < row_weight(band_rows(h, b)),
{
    assert forall|b: nat, x: nat| #[trigger] column_mask(w, h, idx, b, c, x) < row_weight(
        band_rows(h, b),
    ) by {
        lemma_mask_bound(w, idx, b, c, x, band_rows(h, b));
    }
}

/// A raster with no columns or no rows yields no band: the stream is the
/// introducer, the raster attributes, the colour definitions and the terminator.
pub proof fn lemma_empty_raster(w: nat, h: nat, p: Seq<Rgb>, idx: Seq<u8>)
    requires
        w == 0 || h == 0,
    ensures
        sixel_stream(w, h, p, idx) == introducer() + raster_attributes(w, h) + palette_definitions(
            p,
            p.len(),
        ) + terminator(),
{
    assert(bands(w, h, idx, band_count(w, h)) == Seq::<u8>::empty());
    assert(sixel_stream(w, h, p, idx) =~= introducer() + raster_attributes(w, h)
        + palette_definitions(p, p.len()) + terminator());
}


proof fn lemma_row_weight_positive(k: nat)
    ensures
        row_weight(k) >= 1,
    decreases k,
{
    if k > 0 {
        lemma_row_weight_positive((k - 1) as nat);
    }
}

proof fn lemma_row_weight_split(k: nat, d: nat)
    ensures
        row_weight(k + d) == row_weight(k) * row_weight(d),
        row_weight(k) >= 1,
    decreases d,
{
    if d == 0 {
        lemma_row_weight_positive(k);
        assert(row_weight(0) == 1);
        assert(k + d == k);
        assert(row_weight(k) * 1 == row_weight(k));
    } else {
        lemma_row_weight_split(k, (d - 1) as nat);
        assert(row_weight(k + d) == 2 * row_weight((k + d - 1) as nat));
        let a = row_weight(k);
        let b = row_weight((d - 1) as nat);
        assert(2 * (a * b) == a * (2 * b)) by (nonlinear_arith);
    }
}

proof fn lemma_mask_bit(w: nat, idx: Seq<u8>, b: nat, c: u8, x: nat, n: nat, k: nat)
    requires
        k < n,
    ensures
        (mask_upto(w, idx, b, c, x, n) / row_weight(k)) % 2 == if pixel(
            w,
            idx,
            x as int,
            (6 * b + k) as int,
        ) == c {
            1nat
        } else {
            0nat
        },
    decreases n,
{
    let wk = row_weight(k);
    let m = mask_upto(w, idx, b, c, x, (n - 1) as nat);
    let bit: nat = if pixel(w, idx, x as int, 6 * b + n - 1) == c {
        1
    } else {
        0
    };
    lemma_row_weight_split(k, 0);
    assert(mask_upto(w, idx, b, c, x, n) == m + bit * row_weight((n - 1) as nat));
    if k == n - 1 {
        lemma_mask_bound(w, idx, b, c, x, k);
        assert((m + bit * wk) / wk == bit) by (nonlinear_arith)
            requires
                0 <= m < wk,
                bit == 0 || bit == 1,
        ;
    } else {
        lemma_mask_bit(w, idx, b, c, x, (n - 1) as nat, k);
        let d = (n - 2 - k) as nat;
        lemma_row_weight_split(k, (d + 1) as nat);
        assert(row_weight((d + 1) as nat) == 2 * row_weight(d));
        assert(k + (d + 1) == n - 1);
        let t = bit * row_weight(d);
        assert(bit * row_weight((n - 1) as nat) == wk * (2 * t)) by (nonlinear_arith)
            requires
                row_weight((n - 1) as nat) == wk * (2 * row_weight(d)),
                t == bit * row_weight(d),
        ;
        let q = m as int / wk as int;
        assert(wk * (2 * t) == (2 * t) * wk) by (nonlinear_arith);
        vstd::arithmetic::div_mod::lemma_hoist_over_denominator(m as int, (2 * t) as int, wk);
        assert((m + wk * (2 * t)) / wk == q + 2 * t);
        vstd::arithmetic::div_mod::lemma_mod_multiples_vanish(t as int, q, 2);
        assert((2 * t + q) % 2 == q % 2);
    }
}

/// Every pixel can be read back from the masks: the pixel's colour occurs in its
/// band, so that colour's block is written, and at the pixel's column exactly the
/// mask of the pixel's own colour has the bit of the pixel's row within the band.
pub proof fn lemma_pixel_recoverable(w: nat, h: nat, idx: Seq<u8>, x: nat, y: nat, c: u8)
    requires
        idx.len() == w * h,
        x < w,
        y < h,
    ensures
        y / 6 < band_count(w, h),
        band_has_color(w, h, idx, y / 6, pixel(w, idx, x as int, y as int)),
        (column_mask(w, h, idx, y / 6, c, x) / row_weight(y % 6)) % 2 == 1 <==> c == pixel(
            w,
            idx,
            x as int,
            y as int,
        ),
{
    let b = y / 6;
    let k = y % 6;
    let rows = band_rows(h, b);
    assert(6 * b + k == y);
    assert(k < rows);
    lemma_mask_bit(w, idx, b, c, x, rows, k);
    let j = y * w + x;
    assert(6 * b * w <= j < (6 * b + rows) * w) by (nonlinear_arith)
        requires
            6 * b <= y,
            y + 1 <= 6 * b + rows,
            j == y * w + x,
            x < w,
    ;
    assert(idx[j as int] == pixel(w, idx, x as int, y as int));
}


/// Whether byte `c` is an ASCII decimal digit.
pub open spec fn is_digit(c: u8) -> bool {
    48 <= c <= 57
}

/// Number of ASCII digits at the start of `s`.
pub open spec fn leading_digits(s: Seq<u8>) -> nat
    decreases s.len(),
{
    if s.len() > 0 && is_digit(s[0]) {
        1 + leading_digits(s.drop_first())
    } else {
        0
    }
}

/// The number that the ASCII digits `s` denote.
pub open spec fn digits_value(s: Seq<u8>) -> nat
    decreases s.len(),
{
    if s.len() == 0 {
        0
    } else {
        digits_value(s.drop_last()) * 10 + (s.last() - 48) as nat
    }
}

proof fn lemma_decimal_digits(n: nat)
    ensures
        decimal(n).len() >= 1,
        forall|i: int| 0 <= i < decimal(n).len() ==> is_digit(#[trigger] decimal(n)[i]),
        digits_value(decimal(n)) == n,
    decreases n,
{
    let d = decimal(n);
    if n >= 10 {
        lemma_decimal_digits(n / 10);
        assert(d.drop_last() =~= decimal(n / 10));
        assert forall|i: int| 0 <= i < d.len() implies is_digit(#[trigger] d[i]) by {
            if i < d.len() - 1 {
                assert(d[i] == decimal(n / 10)[i]);
            }
        }
        assert(digits_value(d) == digits_value(decimal(n / 10)) * 10 + (d.last() - 48) as nat);
    } else {
        assert(d.drop_last() =~= Seq::<u8>::empty());
        assert(digits_value(Seq::<u8>::empty()) == 0);
        assert(digits_value(d) == digits_value(d.drop_last()) * 10 + (d.last() - 48) as nat);
    }
}

proof fn lemma_leading_digits(a: Seq<u8>, rest: Seq<u8>)
    requires
        forall|i: int| 0 <= i < a.len() ==> is_digit(#[trigger] a[i]),
        rest.len() > 0,
        !is_digit(rest[0]),
    ensures
        leading_digits(a + rest) == a.len(),
    decreases a.len(),
{
    if a.len() > 0 {
        assert((a + rest).drop_first() =~= a.drop_first() + rest);
        lemma_leading_digits(a.drop_first(), rest);
    } else {
        assert(a + rest =~= rest);
    }
}

/// Reads the column bytes of one colour, starting at column `cursor`: `!<n>?`
/// moves the cursor `n` columns on, any other byte is the mask `byte - 0x3f` of
/// the cursor's column, which then moves one column on. Yields each drawn
/// column's mask.
pub open spec fn decode_columns(s: Seq<u8>, cursor: nat) -> Map<nat, nat>
    decreases s.len(),
{
    if s.len() == 0 {
        Map::empty()
    } else if s[0] == 0x21u8 {
        let n = leading_digits(s.drop_first());
        if s.len() >= n + 2 {
            decode_columns(
                s.subrange((n + 2) as int, s.len() as int),
                cursor + digits_value(s.subrange(1, (n + 1) as int)),
            )
        } else {
            Map::empty()
        }
    } else {
        decode_columns(s.drop_first(), cursor + 1).insert(cursor, (s[0] - 0x3f) as nat)
    }
}

/// The non-empty masks of colour `c` in band `b`, by column, from column `x` on.
pub open spec fn drawn_columns(w: nat, h: nat, idx: Seq<u8>, b: nat, c: u8, x: nat) -> Map<nat, nat> {
    Map::new(
        |col: nat| x <= col < w && column_mask(w, h, idx, b, c, col) != 0,
        |col: nat| column_mask(w, h, idx, b, c, col),
    )
}

proof fn lemma_decode_drawn_column(g: nat, mask: nat, rest: Seq<u8>, next: nat)
    requires
        1 <= mask < 64,
    ensures
        decode_columns(seq![0x21u8] + decimal(g) + seq![0x3fu8] + seq![(0x3f + mask) as u8] + rest, next)
            == decode_columns(rest, next + g + 1).insert(next + g, mask),
{
    lemma_decimal_digits(g);
    let s = seq![0x21u8] + decimal(g) + seq![0x3fu8] + seq![(0x3f + mask) as u8] + rest;
    let d = decimal(g);
    let tail = seq![0x3fu8] + seq![(0x3f + mask) as u8] + rest;
    assert(s.drop_first() =~= d + tail);
    lemma_leading_digits(d, tail);
    assert(s.subrange(1, (d.len() + 1) as int) =~= d);
    let t = s.subrange((d.len() + 2) as int, s.len() as int);
    assert(t =~= seq![(0x3f + mask) as u8] + rest);
    assert(t.drop_first() =~= rest);
    assert(s[0] == 0x21u8);
    assert(leading_digits(s.drop_first()) == d.len());
    assert(decode_columns(s, next) == decode_columns(t, next + g));
    assert(t[0] == (0x3f + mask) as u8);
    assert(t[0] != 0x21u8);
    assert(decode_columns(t, next + g) == decode_columns(t.drop_first(), next + g + 1).insert(
        next + g,
        (t[0] - 0x3f) as nat,
    ));
}

/// The skip directives put every mask back at its column: reading the column
/// bytes of colour `c` in band `b` from column `x` on, with the cursor at `next`,
/// yields exactly the non-empty masks of the columns from `x` on.
pub proof fn lemma_columns_decode(w: nat, h: nat, idx: Seq<u8>, b: nat, c: u8, x: nat, next: nat)
    requires
        next <= x,
    ensures
        decode_columns(column_runs(w, h, idx, b, c, x, next), next) == drawn_columns(
            w,
            h,
            idx,
            b,
            c,
            x,
        ),
    decreases w - x,
{
    if x >= w {
        assert(drawn_columns(w, h, idx, b, c, x) =~= Map::<nat, nat>::empty());
    } else {
        let m = column_mask(w, h, idx, b, c, x);
        if m == 0 {
            lemma_columns_decode(w, h, idx, b, c, x + 1, next);
            assert(drawn_columns(w, h, idx, b, c, x + 1) =~= drawn_columns(w, h, idx, b, c, x));
        } else {
            lemma_mask_bound(w, idx, b, c, x, band_rows(h, b));
            lemma_row_weight_small(band_rows(h, b));
            lemma_columns_decode(w, h, idx, b, c, x + 1, x + 1);
            let rest = column_runs(w, h, idx, b, c, x + 1, x + 1);
            if x == next {
                let s = seq![(0x3f + m) as u8] + rest;
                assert(column_runs(w, h, idx, b, c, x, next) =~= s);
                assert(s.drop_first() =~= rest);
            } else {
                let g = (x - next) as nat;
                lemma_decode_drawn_column(g, m, rest, next);
                assert(column_runs(w, h, idx, b, c, x, next) =~= seq![0x21u8] + decimal(g) + seq![
                    0x3fu8,
                ] + seq![(0x3f + m) as u8] + rest);
            }
            assert(drawn_columns(w, h, idx, b, c, x + 1).insert(x, m) =~= drawn_columns(
                w,
                h,
                idx,
                b,
                c,
                x,
            ));
        }
    }
}

/// Gaps are compressed: when colour `c` has no pixel in band `b` at columns
/// `x..y` and has one at column `y`, the bytes from column `x` on are a single skip
/// directive over the whole gap (nothing when there is no gap), the sixel byte of
/// column `y`, then the bytes from column `y + 1` on; no blank sixel byte is
/// written for a skipped column.
pub proof fn lemma_gap_compression(
    w: nat,
    h: nat,
    idx: Seq<u8>,
    b: nat,
    c: u8,
    x: nat,
    y: nat,
    next: nat,
)
    requires
        next <= x <= y < w,
        forall|col: nat| x <= col < y ==> #[trigger] column_mask(w, h, idx, b, c, col) == 0,
        column_mask(w, h, idx, b, c, y) != 0,
    ensures
        column_runs(w, h, idx, b, c, x, next) == gap_directive(y, next) + seq![
            (0x3f + column_mask(w, h, idx, b, c, y)) as u8,
        ] + column_runs(w, h, idx, b, c, y + 1, y + 1),
    decreases y - x,
{
    if x < y {
        assert(column_mask(w, h, idx, b, c, x) == 0);
        lemma_gap_compression(w, h, idx, b, c, x + 1, y, next);
    }
}

} // verus!
