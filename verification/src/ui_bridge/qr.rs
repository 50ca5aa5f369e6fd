//! The QR code of a config for scanning into a phone: the symbol comes from
//! the `qrcode` crate, and it is drawn here as black-on-white RGBA pixels,
//! eight pixels per module, inside a four-module quiet zone.
use vstd::prelude::*;

verus! {

/// What `qrcode::QrCode::new` makes of the UTF-8 bytes of `text`: the
/// symbol's width in modules and, row by row, whether each module is dark;
/// `None` when the crate cannot encode the data.
pub uninterp spec fn qr_code_of(text: Seq<char>) -> Option<(usize, Seq<bool>)>;

/// Encodes `text` with `qrcode::QrCode::new` (medium error correction, the
/// smallest version that holds it) and reads the symbol out through
/// `QrCode::width` and `QrCode::to_colors`. Claimed of the crate: the
/// result is `qr_code_of(text)`; the symbol is a normal QR code, 21 to 177
/// modules wide, with one color per module; it is `None` exactly when the
/// crate returns an error (data too long).
#[verifier::external_body]
fn encode_qr(text: &str) -> (r: Option<(usize, Vec<bool>)>)
    ensures
        match qr_code_of(text@) {
            Some((w, m)) => r matches Some((rw, rm)) && rw == w && rm@ == m,
            None => r is None,
        },
        r matches Some((w, m)) ==> 21 <= w <= 177 && m@.len() == w * w,
{
    match qrcode::QrCode::new(text.as_bytes()) {
        Ok(code) => {
            let modules: Vec<bool> = code.to_colors().into_iter().map(|c| match c {
                qrcode::Color::Dark => true,
                qrcode::Color::Light => false,
            }).collect();
            Some((code.width(), modules))
        },
        Err(_) => None,
    }
}

/// Pixels per module.
pub const SCALE: usize = 8;

/// Modules of light border on each side.
pub const QUIET: usize = 4;

/// Pixels per side of the image of a symbol `w` modules wide.
pub open spec fn qr_side(w: nat) -> nat {
    ((w + 2 * QUIET) * SCALE) as nat
}

/// Whether the pixel at column `x`, row `y` lies on a dark module.
pub open spec fn pixel_dark(w: nat, m: Seq<bool>, x: int, y: int) -> bool {
    let mx = x / (SCALE as int) - QUIET as int;
    let my = y / (SCALE as int) - QUIET as int;
    0 <= mx < w && 0 <= my < w && m[my * w + mx]
}

/// The RGBA bytes of one pixel: black on a dark module, else white, opaque.
pub open spec fn pixel_bytes(w: nat, m: Seq<bool>, x: int, y: int) -> Seq<u8> {
    let v: u8 = if pixel_dark(w, m, x, y) { 0 } else { 255 };
    seq![v, v, v, 255u8]
}

/// The first `x` pixels of row `y`, left to right.
pub open spec fn row_prefix(w: nat, m: Seq<bool>, y: int, x: int) -> Seq<u8>
    decreases x,
{
    if x <= 0 {
        Seq::empty()
    } else {
        row_prefix(w, m, y, x - 1) + pixel_bytes(w, m, x - 1, y)
    }
}

/// The first `y` rows of the image, top to bottom.
pub open spec fn rows_prefix(w: nat, m: Seq<bool>, y: int) -> Seq<u8>
    decreases y,
{
    if y <= 0 {
        Seq::empty()
    } else {
        rows_prefix(w, m, y - 1) + row_prefix(w, m, y - 1, qr_side(w) as int)
    }
}

/// The whole image of a symbol, as RGBA bytes row by row.
pub open spec fn qr_rgba(w: nat, m: Seq<bool>) -> Seq<u8> {
    rows_prefix(w, m, qr_side(w) as int)
}

/// An RGBA image, `side` pixels square.
pub struct QrImage {
    pub side: usize,
    pub rgba: Vec<u8>,
}

/// Draws a symbol `width` modules wide (see [`qr_rgba`]).
pub fn qr_pixels(width: usize, modules: &Vec<bool>) -> (r: Vec<u8>)
    requires
        width <= 177,
        modules@.len() == width * width,
    ensures
        r@ == qr_rgba(width as nat, modules@),
{
    let side = (width + 2 * QUIET) * SCALE;
    let ghost w = width as nat;
    let ghost m = modules@;
    let mut out: Vec<u8> = Vec::new();
    let mut y: usize = 0;
    while y < side
        invariant
            side == qr_side(w),
            w == width,
            m == modules@,
            width <= 177,
            modules@.len() == width * width,
            y <= side,
            out@ == rows_prefix(w, m, y as int),
        decreases side - y,
    {
        let mut x: usize = 0;
        while x < side
            invariant
                side == qr_side(w),
                w == width,
                m == modules@,
                width <= 177,
                modules@.len() == width * width,
                y < side,
                x <= side,
                out@ == rows_prefix(w, m, y as int) + row_prefix(w, m, y as int, x as int),
            decreases side - x,
        {
            let bx = x / SCALE;
            let by = y / SCALE;
            let dark = if bx >= QUIET && by >= QUIET && bx - QUIET < width && by - QUIET < width {
                let mx = bx - QUIET;
                let my = by - QUIET;
                assert(my * width + mx < width * width && width * width <= 31329) by (nonlinear_arith)
                    requires
                        mx < width,
                        my < width,
                        width <= 177,
                ;
                modules[my * width + mx]
            } else {
                false
            };
            assert(dark == pixel_dark(w, m, x as int, y as int));
            let v: u8 = if dark { 0 } else { 255 };
            let ghost before = out@;
            out.push(v);
            out.push(v);
            out.push(v);
            out.push(255u8);
            assert(out@ =~= before + pixel_bytes(w, m, x as int, y as int));
            assert(out@ =~= rows_prefix(w, m, y as int) + row_prefix(w, m, y as int, x + 1));
            x += 1;
        }
        assert(out@ =~= rows_prefix(w, m, y + 1));
        y += 1;
    }
    out
}

/// The QR code of `text` as an image, or nothing when `text` cannot be
/// encoded.
pub fn qr_image(text: &str) -> (r: Option<QrImage>)
    ensures
        match qr_code_of(text@) {
            Some((w, m)) => r matches Some(img) && img.side == qr_side(w as nat) && img.rgba@ == qr_rgba(
                w as nat,
                m,
            ),
            None => r is None,
        },
{
    match encode_qr(text) {
        Some((width, modules)) => {
            let rgba = qr_pixels(width, &modules);
            Some(QrImage { side: (width + 2 * QUIET) * SCALE, rgba })
        },
        None => None,
    }
}

proof fn lemma_row_len(w: nat, m: Seq<bool>, y: int, x: int)
    requires
        x >= 0,
    ensures
        row_prefix(w, m, y, x).len() == 4 * x,
    decreases x,
{
    if x > 0 {
        lemma_row_len(w, m, y, x - 1);
    }
}

proof fn lemma_rows_len(w: nat, m: Seq<bool>, y: int)
    requires
        y >= 0,
    ensures
        rows_prefix(w, m, y).len() == y * (4 * qr_side(w)),
    decreases y,
{
    let k: int = 4 * qr_side(w) as int;
    if y > 0 {
        lemma_rows_len(w, m, y - 1);
        lemma_row_len(w, m, y - 1, qr_side(w) as int);
        assert(rows_prefix(w, m, y).len() == rows_prefix(w, m, y - 1).len() + row_prefix(w, m, y - 1, qr_side(w) as int).len());
        assert((y - 1) * k + k == y * k) by (nonlinear_arith);
    } else {
        assert(0 * k == 0) by (nonlinear_arith);
    }
}

/// The image is square: `side × side` pixels of four bytes each.
pub proof fn law_qr_image_square(w: nat, m: Seq<bool>)
    ensures
        qr_rgba(w, m).len() == qr_side(w) * qr_side(w) * 4,
{
    let side = qr_side(w);
    lemma_rows_len(w, m, side as int);
    assert(side * (4 * side) == side * side * 4) by (nonlinear_arith);
}

proof fn lemma_row_prefix_grows(w: nat, m: Seq<bool>, y: int, a: int, b: int)
    requires
        0 <= a <= b,
    ensures
        row_prefix(w, m, y, b).subrange(0, row_prefix(w, m, y, a).len() as int) == row_prefix(w, m, y, a),
    decreases b,
{
    lemma_row_len(w, m, y, a);
    lemma_row_len(w, m, y, b);
    if a == b {
        assert(row_prefix(w, m, y, b).subrange(0, row_prefix(w, m, y, a).len() as int) =~= row_prefix(w, m, y, a));
    } else {
        lemma_row_prefix_grows(w, m, y, a, b - 1);
        lemma_row_len(w, m, y, b - 1);
        assert(row_prefix(w, m, y, b).subrange(0, row_prefix(w, m, y, a).len() as int)
            =~= row_prefix(w, m, y, b - 1).subrange(0, row_prefix(w, m, y, a).len() as int));
    }
}

proof fn lemma_rows_prefix_grows(w: nat, m: Seq<bool>, a: int, b: int)
    requires
        0 <= a <= b,
    ensures
        rows_prefix(w, m, b).subrange(0, rows_prefix(w, m, a).len() as int) == rows_prefix(w, m, a),
    decreases b,
{
    lemma_rows_len(w, m, a);
    lemma_rows_len(w, m, b);
    if a == b {
        assert(rows_prefix(w, m, b).subrange(0, rows_prefix(w, m, a).len() as int) =~= rows_prefix(w, m, a));
    } else {
        lemma_rows_prefix_grows(w, m, a, b - 1);
        lemma_rows_len(w, m, b - 1);
        assert((b - 1) * (4 * qr_side(w)) >= a * (4 * qr_side(w))) by (nonlinear_arith)
            requires
                a <= b - 1,
        ;
        assert(rows_prefix(w, m, b).subrange(0, rows_prefix(w, m, a).len() as int)
            =~= rows_prefix(w, m, b - 1).subrange(0, rows_prefix(w, m, a).len() as int));
    }
}

/// The image is laid out as RGBA rows, top to bottom and left to right:
/// byte `k` of the pixel at column `x`, row `y` stands at `(y·side + x)·4 + k`.
pub proof fn law_qr_pixel_at(w: nat, m: Seq<bool>, x: int, y: int, k: int)
    requires
        0 <= x < qr_side(w),
        0 <= y < qr_side(w),
        0 <= k < 4,
    ensures
        (y * qr_side(w) + x) * 4 + k < qr_rgba(w, m).len(),
        qr_rgba(w, m)[(y * qr_side(w) + x) * 4 + k] == pixel_bytes(w, m, x, y)[k],
{
    let side = qr_side(w) as int;
    let i = (y * side + x) * 4 + k;
    let before = rows_prefix(w, m, y);
    let row = row_prefix(w, m, y, side);
    lemma_rows_len(w, m, y);
    lemma_rows_len(w, m, y + 1);
    lemma_rows_len(w, m, side);
    lemma_row_len(w, m, y, side);
    lemma_row_len(w, m, y, x);
    lemma_row_len(w, m, y, x + 1);
    assert(i == y * (4 * side) + 4 * x + k) by (nonlinear_arith)
        requires
            i == (y * side + x) * 4 + k,
    ;
    assert((y + 1) * (4 * side) == y * (4 * side) + 4 * side) by (nonlinear_arith);
    assert(side * (4 * side) >= (y + 1) * (4 * side)) by (nonlinear_arith)
        requires
            y + 1 <= side,
            0 <= y,
    ;
    // Within the row.
    lemma_row_prefix_grows(w, m, y, x + 1, side);
    assert(row_prefix(w, m, y, x + 1) == row_prefix(w, m, y, x) + pixel_bytes(w, m, x, y));
    assert(row[4 * x + k] == row_prefix(w, m, y, x + 1)[4 * x + k]);
    assert(row_prefix(w, m, y, x + 1)[4 * x + k] == pixel_bytes(w, m, x, y)[k]);
    // Within the image.
    assert(rows_prefix(w, m, y + 1) == before + row);
    lemma_rows_prefix_grows(w, m, y + 1, side);
    assert(qr_rgba(w, m)[i] == rows_prefix(w, m, y + 1)[i]);
}

/// The quiet zone is white: no pixel within four modules of the edge is
/// dark.
pub proof fn law_qr_quiet_zone(w: nat, m: Seq<bool>, x: int, y: int)
    requires
        0 <= x < qr_side(w),
        0 <= y < qr_side(w),
        x < (QUIET * SCALE) as int || y < (QUIET * SCALE) as int || x >= qr_side(w) - (QUIET * SCALE) as int
            || y >= qr_side(w) - (QUIET * SCALE) as int,
    ensures
        pixel_bytes(w, m, x, y) == seq![255u8, 255u8, 255u8, 255u8],
{
    let side = qr_side(w) as int;
    assert(side == 8 * w + 64);
    if x < 32 {
        assert(x / 8 < 4);
    } else if y < 32 {
        assert(y / 8 < 4);
    } else if x >= side - 32 {
        assert(x / 8 >= w + 4);
    } else {
        assert(y / 8 >= w + 4);
    }
    assert(!pixel_dark(w, m, x, y));
}

} // verus!
