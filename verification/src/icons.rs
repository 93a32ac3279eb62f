//! Switcher icons: decoding an icon file's bytes into RGBA rows, and placing
//! the decoded icon, already scaled to fit, in the middle of a transparent
//! `size × size` RGBA buffer (letterboxed), keeping its aspect ratio.

use vstd::prelude::*;

verus! {

/// The row of the pixel holding byte `i` of a `size`-wide RGBA buffer.
pub open spec fn px_row(i: int, size: int) -> int {
    (i / 4) / size
}

/// The column of the pixel holding byte `i`.
pub open spec fn px_col(i: int, size: int) -> int {
    (i / 4) % size
}

/// The channel (R, G, B, A) of byte `i`.
pub open spec fn chan(i: int) -> int {
    i % 4
}

/// Left and top offsets of an `rw × rh` icon centred in the square.
pub open spec fn offsets(rw: int, rh: int, size: int) -> (int, int) {
    ((size - rw) / 2, (size - rh) / 2)
}

/// Whether pixel `(row, col)` of the square is covered by the icon.
pub open spec fn in_icon(row: int, col: int, rw: int, rh: int, size: int) -> bool {
    let (ox, oy) = offsets(rw, rh, size);
    oy <= row < oy + rh && ox <= col < ox + rw
}

/// Byte index in the icon of the first byte of square pixel `(row, col)`.
pub open spec fn src_index(row: int, col: int, rw: int, rh: int, size: int) -> int {
    let (ox, oy) = offsets(rw, rh, size);
    ((row - oy) * rw + (col - ox)) * 4
}

/// Byte `i` of the letterboxed square: the matching byte of the icon where
/// the icon covers the pixel and holds a whole pixel there, else 0
/// (transparent).
pub open spec fn letterboxed_byte(src: Seq<u8>, rw: int, rh: int, size: int, i: int) -> u8 {
    let row = px_row(i, size);
    let col = px_col(i, size);
    if in_icon(row, col, rw, rh, size) && src_index(row, col, rw, rh, size) + 3 < src.len() {
        src[src_index(row, col, rw, rh, size) + chan(i)]
    } else {
        0
    }
}

/// Byte `i` splits into its pixel's row and column and its channel.
proof fn lemma_byte_coords(i: int, size: int)
    requires
        size > 0,
        i >= 0,
    ensures
        i == (px_row(i, size) * size + px_col(i, size)) * 4 + chan(i),
        0 <= chan(i) < 4,
        0 <= px_col(i, size) < size,
        0 <= px_row(i, size),
{
    let p = i / 4;
    let c = i % 4;
    let r = p / size;
    let k = p % size;
    assert(i == p * 4 + c && 0 <= c < 4 && p >= 0) by (nonlinear_arith)
        requires
            p == i / 4,
            c == i % 4,
            i >= 0,
    ;
    assert(p == r * size + k && 0 <= k < size && r >= 0) by (nonlinear_arith)
        requires
            r == p / size,
            k == p % size,
            p >= 0,
            size > 0,
    ;
}

/// The byte of channel `c` of pixel `(row, col)` has those coordinates.
proof fn lemma_coords_of(row: int, col: int, c: int, size: int)
    requires
        size > 0,
        row >= 0,
        0 <= col < size,
        0 <= c < 4,
    ensures
        px_row((row * size + col) * 4 + c, size) == row,
        px_col((row * size + col) * 4 + c, size) == col,
        chan((row * size + col) * 4 + c) == c,
{
    let p = row * size + col;
    vstd::arithmetic::div_mod::lemma_fundamental_div_mod_converse(p * 4 + c, 4, p, c);
    vstd::arithmetic::div_mod::lemma_fundamental_div_mod_converse(p, size, row, col);
}

/// Whether the icon pixel at icon row `y`, column `x` comes before the one
/// at `(ty, tx)` in row-major order.
pub open spec fn before(y: int, x: int, ty: int, tx: int) -> bool {
    y < ty || (y == ty && x < tx)
}

/// Copy an `rw × rh` RGBA icon (`src`, row-major, 4 bytes a pixel) into the
/// middle of a transparent `size × size` square (see
/// [`letterboxed_byte`]); icon pixels missing from `src` stay transparent.
pub fn letterbox(src: &[u8], rw: u32, rh: u32, size: u32) -> (out: Vec<u8>)
    requires
        rw <= size,
        rh <= size,
        size * size * 4 <= u32::MAX,
    ensures
        out@.len() == size * size * 4,
        forall|i: int|
            0 <= i < out@.len() ==> #[trigger] out@[i] == letterboxed_byte(
                src@,
                rw as int,
                rh as int,
                size as int,
                i,
            ),
{
    let n: u32 = size * size * 4;
    let mut out: Vec<u8> = vec![0u8; n as usize];
    if size == 0 {
        return out;
    }
    let off_x = (size - rw) / 2;
    let off_y = (size - rh) / 2;
    let ghost sz = size as int;
    let ghost w = rw as int;
    let ghost h = rh as int;
    assert(forall|i: int| 0 <= i < out@.len() ==> #[trigger] out@[i] == 0u8);
    let mut y: u32 = 0;
    while y < rh
        invariant
            y <= rh <= size,
            rw <= size,
            size > 0,
            sz == size,
            w == rw,
            h == rh,
            n == size * size * 4,
            n <= u32::MAX,
            off_x == offsets(w, h, sz).0,
            off_y == offsets(w, h, sz).1,
            out@.len() == n,
            forall|i: int|
                0 <= i < out@.len() ==> #[trigger] out@[i] == if in_icon(px_row(i, sz), px_col(i, sz), w, h, sz)
                    && before(px_row(i, sz) - off_y, px_col(i, sz) - off_x, y as int, 0) {
                    letterboxed_byte(src@, w, h, sz, i)
                } else {
                    0u8
                },
        decreases rh - y,
    {
        let mut x: u32 = 0;
        while x < rw
            invariant
                y < rh <= size,
                x <= rw <= size,
                size > 0,
                sz == size,
                w == rw,
                h == rh,
                n == size * size * 4,
                n <= u32::MAX,
                off_x == offsets(w, h, sz).0,
                off_y == offsets(w, h, sz).1,
                out@.len() == n,
                forall|i: int|
                    0 <= i < out@.len() ==> #[trigger] out@[i] == if in_icon(px_row(i, sz), px_col(i, sz), w, h, sz)
                        && before(px_row(i, sz) - off_y, px_col(i, sz) - off_x, y as int, x as int) {
                        letterboxed_byte(src@, w, h, sz, i)
                    } else {
                        0u8
                    },
            decreases rw - x,
        {
            proof {
                assert(y * rw + x < size * size) by (nonlinear_arith)
                    requires
                        y < rh <= size,
                        x < rw <= size,
                ;
                assert((y + off_y) * size + x + off_x < size * size) by (nonlinear_arith)
                    requires
                        y + off_y < size,
                        x + off_x < size,
                ;
            }
            let si = (y * rw + x) * 4;
            let di = ((y + off_y) * size + x + off_x) * 4;
            let ghost row = (y + off_y) as int;
            let ghost col = (x + off_x) as int;
            proof {
                assert(si == src_index(row, col, w, h, sz));
                assert(in_icon(row, col, w, h, sz));
                assert((si as int) + 3 < n && (di as int) + 3 < n) by (nonlinear_arith)
                    requires
                        si == (y * rw + x) * 4,
                        di == ((y + off_y) * size + x + off_x) * 4,
                        y * rw + x < size * size,
                        (y + off_y) * size + x + off_x < size * size,
                        n == size * size * 4,
                ;
            }
            if (si as usize) + 3 < src.len() {
                let ghost before_copy = out@;
                let mut c: usize = 0;
                while c < 4
                    invariant
                        c <= 4,
                        n <= u32::MAX,
                        (si as int) + 3 < n,
                        (di as int) + 3 < n,
                        out@.len() == before_copy.len(),
                        (di as int) + 3 < out@.len(),
                        (si as int) + 3 < src@.len(),
                        forall|i: int|
                            0 <= i < out@.len() ==> #[trigger] out@[i] == if di <= i < di + c {
                                src@[si + (i - di)]
                            } else {
                                before_copy[i]
                            },
                    decreases 4 - c,
                {
                    out.set(di as usize + c, src[si as usize + c]);
                    c += 1;
                }
            }
            proof {
                assert forall|i: int| 0 <= i < out@.len() implies #[trigger] out@[i] == if in_icon(
                    px_row(i, sz),
                    px_col(i, sz),
                    w,
                    h,
                    sz,
                ) && before(px_row(i, sz) - off_y, px_col(i, sz) - off_x, y as int, x + 1) {
                    letterboxed_byte(src@, w, h, sz, i)
                } else {
                    0u8
                } by {
                    lemma_byte_coords(i, sz);
                    if px_row(i, sz) == row && px_col(i, sz) == col {
                        assert(i == di + chan(i));
                    } else if di <= i < di + 4 {
                        lemma_coords_of(row, col, i - di, sz);
                    }
                }
            }
            x += 1;
        }
        proof {
            assert forall|i: int| 0 <= i < out@.len() implies #[trigger] out@[i] == if in_icon(
                px_row(i, sz),
                px_col(i, sz),
                w,
                h,
                sz,
            ) && before(px_row(i, sz) - off_y, px_col(i, sz) - off_x, y + 1, 0) {
                letterboxed_byte(src@, w, h, sz, i)
            } else {
                0u8
            } by {
                if in_icon(px_row(i, sz), px_col(i, sz), w, h, sz) {
                    assert(px_col(i, sz) - off_x < rw);
                }
            }
        }
        y += 1;
    }
    proof {
        assert forall|i: int| 0 <= i < out@.len() implies #[trigger] out@[i] == letterboxed_byte(
            src@,
            w,
            h,
            sz,
            i,
        ) by {
            if in_icon(px_row(i, sz), px_col(i, sz), w, h, sz) {
                assert(px_row(i, sz) - off_y < rh);
            }
        }
    }
    out
}

/// The picture that the `image` crate decodes from `data` (format guessed
/// from the bytes), as width, height and straight RGBA rows; `None` when the
/// crate cannot decode the bytes.
pub uninterp spec fn image_rgba(data: Seq<u8>) -> Option<(u32, u32, Seq<u8>)>;

/// `image::load_from_memory`, its result turned into RGBA rows by
/// `DynamicImage::to_rgba8` and taken apart by `dimensions` and `into_raw`.
/// Claimed: the result depends on the bytes alone (named `image_rgba`);
/// nothing is claimed of the decoding itself.
#[verifier::external_body]
fn decode_rgba(data: &Vec<u8>) -> (r: Option<(u32, u32, Vec<u8>)>)
    ensures
        match r {
            Some((w, h, px)) => image_rgba(data@) == Some((w, h, px@)),
            None => image_rgba(data@) is None,
        },
{
    match image::load_from_memory(data.as_slice()) {
        Ok(img) => {
            let rgba = img.to_rgba8();
            let (w, h) = rgba.dimensions();
            Some((w, h, rgba.into_raw()))
        },
        Err(_) => None,
    }
}

/// Keep a decoded picture for an icon only when it has pixels: a width or a
/// height of 0 gives none.
pub fn accept_decoded(d: Option<(u32, u32, Vec<u8>)>) -> (r: Option<(u32, u32, Vec<u8>)>)
    ensures
        match d {
            Some((w, h, px)) => if w > 0 && h > 0 {
                r matches Some((rw, rh, rpx)) && rw == w && rh == h && rpx@ == px@
            } else {
                r is None
            },
            None => r is None,
        },
{
    match d {
        Some((w, h, px)) => if w > 0 && h > 0 {
            Some((w, h, px))
        } else {
            None
        },
        None => None,
    }
}

/// Decode an icon file's bytes (any format the `image` crate reads) into
/// width, height and straight RGBA rows; none when the bytes do not decode
/// or the picture is empty.
pub fn decode_icon(data: &Vec<u8>) -> (r: Option<(u32, u32, Vec<u8>)>)
    ensures
        match image_rgba(data@) {
            Some((w, h, px)) => if w > 0 && h > 0 {
                r matches Some((rw, rh, rpx)) && rw == w && rh == h && rpx@ == px
            } else {
                r is None
            },
            None => r is None,
        },
{
    accept_decoded(decode_rgba(data))
}

} // verus!
