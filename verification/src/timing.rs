//! Frame pacing numbers and frame bookkeeping: refresh intervals, the vblank
//! watchdog timeout, the content fingerprint that decides when a window
//! snapshot is stale, and the copy of a captured frame into a client buffer.

use vstd::prelude::*;

verus! {

/// Render interval used when no output is known: 16 ms (about 60 Hz), in ns.
pub const RENDER_INTERVAL_NANOS: u64 = 16_000_000;

/// Floor of the vblank watchdog timeout: 30 ms, in ns.
pub const VBLANK_TIMEOUT_FLOOR_NANOS: u64 = 30_000_000;

/// Frame period in nanoseconds of an output refreshing at `refresh_mhz`
/// millihertz (60 Hz when the mode is unknown, at least 1 mHz).
pub open spec fn spec_frame_interval(refresh_mhz: Option<i32>) -> int {
    let r: int = match refresh_mhz {
        Some(v) => v as int,
        None => 60_000,
    };
    let r: int = if r < 1 {
        1
    } else {
        r
    };
    1_000_000_000_000int / r
}

/// Frame period of an output (see [`spec_frame_interval`]).
pub fn frame_callback_interval(refresh_mhz: Option<i32>) -> (r: u64)
    ensures
        r == spec_frame_interval(refresh_mhz),
{
    let refresh = match refresh_mhz {
        Some(v) => v,
        None => 60_000,
    };
    let refresh: i32 = if refresh < 1 {
        1
    } else {
        refresh
    };
    1_000_000_000_000u64 / (refresh as u64)
}

/// The smallest of the given frame periods; the default interval when none.
pub open spec fn spec_fastest(intervals: Seq<u64>, n: int) -> int
    decreases n,
{
    if n <= 0 {
        RENDER_INTERVAL_NANOS as int
    } else if n == 1 {
        intervals[0] as int
    } else {
        let p = spec_fastest(intervals, n - 1);
        if (intervals[n - 1] as int) < p {
            intervals[n - 1] as int
        } else {
            p
        }
    }
}

/// The frame period of the fastest output (see [`spec_fastest`]).
pub fn fastest_output_interval(intervals: &Vec<u64>) -> (r: u64)
    ensures
        r == spec_fastest(intervals@, intervals@.len() as int),
{
    if intervals.len() == 0 {
        return RENDER_INTERVAL_NANOS;
    }
    let mut best = intervals[0];
    let mut i: usize = 1;
    while i < intervals.len()
        invariant
            1 <= i <= intervals@.len(),
            best == spec_fastest(intervals@, i as int),
        decreases intervals@.len() - i,
    {
        if intervals[i] < best {
            best = intervals[i];
        }
        i += 1;
    }
    best
}

/// The vblank watchdog timeout: three frame periods of the fastest output,
/// at least the floor.
pub fn vblank_timeout(fastest: u64) -> (r: u64)
    requires
        fastest <= u64::MAX / 3,
    ensures
        r == if 3 * fastest >= VBLANK_TIMEOUT_FLOOR_NANOS {
            3 * fastest
        } else {
            VBLANK_TIMEOUT_FLOOR_NANOS as int
        },
{
    let t = fastest * 3;
    if t >= VBLANK_TIMEOUT_FLOOR_NANOS {
        t
    } else {
        VBLANK_TIMEOUT_FLOOR_NANOS
    }
}

/// The FNV-1a offset basis the fingerprint starts from.
pub const FNV_OFFSET: u64 = 0xcbf2_9ce4_8422_2325;

/// The FNV-1a prime.
pub const FNV_PRIME: u64 = 0x0000_0100_0000_01b3;

/// `a * b` modulo 2^64.
pub open spec fn wmul(a: u64, b: u64) -> u64 {
    ((a as nat * b as nat) % 0x1_0000_0000_0000_0000) as u64
}

/// Fold one surface's commit count into the fingerprint, followed by a
/// separator byte.
pub open spec fn fold_commit(key: u64, commits: u64) -> u64 {
    wmul(wmul(key ^ commits, FNV_PRIME) ^ 0xff, FNV_PRIME)
}

/// The fingerprint of the first `n` commit counts.
pub open spec fn spec_content_key(commits: Seq<u64>, n: int) -> u64
    decreases n,
{
    if n <= 0 {
        FNV_OFFSET
    } else {
        fold_commit(spec_content_key(commits, n - 1), commits[n - 1])
    }
}

/// Fingerprint of a window's contents from the commit counts of every
/// surface in its tree (`u64::MAX` for a surface without renderer state):
/// any commit anywhere changes it.
pub fn window_content_key(commits: &Vec<u64>) -> (r: u64)
    ensures
        r == spec_content_key(commits@, commits@.len() as int),
{
    let mut key: u64 = FNV_OFFSET;
    let mut i: usize = 0;
    while i < commits.len()
        invariant
            i <= commits@.len(),
            key == spec_content_key(commits@, i as int),
        decreases commits@.len() - i,
    {
        key = (key ^ commits[i]).wrapping_mul(FNV_PRIME);
        key = (key ^ 0xff).wrapping_mul(FNV_PRIME);
        i += 1;
    }
    key
}

/// A window needs a fresh snapshot when it has none, or when its contents
/// changed and the last one is at least the minimum interval old.
pub fn snapshot_is_stale(previous: Option<(u64, bool)>, content_key: u64) -> (r: bool)
    ensures
        r == match previous {
            None => true,
            Some((key, interval_passed)) => key != content_key && interval_passed,
        },
{
    match previous {
        None => true,
        Some((key, interval_passed)) => key != content_key && interval_passed,
    }
}

/// The row of byte `i` in a buffer with `stride` bytes per row.
pub open spec fn row_of(i: int, stride: int) -> int {
    i / stride
}

/// The column of byte `i` in a buffer with `stride` bytes per row.
pub open spec fn col_of(i: int, stride: int) -> int {
    i % stride
}

/// Byte `i` of the destination after copying: a byte in the first `copy_w`
/// columns of a row below `rows` comes from the same place of the source row
/// when that row lies wholly inside both buffers; every other byte is left
/// as it was.
pub open spec fn copied_byte(
    dst: Seq<u8>,
    src: Seq<u8>,
    dst_stride: int,
    rows: int,
    src_stride: int,
    copy_w: int,
    i: int,
) -> u8 {
    let y = row_of(i, dst_stride);
    let x = col_of(i, dst_stride);
    if dst_stride > 0 && y < rows && x < copy_w && y * src_stride + copy_w <= src.len() && y
        * dst_stride + copy_w <= dst.len() {
        src[y * src_stride + x]
    } else {
        dst[i]
    }
}

proof fn lemma_row_col(i: int, stride: int, y: int)
    requires
        stride > 0,
        y * stride <= i < y * stride + stride,
    ensures
        row_of(i, stride) == y,
        col_of(i, stride) == i - y * stride,
{
    vstd::arithmetic::div_mod::lemma_fundamental_div_mod_converse(i, stride, y, i - y * stride);
}

proof fn lemma_row_start(i: int, stride: int)
    requires
        stride > 0,
        0 <= i,
    ensures
        0 <= row_of(i, stride),
        row_of(i, stride) * stride <= i < row_of(i, stride) * stride + stride,
        col_of(i, stride) == i - row_of(i, stride) * stride,
{
    let q = i / stride;
    let r = i % stride;
    assert(i == q * stride + r && 0 <= r < stride && 0 <= q) by (nonlinear_arith)
        requires
            stride > 0,
            0 <= i,
            q == i / stride,
            r == i % stride,
    ;
}

/// Copy a tightly packed 4-byte-per-pixel frame of `phys_w × phys_h` into a
/// buffer with `dst_stride` bytes per row and `dst_height` rows: each row up
/// to the smaller height gets the smaller of the two row widths, rows that
/// would overrun either buffer are skipped.
pub fn copy_frame(
    dst: &mut Vec<u8>,
    dst_stride: usize,
    dst_height: usize,
    pixels: &[u8],
    phys_w: usize,
    phys_h: usize,
)
    requires
        phys_w <= usize::MAX / 4,
        (if dst_height < phys_h { dst_height as int } else { phys_h as int }) * (if dst_stride > phys_w * 4 { dst_stride as int } else { phys_w * 4 }) + dst_stride <= usize::MAX,
    ensures
        final(dst)@.len() == old(dst)@.len(),
        forall|i: int|
            0 <= i < old(dst)@.len() ==> #[trigger] final(dst)@[i] == copied_byte(
                old(dst)@,
                pixels@,
                dst_stride as int,
                if dst_height < phys_h { dst_height as int } else { phys_h as int },
                phys_w * 4,
                if phys_w * 4 < dst_stride { (phys_w * 4) as int } else { dst_stride as int },
                i,
            ),
{
    let src_stride = phys_w * 4;
    let copy_w = if src_stride < dst_stride {
        src_stride
    } else {
        dst_stride
    };
    let rows = if dst_height < phys_h {
        dst_height
    } else {
        phys_h
    };
    if dst_stride == 0 {
        return;
    }
    let ghost d0 = dst@;
    let ghost ds = dst_stride as int;
    let mut y: usize = 0;
    while y < rows
        invariant
            y <= rows,
            rows == (if dst_height < phys_h { dst_height } else { phys_h }),
            src_stride == phys_w * 4,
            copy_w == (if src_stride < dst_stride { src_stride } else { dst_stride }),
            ds == dst_stride,
            dst_stride > 0,
            rows * (if dst_stride > src_stride { dst_stride } else { src_stride }) + dst_stride <= usize::MAX,
            dst@.len() == d0.len(),
            forall|i: int|
                0 <= i < d0.len() ==> #[trigger] dst@[i] == if row_of(i, ds) < y {
                    copied_byte(d0, pixels@, ds, rows as int, src_stride as int, copy_w as int, i)
                } else {
                    d0[i]
                },
        decreases rows - y,
    {
        proof {
            assert(y * src_stride <= rows * src_stride) by (nonlinear_arith)
                requires
                    y <= rows,
            ;
            assert(y * dst_stride <= rows * dst_stride) by (nonlinear_arith)
                requires
                    y <= rows,
            ;
            assert(rows * src_stride <= rows * (if dst_stride > src_stride { dst_stride } else { src_stride }))
                by (nonlinear_arith);
            assert(rows * dst_stride <= rows * (if dst_stride > src_stride { dst_stride } else { src_stride }))
                by (nonlinear_arith);
        }
        let src_off = y * src_stride;
        let dst_off = y * dst_stride;
        if src_off + copy_w <= pixels.len() && dst_off + copy_w <= dst.len() {
            let mut x: usize = 0;
            while x < copy_w
                invariant
                    x <= copy_w <= dst_stride,
                    ds == dst_stride,
                    dst_stride > 0,
                    src_off == y * src_stride,
                    dst_off == y * dst_stride,
                    src_off + copy_w <= pixels@.len(),
                    dst_off + copy_w <= dst@.len(),
                    src_off + copy_w <= usize::MAX,
                    dst_off + copy_w <= usize::MAX,
                    dst@.len() == d0.len(),
                    forall|i: int|
                        0 <= i < d0.len() ==> #[trigger] dst@[i] == if row_of(i, ds) < y {
                            copied_byte(d0, pixels@, ds, rows as int, src_stride as int, copy_w as int, i)
                        } else if dst_off <= i < dst_off + x {
                            pixels@[src_off + (i - dst_off)]
                        } else {
                            d0[i]
                        },
                decreases copy_w - x,
            {
                proof {
                    lemma_row_col(dst_off + x, ds, y as int);
                }
                dst.set(dst_off + x, pixels[src_off + x]);
                x += 1;
            }
        }
        proof {
            assert forall|i: int| 0 <= i < d0.len() implies #[trigger] dst@[i] == if row_of(i, ds) < y + 1 {
                copied_byte(d0, pixels@, ds, rows as int, src_stride as int, copy_w as int, i)
            } else {
                d0[i]
            } by {
                lemma_row_start(i, ds);
                let q = row_of(i, ds);
                if q == y {
                    assert(q * ds == dst_off);
                    assert(q * src_stride == src_off);
                } else if q > y {
                    assert(q * ds >= y * ds + ds) by (nonlinear_arith)
                        requires
                            q > y,
                            ds > 0,
                    ;
                }
            }
        }
        y += 1;
    }
}

} // verus!
