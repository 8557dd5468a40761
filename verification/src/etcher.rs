//! Etching data into frames as blocks of pixels, and reading it back.
use crate::blocks::{
    in_blocks,
    in_square,
    lemma_block_inside,
    lemma_block_of_bound,
    lemma_block_square,
    lemma_covered,
};
use crate::bits::{
    bits_of,
    bits_to_u32s,
    bits_value,
    lemma_bits_value_of,
    lemma_two_pow_values,
    lemma_words_to_bits_group,
    lemma_words_to_bits_len,
    rip_binary_u32,
    translate_u32,
    u32s_to_bits,
    words_to_bits,
};
use crate::embedsource::{chan, channel_index, in_frame, set_channel, EmbedSource, Image, Size};
use crate::settings::{Data, OutputMode, Settings};
use vstd::prelude::*;

verus! {

/// Channel `c` (0 blue, 1 green, 2 red) of a colour given as red, green, blue.
pub open spec fn rgb_channel(rgb: Seq<u8>, c: int) -> u8 {
    rgb[2 - c]
}

/// `b` keeps the frame layout of `a`: same dimensions and block size.
pub open spec fn same_layout(a: EmbedSource, b: EmbedSource) -> bool {
    &&& b.image.width == a.image.width
    &&& b.image.height == a.image.height
    &&& b.size == a.size
    &&& b.frame_size == a.frame_size
    &&& b.actual_size == a.actual_size
}

/// Sum of channel `c` over the `n` pixels of row `y` from column `x` on.
pub open spec fn row_sum(data: Seq<u8>, w: int, x: int, y: int, n: nat, c: int) -> int
    decreases n,
{
    if n == 0 {
        0
    } else {
        row_sum(data, w, x, y, (n - 1) as nat, c) + chan(data, w, x + n - 1, y, c) as int
    }
}

/// Sum of channel `c` over the first `m` rows of the `s`-wide square whose
/// top-left pixel is `(x, y)`.
pub open spec fn square_sum(data: Seq<u8>, w: int, x: int, y: int, s: nat, m: nat, c: int) -> int
    decreases m,
{
    if m == 0 {
        0
    } else {
        square_sum(data, w, x, y, s, (m - 1) as nat, c) + row_sum(data, w, x, y + m - 1, s, c)
    }
}

/// Average, rounded down, of channel `c` over the `s` by `s` square whose
/// top-left pixel is `(x, y)`.
pub open spec fn square_average(img: Image, x: int, y: int, s: nat, c: int) -> int {
    square_sum(img.data@, img.width as int, x, y, s, s, c) / (s * s) as int
}

proof fn lemma_row_sum_bounds(data: Seq<u8>, w: int, x: int, y: int, n: nat, c: int)
    ensures
        0 <= row_sum(data, w, x, y, n, c) <= n * 255,
    decreases n,
{
    if n > 0 {
        lemma_row_sum_bounds(data, w, x, y, (n - 1) as nat, c);
    }
}

proof fn lemma_square_sum_bounds(data: Seq<u8>, w: int, x: int, y: int, s: nat, m: nat, c: int)
    ensures
        0 <= square_sum(data, w, x, y, s, m, c) <= m * (s * 255),
    decreases m,
{
    if m > 0 {
        lemma_square_sum_bounds(data, w, x, y, s, (m - 1) as nat, c);
        lemma_row_sum_bounds(data, w, x, y + m - 1, s, c);
        assert((m - 1) * (s * 255) + s * 255 == m * (s * 255)) by (nonlinear_arith);
    }
}

proof fn lemma_row_sum_uniform(data: Seq<u8>, w: int, x: int, y: int, n: nat, c: int, v: int)
    requires
        forall|j: int| 0 <= j < n ==> #[trigger] chan(data, w, x + j, y, c) == v,
    ensures
        row_sum(data, w, x, y, n, c) == n * v,
    decreases n,
{
    if n > 0 {
        let n1 = (n - 1) as nat;
        lemma_row_sum_uniform(data, w, x, y, n1, c, v);
        assert(chan(data, w, x + n1, y, c) == v);
        assert(row_sum(data, w, x, y, n, c) == row_sum(data, w, x, y, n1, c) + chan(data, w, x + n1, y, c));
        assert(n1 * v + v == n * v) by (nonlinear_arith)
            requires n1 + 1 == n;
    } else {
        assert(n * v == 0) by (nonlinear_arith)
            requires n == 0;
    }
}

proof fn lemma_square_sum_uniform(
    data: Seq<u8>,
    w: int,
    x: int,
    y: int,
    s: nat,
    m: nat,
    c: int,
    v: int,
)
    requires
        forall|i: int, j: int|
            0 <= i < m && 0 <= j < s ==> #[trigger] chan(data, w, x + j, y + i, c) == v,
    ensures
        square_sum(data, w, x, y, s, m, c) == m * (s * v),
    decreases m,
{
    if m > 0 {
        let m1 = (m - 1) as nat;
        lemma_square_sum_uniform(data, w, x, y, s, m1, c, v);
        assert forall|j: int| 0 <= j < s implies #[trigger] chan(data, w, x + j, y + m1, c)
            == v by {
            assert(chan(data, w, x + j, y + m1, c) == v);
        }
        lemma_row_sum_uniform(data, w, x, y + m1, s, c, v);
        assert(square_sum(data, w, x, y, s, m, c) == square_sum(data, w, x, y, s, m1, c) + row_sum(data, w, x, y + m1, s, c));
        assert(m1 * (s * v) + s * v == m * (s * v)) by (nonlinear_arith)
            requires m1 + 1 == m;
    } else {
        assert(m * (s * v) == 0) by (nonlinear_arith)
            requires m == 0;
    }
}

/// The average over a square all of whose pixels carry `v` in channel `c`
/// is `v`.
pub proof fn lemma_square_average_uniform(img: Image, x: int, y: int, s: nat, c: int, v: int)
    requires
        s > 0,
        forall|px: int, py: int|
            in_square(x, y, s as int, px, py) ==> #[trigger] img.channel(px, py, c) == v,
    ensures
        square_average(img, x, y, s, c) == v,
{
    let data = img.data@;
    let w = img.width as int;
    assert forall|i: int, j: int| 0 <= i < s && 0 <= j < s implies #[trigger] chan(
        data,
        w,
        x + j,
        y + i,
        c,
    ) == v by {
        assert(in_square(x, y, s as int, x + j, y + i));
        assert(img.channel(x + j, y + i, c) == v);
    }
    lemma_square_sum_uniform(data, w, x, y, s, s, c, v);
    assert(s * (s * v) == (s * s) * v) by (nonlinear_arith);
    assert((s * s) > 0) by (nonlinear_arith)
        requires
            s > 0,
    ;
    vstd::arithmetic::div_mod::lemma_div_multiples_vanish(v, (s * s) as int);
    assert((s * s) * v == v * (s * s)) by (nonlinear_arith);
}

/// Paints the `size` by `size` square whose top-left pixel is `(x, y)` in
/// the colour that the first three entries of `rgb` give (red, green,
/// blue).
pub fn etch_pixel(frame: &mut EmbedSource, rgb: &Vec<u8>, x: i32, y: i32)
    requires
        old(frame).wf(),
        rgb.len() >= 3,
        0 <= x,
        0 <= y,
        x + old(frame).size <= old(frame).image.width,
        y + old(frame).size <= old(frame).image.height,
    ensures
        final(frame).wf(),
        same_layout(*old(frame), *final(frame)),
        forall|px: int, py: int, c: int|
            in_frame(old(frame).image.width as int, old(frame).image.height as int, px, py, c)
                ==> #[trigger] final(frame).image.channel(px, py, c) == if in_square(
                x as int,
                y as int,
                old(frame).size as int,
                px,
                py,
            ) {
                rgb_channel(rgb@, c)
            } else {
                old(frame).image.channel(px, py, c)
            },
{
    let size = frame.size;
    let ghost old_frame = *frame;
    let ghost w = frame.image.width as int;
    let ghost h = frame.image.height as int;
    let r = rgb[0];
    let g = rgb[1];
    let b = rgb[2];
    let mut i: i32 = 0;
    while i < size
        invariant
            0 <= i <= size,
            size == old_frame.size,
            rgb@.len() >= 3,
            r == rgb@[0],
            g == rgb@[1],
            b == rgb@[2],
            old_frame.wf(),
            w == old_frame.image.width,
            h == old_frame.image.height,
            0 <= x,
            0 <= y,
            x + size <= w,
            y + size <= h,
            frame.wf(),
            same_layout(old_frame, *frame),
            forall|px: int, py: int, c: int|
                in_frame(w, h, px, py, c) ==> #[trigger] frame.image.channel(px, py, c) == if x
                    <= px < x + size && y <= py < y + i {
                    rgb_channel(rgb@, c)
                } else {
                    old_frame.image.channel(px, py, c)
                },
        decreases size - i,
    {
        let mut j: i32 = 0;
        while j < size
            invariant
                0 <= i < size,
                0 <= j <= size,
                size == old_frame.size,
                rgb@.len() >= 3,
                r == rgb@[0],
                g == rgb@[1],
                b == rgb@[2],
                old_frame.wf(),
                w == old_frame.image.width,
                h == old_frame.image.height,
                0 <= x,
                0 <= y,
                x + size <= w,
                y + size <= h,
                frame.wf(),
                same_layout(old_frame, *frame),
                forall|px: int, py: int, c: int|
                    in_frame(w, h, px, py, c) ==> #[trigger] frame.image.channel(px, py, c) == if (x
                        <= px < x + size && y <= py < y + i) || (x <= px < x + j && py == y + i) {
                        rgb_channel(rgb@, c)
                    } else {
                        old_frame.image.channel(px, py, c)
                    },
            decreases size - j,
        {
            set_channel(&mut frame.image, x + j, y + i, 2, r);
            set_channel(&mut frame.image, x + j, y + i, 1, g);
            set_channel(&mut frame.image, x + j, y + i, 0, b);
            j = j + 1;
        }
        i = i + 1;
    }
}

/// The average colour (red, green, blue) of the `size` by `size` square
/// whose top-left pixel is `(x, y)`.
pub fn get_pixel(frame: &EmbedSource, x: i32, y: i32) -> (rgb: Vec<u8>)
    requires
        frame.wf(),
        0 <= x,
        0 <= y,
        x + frame.size <= frame.image.width,
        y + frame.size <= frame.image.height,
    ensures
        rgb@.len() == 3,
        forall|c: int|
            0 <= c < 3 ==> #[trigger] rgb_channel(rgb@, c) as int == square_average(
                frame.image,
                x as int,
                y as int,
                frame.size as nat,
                c,
            ),
{
    let size = frame.size;
    let ghost data = frame.image.data@;
    let ghost w = frame.image.width as int;
    let ghost s = size as nat;
    let len = frame.image.data.len();
    let mut sums: [u128; 3] = [0, 0, 0];
    let mut i: i32 = 0;
    while i < size
        invariant
            0 <= i <= size,
            size == frame.size,
            s == size as nat,
            frame.wf(),
            data == frame.image.data@,
            w == frame.image.width,
            len == data.len(),
            0 <= x,
            0 <= y,
            x + size <= frame.image.width,
            y + size <= frame.image.height,
            forall|c: int|
                0 <= c < 3 ==> #[trigger] sums@[c] as int == square_sum(
                    data,
                    w,
                    x as int,
                    y as int,
                    s,
                    i as nat,
                    c,
                ),
        decreases size - i,
    {
        let mut j: i32 = 0;
        while j < size
            invariant
                0 <= i < size,
                0 <= j <= size,
                size == frame.size,
                s == size as nat,
                frame.wf(),
                data == frame.image.data@,
                w == frame.image.width,
                len == data.len(),
                0 <= x,
                0 <= y,
                x + size <= frame.image.width,
                y + size <= frame.image.height,
                forall|c: int|
                    0 <= c < 3 ==> #[trigger] sums@[c] as int == square_sum(
                        data,
                        w,
                        x as int,
                        y as int,
                        s,
                        i as nat,
                        c,
                    ) + row_sum(data, w, x as int, y + i, j as nat, c),
            decreases size - j,
        {
            let mut c: usize = 0;
            while c < 3
                invariant
                    0 <= i < size,
                    0 <= j < size,
                    0 <= c <= 3,
                    size == frame.size,
                    s == size as nat,
                    frame.wf(),
                    data == frame.image.data@,
                    w == frame.image.width,
                    len == data.len(),
                    0 <= x,
                    0 <= y,
                    x + size <= frame.image.width,
                    y + size <= frame.image.height,
                    forall|k: int|
                        0 <= k < 3 ==> #[trigger] sums@[k] as int == square_sum(
                            data,
                            w,
                            x as int,
                            y as int,
                            s,
                            i as nat,
                            k,
                        ) + row_sum(
                            data,
                            w,
                            x as int,
                            y + i,
                            if k < c {
                                (j + 1) as nat
                            } else {
                                j as nat
                            },
                            k,
                        ),
                decreases 3 - c,
            {
                let idx = channel_index(frame.image.width, frame.image.height, x + j, y + i, c);
                let v = frame.image.data[idx];
                proof {
                    lemma_square_sum_bounds(data, w, x as int, y as int, s, i as nat, c as int);
                    lemma_row_sum_bounds(data, w, x as int, y + i, j as nat, c as int);
                    assert(i * (s * 255) + j * 255 <= 0x1_0000_0000_0000_0000_0000) by (
                    nonlinear_arith)
                        requires
                            0 <= i < s,
                            0 <= j < s,
                            s <= 0x8000_0000,
                    ;
                }
                sums[c] = sums[c] + v as u128;
                c = c + 1;
            }
            j = j + 1;
        }
        i = i + 1;
    }
    proof {
        assert((size as u128) * (size as u128) <= 0x4000_0000_0000_0000) by (nonlinear_arith)
            requires 0 < size <= 0x7fff_ffff;
    }
    let count: u128 = (size as u128) * (size as u128);
    proof {
        assert(count == s * s);
        assert(count > 0) by (nonlinear_arith)
            requires
                count == s * s,
                s > 0,
        ;
        assert forall|c: int| 0 <= c < 3 implies #[trigger] sums@[c] / count <= 255 by {
            lemma_square_sum_bounds(data, w, x as int, y as int, s, s, c);
            assert(s * (s * 255) == 255 * count) by (nonlinear_arith)
                requires
                    count == s * s,
            ;
            vstd::arithmetic::div_mod::lemma_div_is_ordered(
                sums@[c] as int,
                255 * count,
                count as int,
            );
            vstd::arithmetic::div_mod::lemma_div_multiples_vanish(255, count as int);
        }
    }
    let red = (sums[2] / count) as u8;
    let green = (sums[1] / count) as u8;
    let blue = (sums[0] / count) as u8;
    let mut rgb: Vec<u8> = Vec::new();
    rgb.push(red);
    rgb.push(green);
    rgb.push(blue);
    rgb
}


/// Etching ran past the end of the data.
#[derive(Debug, PartialEq, Eq, Structural)]
pub enum EtchError {
    IndexBeyondData,
}

/// Brightness that a bit is etched with: white for 1, black for 0.
pub open spec fn bw_level(b: bool) -> u8 {
    if b {
        255
    } else {
        0
    }
}

/// Number of bits that etching a frame of `n` blocks writes, starting at
/// bit `start` of `len`.
pub open spec fn bw_written(n: int, start: int, len: int) -> int {
    if n > 0 && start + n >= len {
        len - start
    } else {
        n
    }
}

/// Number of blocks that etching a frame of `n` blocks in colour writes,
/// starting at byte `start` of `len`: a last block may hold one or two
/// bytes, padded with zeros.
pub open spec fn color_written(n: int, start: int, len: int) -> int {
    if n > 0 && start + 3 * n >= len {
        (len - start + 2) / 3
    } else {
        n
    }
}

/// Byte `i` of `data`, or zero past its end.
pub open spec fn byte_or_zero(data: Seq<u8>, i: int) -> u8 {
    if i < data.len() {
        data[i]
    } else {
        0
    }
}

/// `after` is `before` with its first `m` blocks painted with the bits of
/// `data` from `start` on, white for 1 and black for 0.
pub open spec fn etched_bw(
    before: EmbedSource,
    after: EmbedSource,
    data: Seq<bool>,
    start: int,
    m: int,
) -> bool {
    &&& after.wf()
    &&& same_layout(before, after)
    &&& forall|px: int, py: int, c: int|
        in_frame(before.image.width as int, before.image.height as int, px, py, c)
            ==> #[trigger] after.image.channel(px, py, c) == if before.in_grid(px, py)
            && before.block_at(px, py) < m {
            bw_level(data[start + before.block_at(px, py)])
        } else {
            before.image.channel(px, py, c)
        }
}

/// `after` is `before` with its first `m` blocks painted with the colours
/// that the bytes of `data` from `start` on give, three bytes (red, green,
/// blue) per block, zero past the end of `data`.
pub open spec fn etched_color(
    before: EmbedSource,
    after: EmbedSource,
    data: Seq<u8>,
    start: int,
    m: int,
) -> bool {
    &&& after.wf()
    &&& same_layout(before, after)
    &&& forall|px: int, py: int, c: int|
        in_frame(before.image.width as int, before.image.height as int, px, py, c)
            ==> #[trigger] after.image.channel(px, py, c) == if before.in_grid(px, py)
            && before.block_at(px, py) < m {
            byte_or_zero(data, start + 3 * before.block_at(px, py) + 2 - c)
        } else {
            before.image.channel(px, py, c)
        }
}

/// Block `k` of a frame lies inside the frame, and a pixel lies in its
/// square exactly when the pixel lies in the grid and in block `k`.
pub proof fn lemma_source_block(src: EmbedSource, k: int)
    requires
        src.wf(),
        0 <= k < src.blocks(),
    ensures
        src.cols() > 0,
        0 <= src.block_left(k),
        src.block_left(k) + src.size <= src.image.width,
        0 <= src.block_top(k),
        src.block_top(k) + src.size <= src.image.height,
        forall|px: int, py: int|
            0 <= px && 0 <= py ==> (#[trigger] in_square(
                src.block_left(k),
                src.block_top(k),
                src.size as int,
                px,
                py,
            ) <==> (src.in_grid(px, py) && src.block_at(px, py) == k)),
{
    let s = src.size as int;
    lemma_covered(src.image.width as int, s);
    lemma_covered(src.image.height as int, s);
    if src.cols() <= 0 {
        assert(src.blocks() <= 0) by (nonlinear_arith)
            requires
                src.cols() <= 0,
                src.rows() >= 0,
                src.blocks() == src.cols() * src.rows(),
        ;
    }
    lemma_block_inside(s, src.cols(), src.rows(), k);
    assert forall|px: int, py: int| 0 <= px && 0 <= py implies (#[trigger] in_square(
        src.block_left(k),
        src.block_top(k),
        s,
        px,
        py,
    ) <==> (src.in_grid(px, py) && src.block_at(px, py) == k)) by {
        lemma_block_square(s, src.cols(), src.rows(), k, px, py);
    }
}

/// Facts about the block grid of a well-formed frame.
pub proof fn lemma_source_grid(src: EmbedSource)
    requires
        src.wf(),
    ensures
        src.cols() >= 0,
        src.rows() >= 0,
        src.blocks() >= 0,
        src.cols() * src.size <= src.image.width,
        src.rows() * src.size <= src.image.height,
        src.blocks() <= src.image.width * src.image.height,
        forall|px: int, py: int| #[trigger]
            src.in_grid(px, py) ==> 0 <= src.block_at(px, py) < src.blocks(),
{
    let s = src.size as int;
    lemma_covered(src.image.width as int, s);
    lemma_covered(src.image.height as int, s);
    assert(src.blocks() >= 0) by (nonlinear_arith)
        requires
            src.cols() >= 0,
            src.rows() >= 0,
            src.blocks() == src.cols() * src.rows(),
    ;
    assert(src.cols() <= src.image.width) by (nonlinear_arith)
        requires
            src.cols() * s <= src.image.width,
            s >= 1,
            src.cols() >= 0,
    ;
    assert(src.rows() <= src.image.height) by (nonlinear_arith)
        requires
            src.rows() * s <= src.image.height,
            s >= 1,
            src.rows() >= 0,
    ;
    assert(src.blocks() <= src.image.width * src.image.height) by (nonlinear_arith)
        requires
            src.cols() <= src.image.width,
            src.rows() <= src.image.height,
            src.cols() >= 0,
            src.rows() >= 0,
            src.blocks() == src.cols() * src.rows(),
    ;
    assert forall|px: int, py: int| #[trigger]
        src.in_grid(px, py) implies 0 <= src.block_at(px, py) < src.blocks() by {
        if src.cols() <= 0 {
            assert(src.cols() * s <= 0) by (nonlinear_arith)
                requires
                    src.cols() <= 0,
                    s > 0,
            ;
        } else {
            lemma_block_of_bound(s, src.cols(), src.rows(), px, py);
        }
    }
}

/// Number of blocks as a `usize`, with the block columns.
fn grid_of(source: &EmbedSource) -> (res: (usize, i32))
    requires
        source.wf(),
    ensures
        res.0 == source.blocks(),
        res.1 == source.cols(),
{
    proof {
        lemma_source_grid(*source);
        assert(source.image.width * source.image.height <= source.image.data@.len())
            by (nonlinear_arith)
            requires
                source.image.data@.len() == source.image.width * source.image.height * 3,
                source.image.width >= 0,
                source.image.height >= 0,
        ;
    }
    let len = source.image.data.len();
    let cols = source.image.width / source.size;
    let rows = source.image.height / source.size;
    ((cols as usize) * (rows as usize), cols)
}

/// Top-left pixel of block `k`.
fn block_origin(source: &EmbedSource, cols: i32, k: usize) -> (res: (i32, i32))
    requires
        source.wf(),
        cols == source.cols(),
        k < source.blocks(),
    ensures
        res.0 == source.block_left(k as int),
        res.1 == source.block_top(k as int),
{
    proof {
        lemma_source_block(*source, k as int);
    }
    proof {
        let qx = k as int % cols as int;
        let qy = k as int / cols as int;
        assert(qx <= source.image.width) by (nonlinear_arith)
            requires
                qx * source.size <= source.image.width,
                source.size >= 1,
                qx >= 0,
        ;
        assert(qy <= source.image.height) by (nonlinear_arith)
            requires
                qy * source.size <= source.image.height,
                source.size >= 1,
                qy >= 0,
        ;
    }
    let bx = (k % (cols as usize)) as i32;
    let by = (k / (cols as usize)) as i32;
    (bx * source.size, by * source.size)
}

/// Etches the bits of `data` from `*global_index` on into the blocks of the
/// frame, white for 1 and black for 0, in row-major block order. Stops with
/// an error once the last bit has been etched; otherwise every block is
/// etched and the frame is done.
pub fn etch_bw(source: &mut EmbedSource, data: &Vec<bool>, global_index: &mut usize) -> (res: Result<
    (),
    EtchError,
>)
    requires
        old(source).wf(),
        old(source).blocks() == 0 || *old(global_index) < data@.len(),
    ensures
        res is Err <==> (old(source).blocks() > 0 && *old(global_index) + old(source).blocks()
            >= data@.len()),
        *final(global_index) == *old(global_index) + bw_written(
            old(source).blocks(),
            *old(global_index) as int,
            data@.len() as int,
        ),
        etched_bw(
            *old(source),
            *final(source),
            data@,
            *old(global_index) as int,
            bw_written(old(source).blocks(), *old(global_index) as int, data@.len() as int),
        ),
{
    let ghost before = *source;
    let ghost start = *global_index as int;
    let ghost w = source.image.width as int;
    let ghost h = source.image.height as int;
    let (n, cols) = grid_of(source);
    let dlen = data.len();
    proof {
        lemma_source_grid(before);
    }
    let mut k: usize = 0;
    while k < n
        invariant
            dlen == data@.len(),
            before == *old(source),
            start == *old(global_index),
            before.wf(),
            n == before.blocks(),
            cols == before.cols(),
            w == before.image.width,
            h == before.image.height,
            0 <= k <= n,
            *global_index == start + k,
            n > 0 ==> start + k < data@.len(),
            etched_bw(before, *source, data@, start, k as int),
        decreases n - k,
    {
        let ghost prev = *source;
        let (x, y) = block_origin(source, cols, k);
        let level: u8 = if data[*global_index] {
            255
        } else {
            0
        };
        let rgb = vec![level, level, level];
        proof {
            lemma_source_block(before, k as int);
        }
        etch_pixel(source, &rgb, x, y);
        proof {
            assert forall|px: int, py: int, c: int| in_frame(w, h, px, py, c) implies #[trigger] source.image.channel(
                px,
                py,
                c,
            ) == if before.in_grid(px, py) && before.block_at(px, py) < k + 1 {
                bw_level(data@[start + before.block_at(px, py)])
            } else {
                before.image.channel(px, py, c)
            } by {
                assert(in_square(x as int, y as int, before.size as int, px, py) <==> (
                before.in_grid(px, py) && before.block_at(px, py) == k));
            }
        }
        *global_index = *global_index + 1;
        if *global_index >= data.len() {
            return Err(EtchError::IndexBeyondData);
        }
        k = k + 1;
    }
    Ok(())
}

/// Etches the bytes of `data` from `*global_index` on into the blocks of
/// the frame, three bytes (red, green, blue) per block, in row-major block
/// order; a last block with one or two bytes left is padded with zeros.
/// Stops with an error once the last byte has been etched; otherwise every
/// block is etched and the frame is done.
pub fn etch_color(source: &mut EmbedSource, data: &Vec<u8>, global_index: &mut usize) -> (res:
    Result<(), EtchError>)
    requires
        old(source).wf(),
        old(source).blocks() == 0 || *old(global_index) < data@.len(),
        data@.len() + 3 <= usize::MAX,
    ensures
        res is Err <==> (old(source).blocks() > 0 && *old(global_index) + 3 * old(source).blocks()
            >= data@.len()),
        *final(global_index) == *old(global_index) + 3 * color_written(
            old(source).blocks(),
            *old(global_index) as int,
            data@.len() as int,
        ),
        etched_color(
            *old(source),
            *final(source),
            data@,
            *old(global_index) as int,
            color_written(old(source).blocks(), *old(global_index) as int, data@.len() as int),
        ),
{
    let ghost before = *source;
    let ghost start = *global_index as int;
    let ghost w = source.image.width as int;
    let ghost h = source.image.height as int;
    let (n, cols) = grid_of(source);
    let dlen = data.len();
    proof {
        lemma_source_grid(before);
    }
    let mut k: usize = 0;
    while k < n
        invariant
            dlen == data@.len(),
            dlen + 3 <= usize::MAX,
            before == *old(source),
            start == *old(global_index),
            before.wf(),
            n == before.blocks(),
            cols == before.cols(),
            w == before.image.width,
            h == before.image.height,
            0 <= k <= n,
            *global_index == start + 3 * k,
            n > 0 ==> start + 3 * k < data@.len(),
            etched_color(before, *source, data@, start, k as int),
        decreases n - k,
    {
        let (x, y) = block_origin(source, cols, k);
        let i = *global_index;
        let r = data[i];
        let g = if i + 1 < dlen {
            data[i + 1]
        } else {
            0
        };
        let b = if i + 2 < dlen {
            data[i + 2]
        } else {
            0
        };
        let rgb = vec![r, g, b];
        proof {
            lemma_source_block(before, k as int);
        }
        etch_pixel(source, &rgb, x, y);
        proof {
            assert forall|px: int, py: int, c: int| in_frame(w, h, px, py, c) implies #[trigger] source.image.channel(
                px,
                py,
                c,
            ) == if before.in_grid(px, py) && before.block_at(px, py) < k + 1 {
                byte_or_zero(data@, start + 3 * before.block_at(px, py) + 2 - c)
            } else {
                before.image.channel(px, py, c)
            } by {
                assert(in_square(x as int, y as int, before.size as int, px, py) <==> (
                before.in_grid(px, py) && before.block_at(px, py) == k));
            }
        }
        *global_index = *global_index + 3;
        if *global_index >= dlen {
            proof {
                vstd::arithmetic::div_mod::lemma_fundamental_div_mod_converse(
                    data@.len() - start + 2,
                    3,
                    k + 1,
                    data@.len() - start + 2 - 3 * (k + 1),
                );
            }
            return Err(EtchError::IndexBeyondData);
        }
        k = k + 1;
    }
    Ok(())
}

/// Average, rounded down, of channel `c` over block `k`.
pub open spec fn block_average(src: EmbedSource, k: int, c: int) -> int {
    square_average(src.image, src.block_left(k), src.block_top(k), src.size as nat, c)
}

/// The bit that each block of a frame carries: whether its average red is
/// at least 127.
pub open spec fn frame_bits(src: EmbedSource) -> Seq<bool> {
    Seq::new(src.blocks() as nat, |k: int| block_average(src, k, 2) >= 127)
}

/// The bytes that the blocks of a frame carry: the average red, green and
/// blue of each block.
pub open spec fn frame_bytes(src: EmbedSource) -> Seq<u8> {
    Seq::new((3 * src.blocks()) as nat, |i: int| block_average(src, i / 3, 2 - i % 3) as u8)
}

proof fn lemma_row_sum_agree(
    d1: Seq<u8>,
    d2: Seq<u8>,
    w: int,
    x: int,
    y: int,
    n: nat,
    c: int,
)
    requires
        forall|j: int| 0 <= j < n ==> #[trigger] chan(d1, w, x + j, y, c) == chan(d2, w, x + j, y, c),
    ensures
        row_sum(d1, w, x, y, n, c) == row_sum(d2, w, x, y, n, c),
    decreases n,
{
    if n > 0 {
        let n1 = (n - 1) as nat;
        lemma_row_sum_agree(d1, d2, w, x, y, n1, c);
        assert(chan(d1, w, x + n1, y, c) == chan(d2, w, x + n1, y, c));
    }
}

proof fn lemma_square_sum_agree(
    d1: Seq<u8>,
    d2: Seq<u8>,
    w: int,
    x: int,
    y: int,
    s: nat,
    m: nat,
    c: int,
)
    requires
        forall|i: int, j: int|
            0 <= i < m && 0 <= j < s ==> #[trigger] chan(d1, w, x + j, y + i, c) == chan(
                d2,
                w,
                x + j,
                y + i,
                c,
            ),
    ensures
        square_sum(d1, w, x, y, s, m, c) == square_sum(d2, w, x, y, s, m, c),
    decreases m,
{
    if m > 0 {
        let m1 = (m - 1) as nat;
        lemma_square_sum_agree(d1, d2, w, x, y, s, m1, c);
        assert forall|j: int| 0 <= j < s implies #[trigger] chan(d1, w, x + j, y + m1, c) == chan(
            d2,
            w,
            x + j,
            y + m1,
            c,
        ) by {
            assert(chan(d1, w, x + j, y + m1, c) == chan(d2, w, x + j, y + m1, c));
        }
        lemma_row_sum_agree(d1, d2, w, x, y + m1, s, c);
    }
}

/// Two frames of one width that agree on channel `c` of a square have the
/// same average of it there.
pub proof fn lemma_square_average_agree(
    a: Image,
    b: Image,
    x: int,
    y: int,
    s: nat,
    c: int,
)
    requires
        a.width == b.width,
        forall|px: int, py: int|
            in_square(x, y, s as int, px, py) ==> #[trigger] a.channel(px, py, c) == b.channel(
                px,
                py,
                c,
            ),
    ensures
        square_average(a, x, y, s, c) == square_average(b, x, y, s, c),
{
    let w = a.width as int;
    assert forall|i: int, j: int| 0 <= i < s && 0 <= j < s implies #[trigger] chan(
        a.data@,
        w,
        x + j,
        y + i,
        c,
    ) == chan(b.data@, w, x + j, y + i, c) by {
        assert(in_square(x, y, s as int, x + j, y + i));
        assert(a.channel(x + j, y + i, c) == b.channel(x + j, y + i, c));
    }
    lemma_square_sum_agree(a.data@, b.data@, w, x, y, s, s, c);
}

/// Reading the bits of a frame that `m` bits of `data` from `start` on were
/// etched into gives those bits, followed by what the remaining blocks of
/// the frame carried before.
pub proof fn law_read_bw_after_etch(
    before: EmbedSource,
    after: EmbedSource,
    data: Seq<bool>,
    start: int,
    m: int,
)
    requires
        before.wf(),
        etched_bw(before, after, data, start, m),
        0 <= m <= before.blocks(),
        0 <= start,
        start + m <= data.len(),
    ensures
        frame_bits(after) == data.subrange(start, start + m) + frame_bits(before).subrange(
            m,
            before.blocks(),
        ),
{
    let n = before.blocks();
    let fa = frame_bits(after);
    let rhs = data.subrange(start, start + m) + frame_bits(before).subrange(m, n);
    lemma_source_grid(before);
    assert(after.blocks() == n);
    assert forall|k: int| 0 <= k < n implies #[trigger] fa[k] == rhs[k] by {
        lemma_source_block(before, k);
        let x0 = before.block_left(k);
        let y0 = before.block_top(k);
        let s = before.size as int;
        if k < m {
            let v = bw_level(data[start + k]) as int;
            assert forall|px: int, py: int| in_square(x0, y0, s, px, py) implies #[trigger] after.image.channel(
                px,
                py,
                2,
            ) == v by {
                assert(in_frame(
                    before.image.width as int,
                    before.image.height as int,
                    px,
                    py,
                    2,
                ));
            }
            lemma_square_average_uniform(after.image, x0, y0, s as nat, 2, v);
        } else {
            assert forall|px: int, py: int| in_square(x0, y0, s, px, py) implies #[trigger] after.image.channel(
                px,
                py,
                2,
            ) == before.image.channel(px, py, 2) by {
                assert(in_frame(
                    before.image.width as int,
                    before.image.height as int,
                    px,
                    py,
                    2,
                ));
            }
            lemma_square_average_agree(after.image, before.image, x0, y0, s as nat, 2);
        }
    }
    assert(fa =~= rhs);
}

/// Reading the bytes of a frame that `m` blocks of bytes of `data` from
/// `start` on were etched into gives those bytes (zero past the end of the
/// data), followed by what the remaining blocks of the frame carried
/// before.
pub proof fn law_read_color_after_etch(
    before: EmbedSource,
    after: EmbedSource,
    data: Seq<u8>,
    start: int,
    m: int,
)
    requires
        before.wf(),
        etched_color(before, after, data, start, m),
        0 <= m <= before.blocks(),
        0 <= start,
    ensures
        frame_bytes(after) == Seq::new((3 * m) as nat, |i: int| byte_or_zero(data, start + i))
            + frame_bytes(before).subrange(3 * m, 3 * before.blocks()),
{
    let n = before.blocks();
    let fa = frame_bytes(after);
    let rhs = Seq::new((3 * m) as nat, |i: int| byte_or_zero(data, start + i)) + frame_bytes(
        before,
    ).subrange(3 * m, 3 * n);
    lemma_source_grid(before);
    assert(after.blocks() == n);
    assert forall|i: int| 0 <= i < 3 * n implies #[trigger] fa[i] == rhs[i] by {
        let k = i / 3;
        let c = 2 - i % 3;
        vstd::arithmetic::div_mod::lemma_fundamental_div_mod(i, 3);
        assert(0 <= k < n);
        lemma_source_block(before, k);
        let x0 = before.block_left(k);
        let y0 = before.block_top(k);
        let s = before.size as int;
        if k < m {
            let v = byte_or_zero(data, start + 3 * k + 2 - c) as int;
            assert forall|px: int, py: int| in_square(x0, y0, s, px, py) implies #[trigger] after.image.channel(
                px,
                py,
                c,
            ) == v by {
                assert(in_frame(
                    before.image.width as int,
                    before.image.height as int,
                    px,
                    py,
                    c,
                ));
            }
            lemma_square_average_uniform(after.image, x0, y0, s as nat, c, v);
            assert(start + 3 * k + 2 - c == start + i);
        } else {
            assert forall|px: int, py: int| in_square(x0, y0, s, px, py) implies #[trigger] after.image.channel(
                px,
                py,
                c,
            ) == before.image.channel(px, py, c) by {
                assert(in_frame(
                    before.image.width as int,
                    before.image.height as int,
                    px,
                    py,
                    c,
                ));
            }
            lemma_square_average_agree(after.image, before.image, x0, y0, s as nat, c);
        }
    }
    assert(fa =~= rhs);
}

/// The bits that the blocks of a frame carry, in row-major block order; on
/// the final frame only the first `final_bit` of them.
pub fn read_bw(source: &EmbedSource, current_frame: i32, final_frame: i32, final_bit: i32) -> (bits:
    Vec<bool>)
    requires
        source.wf(),
        current_frame == final_frame ==> 0 <= final_bit <= source.blocks(),
    ensures
        bits@ == if current_frame == final_frame {
            frame_bits(*source).take(final_bit as int)
        } else {
            frame_bits(*source)
        },
        forall|k: int|
            0 <= k < bits@.len() ==> (#[trigger] bits@[k] <==> square_average(
                source.image,
                source.block_left(k),
                source.block_top(k),
                source.size as nat,
                2,
            ) >= 127),
{
    let (n, cols) = grid_of(source);
    let mut binary_data: Vec<bool> = Vec::new();
    let mut k: usize = 0;
    while k < n
        invariant
            source.wf(),
            n == source.blocks(),
            cols == source.cols(),
            0 <= k <= n,
            binary_data@ =~= frame_bits(*source).take(k as int),
        decreases n - k,
    {
        let (x, y) = block_origin(source, cols, k);
        proof {
            lemma_source_block(*source, k as int);
        }
        let rgb = get_pixel(source, x, y);
        proof {
            assert(rgb_channel(rgb@, 2) == rgb@[0]);
        }
        binary_data.push(rgb[0] >= 127);
        k = k + 1;
    }
    proof {
        assert(frame_bits(*source).take(n as int) =~= frame_bits(*source));
    }
    if current_frame == final_frame {
        binary_data.truncate(final_bit as usize);
    }
    proof {
        assert forall|k: int| 0 <= k < binary_data@.len() implies (#[trigger] binary_data@[k]
            <==> square_average(
            source.image,
            source.block_left(k),
            source.block_top(k),
            source.size as nat,
            2,
        ) >= 127) by {
            law_bit_threshold(*source, k);
        }
    }
    binary_data
}

/// A block reads as bit 1 exactly when the average red over its square is
/// at least 127, whatever that average is: a white block that compression
/// dimmed still reads as 1, a black one that it lightened still reads as 0.
pub proof fn law_bit_threshold(src: EmbedSource, k: int)
    requires
        src.wf(),
        0 <= k < src.blocks(),
    ensures
        frame_bits(src).len() == src.blocks(),
        frame_bits(src)[k] <==> square_average(
            src.image,
            src.block_left(k),
            src.block_top(k),
            src.size as nat,
            2,
        ) >= 127,
{
}

/// The bytes that the blocks of a frame carry (red, green, blue of each
/// block in row-major block order); on the final frame only the first
/// `final_byte` of them.
pub fn read_color(source: &EmbedSource, current_frame: i32, final_frame: i32, final_byte: i32) -> (bytes:
    Vec<u8>)
    requires
        source.wf(),
        current_frame == final_frame ==> 0 <= final_byte <= 3 * source.blocks(),
    ensures
        bytes@ == if current_frame == final_frame {
            frame_bytes(*source).take(final_byte as int)
        } else {
            frame_bytes(*source)
        },
{
    let (n, cols) = grid_of(source);
    let mut byte_data: Vec<u8> = Vec::new();
    let mut k: usize = 0;
    while k < n
        invariant
            source.wf(),
            n == source.blocks(),
            cols == source.cols(),
            0 <= k <= n,
            byte_data@ =~= frame_bytes(*source).take(3 * k),
        decreases n - k,
    {
        let (x, y) = block_origin(source, cols, k);
        proof {
            lemma_source_block(*source, k as int);
        }
        let rgb = get_pixel(source, x, y);
        proof {
            assert(rgb_channel(rgb@, 2) == rgb@[0]);
            assert(rgb_channel(rgb@, 1) == rgb@[1]);
            assert(rgb_channel(rgb@, 0) == rgb@[2]);
            let fb = frame_bytes(*source);
            assert((3 * k) / 3 == k && (3 * k) % 3 == 0);
            assert((3 * k + 1) / 3 == k && (3 * k + 1) % 3 == 1);
            assert((3 * k + 2) / 3 == k && (3 * k + 2) % 3 == 2);
        }
        byte_data.push(rgb[0]);
        byte_data.push(rgb[1]);
        byte_data.push(rgb[2]);
        k = k + 1;
    }
    proof {
        assert(frame_bytes(*source).take(3 * n) =~= frame_bytes(*source));
    }
    if current_frame == final_frame {
        byte_data.truncate(final_byte as usize);
    }
    byte_data
}


/// Block size of the instruction frame.
pub const INSTRUCTION_SIZE: i32 = 5;

/// Frame rate that the settings read from an instruction frame carry; the
/// instruction frame does not record one.
pub const READ_FPS: i32 = 1337;

/// The word that marks an output mode in the instruction frame.
pub open spec fn mode_word(mode: OutputMode) -> u32 {
    match mode {
        OutputMode::Color => u32::MAX,
        OutputMode::Binary => 0,
    }
}

/// The output mode that a word of the instruction frame marks.
pub open spec fn word_mode(word: u32) -> OutputMode {
    if word == u32::MAX {
        OutputMode::Color
    } else {
        OutputMode::Binary
    }
}

/// Number of items (bytes in colour mode, bits in binary mode) to embed.
pub open spec fn data_len(data: Data) -> int {
    match data.out_mode {
        OutputMode::Color => data.bytes@.len() as int,
        OutputMode::Binary => data.binary@.len() as int,
    }
}

/// Number of blocks in a frame made with `settings`.
pub open spec fn settings_blocks(settings: Settings) -> int {
    (settings.width / settings.size) * (settings.height / settings.size)
}

/// Items (bits in binary mode, bytes in colour mode) that one frame holds.
pub open spec fn frame_items(settings: Settings, out_mode: OutputMode) -> int {
    match out_mode {
        OutputMode::Color => 3 * settings_blocks(settings),
        OutputMode::Binary => settings_blocks(settings),
    }
}

/// Number of frames that `len` items take at `d` items per frame.
pub open spec fn frame_count(len: int, d: int) -> int {
    len / d + if len % d != 0 {
        1int
    } else {
        0int
    }
}

/// The frame (counted from 1) that the data ends on, as the instruction
/// frame records it; 0 when a frame has no block to hold data.
pub open spec fn final_frame_of(settings: Settings, out_mode: OutputMode, len: int) -> int {
    if frame_items(settings, out_mode) > 0 {
        frame_count(len, frame_items(settings, out_mode))
    } else {
        0
    }
}

/// How many of `len` items the last frame holds at `d` items per frame: a
/// full frame when the data ends exactly at a frame's end.
pub open spec fn last_frame_items(len: int, d: int) -> int {
    if len > 0 && len % d == 0 {
        d
    } else {
        len % d
    }
}

/// How many items the last frame holds, as the instruction frame records
/// it; 0 when a frame has no block to hold data.
pub open spec fn final_item_of(settings: Settings, out_mode: OutputMode, len: int) -> int {
    if frame_items(settings, out_mode) > 0 {
        last_frame_items(len, frame_items(settings, out_mode))
    } else {
        0
    }
}

/// The five words the instruction frame carries: output mode, final frame,
/// final position, block size, and an all-ones word.
pub open spec fn instruction_words(settings: Settings, data: Data) -> Seq<u32> {
    seq![
        mode_word(data.out_mode),
        final_frame_of(settings, data.out_mode, data_len(data)) as u32,
        final_item_of(settings, data.out_mode, data_len(data)) as u32,
        settings.size as u32,
        u32::MAX,
    ]
}

/// Settings that an instruction frame can be made for: a positive block
/// size and frames that fit in memory.
pub open spec fn instruction_fits(settings: Settings) -> bool {
    &&& settings.size > 0
    &&& settings.width >= 0
    &&& settings.height >= 0
    &&& settings.width * settings.height * 3 <= usize::MAX
}

/// Settings that data frames can be made with: those an instruction frame
/// can be made for, with at least one block per frame.
pub open spec fn frames_fit(settings: Settings) -> bool {
    &&& instruction_fits(settings)
    &&& settings_blocks(settings) > 0
}

/// Blocks of a frame made with `settings`, and the items one frame holds.
pub fn settings_block_count(settings: &Settings, out_mode: OutputMode) -> (res: (usize, usize))
    requires
        instruction_fits(*settings),
    ensures
        res.0 == settings_blocks(*settings),
        res.1 == frame_items(*settings, out_mode),
{
    proof {
        let s = settings.size as int;
        let w = settings.width as int;
        let h = settings.height as int;
        vstd::arithmetic::div_mod::lemma_div_is_ordered_by_denominator(w, 1, s);
        vstd::arithmetic::div_mod::lemma_div_is_ordered_by_denominator(h, 1, s);
        vstd::arithmetic::div_mod::lemma_div_pos_is_pos(w, s);
        vstd::arithmetic::div_mod::lemma_div_pos_is_pos(h, s);
        assert(3 * ((w / s) * (h / s)) <= w * h * 3) by (nonlinear_arith)
            requires
                0 <= w / s <= w,
                0 <= h / s <= h,
        ;
    }
    let cols = settings.width / settings.size;
    let rows = settings.height / settings.size;
    let n = (cols as usize) * (rows as usize);
    let d = match out_mode {
        OutputMode::Color => 3 * n,
        OutputMode::Binary => n,
    };
    (n, d)
}

/// The blocks of a frame carry the bits of `bits`, white for 1 and black
/// for 0, one per block from the first on; every other pixel is black.
pub open spec fn holds_bits(src: EmbedSource, bits: Seq<bool>) -> bool {
    forall|px: int, py: int, c: int|
        in_frame(src.image.width as int, src.image.height as int, px, py, c)
            ==> #[trigger] src.image.channel(px, py, c) == if src.in_grid(px, py)
            && src.block_at(px, py) < bits.len() {
            bw_level(bits[src.block_at(px, py)])
        } else {
            0
        }
}

/// What reading the instruction words gives: output mode, final frame,
/// final position and settings for frames `width` by `height`.
pub open spec fn decode_instructions(words: Seq<u32>, width: i32, height: i32) -> (
    OutputMode,
    i32,
    i32,
    Settings,
) {
    (
        word_mode(words[0]),
        words[1] as i32,
        words[2] as i32,
        Settings { size: words[3] as i32, fps: READ_FPS, width, height },
    )
}

/// Makes the instruction frame, always in binary mode with blocks of five
/// pixels: it records the output mode, the frame the data ends on, how many
/// items that frame holds, and the block size, each as a 32-bit word.
pub fn etch_instructions(settings: &Settings, data: &Data) -> (source: EmbedSource)
    requires
        instruction_fits(*settings),
    ensures
        source.wf(),
        source.size == INSTRUCTION_SIZE,
        source.frame_size == (Size { width: settings.width, height: settings.height }),
        holds_bits(source, u32s_to_bits(instruction_words(*settings, *data))),
{
    let instruction_size: i32 = INSTRUCTION_SIZE;
    let mut u32_instructions: Vec<u32> = Vec::new();
    let (_n, frame_data_size) = settings_block_count(settings, data.out_mode);
    let (mode, len) = match data.out_mode {
        OutputMode::Color => (u32::MAX, data.bytes.len()),
        OutputMode::Binary => (u32::MIN, data.binary.len()),
    };
    u32_instructions.push(mode);
    let (final_frame, final_byte) = if frame_data_size == 0 {
        (0usize, 0usize)
    } else {
        let mut final_frame = len / frame_data_size;
        let mut final_byte = len % frame_data_size;
        if final_byte != 0 {
            proof {
                if frame_data_size == 1 {
                    assert(len % 1 == 0);
                }
                if len == 0 {
                    vstd::arithmetic::div_mod::lemma_small_mod(0, frame_data_size as nat);
                }
                vstd::arithmetic::div_mod::lemma_div_is_strictly_smaller(
                    len as int,
                    frame_data_size as int,
                );
            }
            final_frame += 1;
        } else if len > 0 {
            final_byte = frame_data_size;
        }
        (final_frame, final_byte)
    };
    u32_instructions.push(final_frame as u32);
    u32_instructions.push(final_byte as u32);
    u32_instructions.push(settings.size as u32);
    u32_instructions.push(u32::MAX);
    proof {
        assert(u32_instructions@ =~= instruction_words(*settings, *data));
    }
    let ghost words = u32_instructions@;
    let instruction_data = rip_binary_u32(u32_instructions);
    proof {
        lemma_words_to_bits_len(words.map_values(|w: u32| w as int), 32);
    }
    let mut source = EmbedSource::new(instruction_size, settings.width, settings.height);
    let ghost before = source;
    let mut index: usize = 0;
    let _ = etch_bw(&mut source, &instruction_data, &mut index);
    proof {
        lemma_source_grid(before);
        let bits = instruction_data@;
        assert forall|px: int, py: int, c: int|
            in_frame(source.image.width as int, source.image.height as int, px, py, c)
                implies #[trigger] source.image.channel(px, py, c) == if source.in_grid(px, py)
            && source.block_at(px, py) < bits.len() {
            bw_level(bits[source.block_at(px, py)])
        } else {
            0
        } by {
            assert(before.image.channel(px, py, c) == 0);
            if before.in_grid(px, py) {
                assert(0 <= before.block_at(px, py) < before.blocks());
            }
        }
    }
    source
}

/// A frame whose blocks hold `bits` on black reads back as `bits`, then
/// zero bits for the blocks after them.
pub proof fn law_read_bits_on_black(src: EmbedSource, bits: Seq<bool>)
    requires
        src.wf(),
        holds_bits(src, bits),
    ensures
        frame_bits(src) == Seq::new(
            src.blocks() as nat,
            |k: int| k < bits.len() && bits[k],
        ),
{
    let n = src.blocks();
    lemma_source_grid(src);
    let fb = frame_bits(src);
    let rhs = Seq::new(n as nat, |k: int| k < bits.len() && bits[k]);
    assert forall|k: int| 0 <= k < n implies #[trigger] fb[k] == rhs[k] by {
        lemma_source_block(src, k);
        let x0 = src.block_left(k);
        let y0 = src.block_top(k);
        let v: int = if k < bits.len() {
            bw_level(bits[k]) as int
        } else {
            0
        };
        assert forall|px: int, py: int| in_square(x0, y0, src.size as int, px, py) implies #[trigger] src.image.channel(
            px,
            py,
            2,
        ) == v by {
            assert(in_frame(src.image.width as int, src.image.height as int, px, py, 2));
        }
        lemma_square_average_uniform(src.image, x0, y0, src.size as nat, 2, v);
    }
    assert(fb =~= rhs);
}

/// Reads the instruction frame: output mode, final frame, final position,
/// and settings with the recorded block size and the frame's dimensions.
pub fn read_instructions(source: &EmbedSource) -> (res: (OutputMode, i32, i32, Settings))
    requires
        source.wf(),
        source.blocks() >= 128,
    ensures
        res == decode_instructions(
            bits_to_u32s(frame_bits(*source)),
            source.frame_size.width,
            source.frame_size.height,
        ),
{
    let binary_data = read_bw(source, 0, 1, 0);
    let u32_data = translate_u32(binary_data);
    let out_mode = if u32_data[0] == u32::MAX {
        OutputMode::Color
    } else {
        OutputMode::Binary
    };
    let final_frame = u32_data[1] as i32;
    let final_byte = u32_data[2] as i32;
    let size = u32_data[3] as i32;
    let height = source.frame_size.height;
    let width = source.frame_size.width;
    let settings = Settings::new(size, READ_FPS, width, height);
    (out_mode, final_frame, final_byte, settings)
}

/// Reading the instruction frame made for `settings` and `data` gives back
/// the output mode, final frame, final position and block size that it
/// recorded, and the frame's dimensions, when the frame has room for the
/// first four words.
pub proof fn law_instructions_roundtrip(src: EmbedSource, settings: Settings, data: Data)
    requires
        src.wf(),
        instruction_fits(settings),
        src.frame_size == (Size { width: settings.width, height: settings.height }),
        holds_bits(src, u32s_to_bits(instruction_words(settings, data))),
        src.blocks() >= 128,
    ensures
        decode_instructions(bits_to_u32s(frame_bits(src)), src.frame_size.width, src.frame_size.height)
            == (
            data.out_mode,
            final_frame_of(settings, data.out_mode, data_len(data)) as u32 as i32,
            final_item_of(settings, data.out_mode, data_len(data)) as u32 as i32,
            Settings { size: settings.size, fps: READ_FPS, width: settings.width, height: settings.height },
        ),
{
    let words = instruction_words(settings, data);
    let ws = words.map_values(|w: u32| w as int);
    let bits = u32s_to_bits(words);
    lemma_words_to_bits_len(ws, 32);
    law_read_bits_on_black(src, bits);
    let fb = frame_bits(src);
    let read = bits_to_u32s(fb);
    lemma_two_pow_values();
    assert forall|k: int| 0 <= k < 4 implies #[trigger] read[k] == words[k] by {
        assert(fb.len() / 32 >= 4);
        lemma_words_to_bits_group(ws, 32, k);
        assert(fb.subrange(k * 32, k * 32 + 32) =~= bits.subrange(k * 32, k * 32 + 32));
        lemma_bits_value_of(ws[k] as nat, 32);
    }
    assert(read[0] == words[0]);
    assert(read[3] == words[3]);
}


/// Takes the bytes of a file in for embedding; an empty file is refused.
pub fn check_ripped(byte_data: Vec<u8>) -> (res: Result<Vec<u8>, String>)
    ensures
        res is Err <==> byte_data@.len() == 0,
        res matches Ok(bytes) ==> bytes@ == byte_data@,
        res matches Err(msg) ==> msg@
            == "Empty files cannot be embedded! File names are not retained, so it's pointless anyway"@,
{
    if byte_data.len() == 0 {
        return Err(
            "Empty files cannot be embedded! File names are not retained, so it's pointless anyway".to_string(),
        );
    }
    Ok(byte_data)
}

} // verus!
