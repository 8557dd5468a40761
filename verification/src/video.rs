//! The frames of a video: etching data frame after frame, dislodging it
//! frame after frame, and what the two do together.
use crate::bits::{bits_to_bytes, bits_to_u32s, law_bits_to_bytes_append, translate_u8, u32s_to_bits};
use crate::blocks::in_square;
use crate::embedsource::{in_frame, EmbedSource, Size};
use crate::etcher::{
    bw_level,
    bw_written,
    byte_or_zero,
    color_written,
    decode_instructions,
    etch_bw,
    etch_color,
    etched_bw,
    etched_color,
    final_frame_of,
    final_item_of,
    frame_bits,
    frame_bytes,
    frame_count,
    frame_items,
    frames_fit,
    holds_bits,
    instruction_words,
    last_frame_items,
    law_instructions_roundtrip,
    law_read_bits_on_black,
    lemma_source_block,
    lemma_source_grid,
    lemma_square_average_uniform,
    read_bw,
    read_color,
    settings_block_count,
    settings_blocks,
    INSTRUCTION_SIZE,
};
use crate::settings::{Data, OutputMode, Settings};
use vstd::prelude::*;

verus! {

/// The items that each frame carries when `data` is etched at `d` items
/// per frame: `d` per frame, the last frame the rest.
pub open spec fn frame_contents<A>(data: Seq<A>, d: int) -> Seq<Seq<A>> {
    Seq::new(
        frame_count(data.len() as int, d) as nat,
        |f: int|
            data.subrange(
                f * d,
                if f * d + d <= data.len() {
                    f * d + d
                } else {
                    data.len() as int
                },
            ),
    )
}

/// The blocks of a frame carry the colours that `bytes` give, three bytes
/// (red, green, blue) per block from the first on, a last block padded
/// with zeros; every other pixel is black.
pub open spec fn holds_colors(src: EmbedSource, bytes: Seq<u8>) -> bool {
    forall|px: int, py: int, c: int|
        in_frame(src.image.width as int, src.image.height as int, px, py, c)
            ==> #[trigger] src.image.channel(px, py, c) == if src.in_grid(px, py)
            && src.block_at(px, py) < (bytes.len() + 2) / 3 {
            byte_or_zero(bytes, 3 * src.block_at(px, py) + 2 - c)
        } else {
            0
        }
}

/// A data frame made with `settings`.
pub open spec fn frame_of(src: EmbedSource, settings: Settings) -> bool {
    &&& src.wf()
    &&& src.size == settings.size
    &&& src.frame_size == (Size { width: settings.width, height: settings.height })
}

/// Where the frame that starts at item `start` ends: `d` items on, or at
/// the end of the data.
pub open spec fn frame_end(start: int, d: int, len: int) -> int {
    if start + d <= len {
        start + d
    } else {
        len
    }
}

/// Facts on frame `f` (from 0) of `len` items at `d` items per frame: it
/// starts inside the data, the frames before the last are full, and the
/// last holds `last_frame_items` items.
pub proof fn lemma_frame_bounds(len: int, d: int, f: int)
    requires
        d > 0,
        len >= 0,
        0 <= f < frame_count(len, d),
    ensures
        f * d < len,
        0 <= f * d,
        f + 1 < frame_count(len, d) ==> f * d + d < len,
        f + 1 == frame_count(len, d) ==> f * d + d >= len && len - f * d == last_frame_items(
            len,
            d,
        ),
{
    vstd::arithmetic::div_mod::lemma_fundamental_div_mod(len, d);
    let q = len / d;
    let r = len % d;
    let cnt = frame_count(len, d);
    assert(0 <= f * d) by (nonlinear_arith)
        requires
            f >= 0,
            d > 0,
    ;
    assert(f * d < len) by (nonlinear_arith)
        requires
            len == d * q + r,
            0 <= r < d,
            cnt == q + if r != 0 {
                1int
            } else {
                0int
            },
            0 <= f < cnt,
            d > 0,
    ;
    if f + 1 < cnt {
        assert(f * d + d < len) by (nonlinear_arith)
            requires
                len == d * q + r,
                0 <= r < d,
                cnt == q + if r != 0 {
                    1int
                } else {
                    0int
                },
                f + 1 < cnt,
                f >= 0,
                d > 0,
        ;
    }
    if f + 1 == cnt {
        if r != 0 {
            assert(f == q);
            assert(f * d == d * q) by (nonlinear_arith)
                requires
                    f == q,
            ;
        } else {
            assert(f + 1 == q);
            assert(f * d + d == d * q) by (nonlinear_arith)
                requires
                    f + 1 == q,
            ;
        }
    }
}

/// Frame `f` starts inside the data: it exists, and it is the last one
/// exactly when the data ends within it.
pub proof fn lemma_frame_count_step(len: int, d: int, f: int)
    requires
        d > 0,
        0 <= f,
        f * d < len,
    ensures
        f < frame_count(len, d),
        f * d + d >= len ==> frame_count(len, d) == f + 1,
        f * d + d < len ==> f + 1 < frame_count(len, d),
{
    vstd::arithmetic::div_mod::lemma_fundamental_div_mod(len, d);
    let q = len / d;
    let r = len % d;
    if f * d + d >= len {
        if r != 0 {
            assert(q == f) by (nonlinear_arith)
                requires
                    len == d * q + r,
                    0 < r < d,
                    f * d < len,
                    f * d + d >= len,
                    d > 0,
            ;
        } else {
            assert(q == f + 1) by (nonlinear_arith)
                requires
                    len == d * q + r,
                    r == 0,
                    f * d < len,
                    f * d + d >= len,
                    d > 0,
            ;
        }
    } else {
        assert(q >= f + 1) by (nonlinear_arith)
            requires
                len == d * q + r,
                0 <= r < d,
                f * d + d < len,
                d > 0,
        ;
        if q == f + 1 {
            assert(r > 0) by (nonlinear_arith)
                requires
                    len == d * q + r,
                    q == f + 1,
                    f * d + d < len,
            ;
        }
    }
}

proof fn lemma_black_etched_bw(
    before: EmbedSource,
    after: EmbedSource,
    data: Seq<bool>,
    start: int,
    m: int,
)
    requires
        before.wf(),
        forall|x: int, y: int, c: int|
            in_frame(before.image.width as int, before.image.height as int, x, y, c)
                ==> #[trigger] before.image.channel(x, y, c) == 0,
        etched_bw(before, after, data, start, m),
        0 <= m <= before.blocks(),
        0 <= start,
        start + m <= data.len(),
    ensures
        holds_bits(after, data.subrange(start, start + m)),
{
    lemma_source_grid(before);
    let bits = data.subrange(start, start + m);
    assert forall|px: int, py: int, c: int|
        in_frame(after.image.width as int, after.image.height as int, px, py, c)
            implies #[trigger] after.image.channel(px, py, c) == if after.in_grid(px, py)
        && after.block_at(px, py) < bits.len() {
        bw_level(bits[after.block_at(px, py)])
    } else {
        0
    } by {
        assert(before.image.channel(px, py, c) == 0);
    }
}

proof fn lemma_black_etched_color(
    before: EmbedSource,
    after: EmbedSource,
    data: Seq<u8>,
    start: int,
)
    requires
        before.wf(),
        before.blocks() > 0,
        forall|x: int, y: int, c: int|
            in_frame(before.image.width as int, before.image.height as int, x, y, c)
                ==> #[trigger] before.image.channel(x, y, c) == 0,
        etched_color(
            before,
            after,
            data,
            start,
            color_written(before.blocks(), start, data.len() as int),
        ),
        0 <= start < data.len(),
    ensures
        holds_colors(
            after,
            data.subrange(start, frame_end(start, 3 * before.blocks(), data.len() as int)),
        ),
{
    lemma_source_grid(before);
    let n = before.blocks();
    let len = data.len() as int;
    let m = color_written(n, start, len);
    let e = frame_end(start, 3 * n, len);
    let bytes = data.subrange(start, e);
    assert((bytes.len() + 2) / 3 == m) by {
        if !(n > 0 && start + 3 * n >= len) {
            vstd::arithmetic::div_mod::lemma_fundamental_div_mod_converse(3 * n + 2, 3, n, 2);
        }
    }
    assert forall|px: int, py: int, c: int|
        in_frame(after.image.width as int, after.image.height as int, px, py, c)
            implies #[trigger] after.image.channel(px, py, c) == if after.in_grid(px, py)
        && after.block_at(px, py) < (bytes.len() + 2) / 3 {
        byte_or_zero(bytes, 3 * after.block_at(px, py) + 2 - c)
    } else {
        0
    } by {
        assert(before.image.channel(px, py, c) == 0);
        if before.in_grid(px, py) {
            assert(0 <= before.block_at(px, py) < n);
        }
    }
}

/// Etches the next frame of binary data, from bit `*index` on: a new black
/// frame with as many bits as fit. Says whether the data is used up.
pub fn etch_bw_frame(settings: &Settings, data: &Vec<bool>, index: &mut usize) -> (res: (
    EmbedSource,
    bool,
))
    requires
        frames_fit(*settings),
        *old(index) < data@.len(),
    ensures
        frame_of(res.0, *settings),
        holds_bits(
            res.0,
            data@.subrange(
                *old(index) as int,
                frame_end(*old(index) as int, settings_blocks(*settings), data@.len() as int),
            ),
        ),
        res.1 == (*old(index) + settings_blocks(*settings) >= data@.len()),
        !res.1 ==> *final(index) == *old(index) + settings_blocks(*settings),
        res.1 ==> *final(index) == data@.len(),
{
    let mut source = EmbedSource::new(settings.size, settings.width, settings.height);
    let ghost before = source;
    let ghost start = *index as int;
    let res = etch_bw(&mut source, data, index);
    proof {
        lemma_source_grid(before);
        let m = bw_written(before.blocks(), start, data@.len() as int);
        lemma_black_etched_bw(before, source, data@, start, m);
    }
    (source, res.is_err())
}

/// Etches the next frame of colour data, from byte `*index` on: a new
/// black frame with as many bytes as fit, three per block. Says whether
/// the data is used up.
pub fn etch_color_frame(settings: &Settings, data: &Vec<u8>, index: &mut usize) -> (res: (
    EmbedSource,
    bool,
))
    requires
        frames_fit(*settings),
        *old(index) < data@.len(),
        data@.len() + 3 <= usize::MAX,
    ensures
        frame_of(res.0, *settings),
        holds_colors(
            res.0,
            data@.subrange(
                *old(index) as int,
                frame_end(*old(index) as int, 3 * settings_blocks(*settings), data@.len() as int),
            ),
        ),
        res.1 == (*old(index) + 3 * settings_blocks(*settings) >= data@.len()),
        !res.1 ==> *final(index) == *old(index) + 3 * settings_blocks(*settings),
        res.1 ==> *final(index) == *old(index) + 3 * ((data@.len() - *old(index) + 2) / 3),
{
    let mut source = EmbedSource::new(settings.size, settings.width, settings.height);
    let ghost before = source;
    let ghost start = *index as int;
    let res = etch_color(&mut source, data, index);
    proof {
        lemma_source_grid(before);
        lemma_black_etched_color(before, source, data@, start);
    }
    (source, res.is_err())
}

/// Etches all of `data` in binary mode, a new frame at a time, until the
/// last bit is in; every frame is full but the last.
pub fn etch_bw_frames(settings: &Settings, data: &Vec<bool>) -> (frames: Vec<EmbedSource>)
    requires
        frames_fit(*settings),
        data@.len() > 0,
    ensures
        frames@.len() == frame_count(data@.len() as int, settings_blocks(*settings)),
        forall|f: int|
            0 <= f < frames@.len() ==> frame_of(#[trigger] frames@[f], *settings) && holds_bits(
                frames@[f],
                frame_contents(data@, settings_blocks(*settings))[f],
            ),
{
    let ghost n = settings_blocks(*settings);
    let ghost len = data@.len() as int;
    let mut frames: Vec<EmbedSource> = Vec::new();
    let mut index: usize = 0;
    let mut done = false;
    proof {
        assert(frames@.len() * n == 0) by (nonlinear_arith)
            requires
                frames@.len() == 0,
        ;
    }
    while !done
        invariant
            frames_fit(*settings),
            n == settings_blocks(*settings),
            len == data@.len(),
            len > 0,
            !done ==> index == frames@.len() * n && index < len,
            done ==> frames@.len() == frame_count(len, n),
            forall|f: int|
                0 <= f < frames@.len() ==> frame_of(#[trigger] frames@[f], *settings)
                    && holds_bits(frames@[f], frame_contents(data@, n)[f]),
        decreases if done {
            0int
        } else {
            len - index + 1
        },
    {
        let ghost f = frames@.len() as int;
        let ghost start = index as int;
        let (source, finished) = etch_bw_frame(settings, data, &mut index);
        proof {
            assert(start == f * n);
            lemma_frame_count_step(len, n, f);
            assert(frame_contents(data@, n)[f] =~= data@.subrange(
                start,
                frame_end(start, n, len),
            ));
        }
        frames.push(source);
        if finished {
            done = true;
        } else {
            proof {
                assert(index == (f + 1) * n) by (nonlinear_arith)
                    requires
                        index == start + n,
                        start == f * n,
                ;
            }
        }
    }
    frames
}

/// Etches all of `data` in colour mode, a new frame at a time, until the
/// last byte is in; every frame is full but the last.
pub fn etch_color_frames(settings: &Settings, data: &Vec<u8>) -> (frames: Vec<EmbedSource>)
    requires
        frames_fit(*settings),
        data@.len() > 0,
        data@.len() + 3 <= usize::MAX,
    ensures
        frames@.len() == frame_count(data@.len() as int, 3 * settings_blocks(*settings)),
        forall|f: int|
            0 <= f < frames@.len() ==> frame_of(#[trigger] frames@[f], *settings)
                && holds_colors(
                frames@[f],
                frame_contents(data@, 3 * settings_blocks(*settings))[f],
            ),
{
    let ghost d = 3 * settings_blocks(*settings);
    let ghost len = data@.len() as int;
    let mut frames: Vec<EmbedSource> = Vec::new();
    let mut index: usize = 0;
    let mut done = false;
    proof {
        assert(frames@.len() * d == 0) by (nonlinear_arith)
            requires
                frames@.len() == 0,
        ;
    }
    while !done
        invariant
            frames_fit(*settings),
            d == 3 * settings_blocks(*settings),
            len == data@.len(),
            len > 0,
            len + 3 <= usize::MAX,
            !done ==> index == frames@.len() * d && index < len,
            done ==> frames@.len() == frame_count(len, d),
            forall|f: int|
                0 <= f < frames@.len() ==> frame_of(#[trigger] frames@[f], *settings)
                    && holds_colors(frames@[f], frame_contents(data@, d)[f]),
        decreases if done {
            0int
        } else {
            len - index + 1
        },
    {
        let ghost f = frames@.len() as int;
        let ghost start = index as int;
        let (source, finished) = etch_color_frame(settings, data, &mut index);
        proof {
            assert(start == f * d);
            lemma_frame_count_step(len, d, f);
            assert(frame_contents(data@, d)[f] =~= data@.subrange(
                start,
                frame_end(start, d, len),
            ));
        }
        frames.push(source);
        if finished {
            done = true;
        } else {
            proof {
                assert(index == (f + 1) * d) by (nonlinear_arith)
                    requires
                        index == start + d,
                        start == f * d,
                ;
            }
        }
    }
    frames
}

/// What is read of frame `current`: on the final frame only the first
/// `final_item` items count.
pub open spec fn take_if_final<A>(
    items: Seq<A>,
    current: i32,
    final_frame: i32,
    final_item: i32,
) -> Seq<A> {
    if current == final_frame {
        items.take(final_item as int)
    } else {
        items
    }
}

/// What a frame that holds `bits` on black reads as at `n` blocks.
pub open spec fn padded_bits(bits: Seq<bool>, n: int) -> Seq<bool> {
    Seq::new(n as nat, |k: int| k < bits.len() && bits[k])
}

/// What a frame that holds `bytes` on black reads as at `n` blocks.
pub open spec fn padded_bytes(bytes: Seq<u8>, n: int) -> Seq<u8> {
    Seq::new((3 * n) as nat, |i: int| byte_or_zero(bytes, i))
}

/// The bytes that dislodging one frame gives.
pub open spec fn dislodge_spec(
    src: EmbedSource,
    out_mode: OutputMode,
    current_frame: i32,
    final_frame: i32,
    final_item: i32,
) -> Seq<u8> {
    match out_mode {
        OutputMode::Color => take_if_final(
            frame_bytes(src),
            current_frame,
            final_frame,
            final_item,
        ),
        OutputMode::Binary => bits_to_bytes(
            take_if_final(frame_bits(src), current_frame, final_frame, final_item),
        ),
    }
}

/// Reads the bytes out of data frame number `current_frame` (counted from
/// 1 after the instruction frame): the average colours of its blocks in
/// colour mode, the bytes its block bits make in binary mode; on the final
/// frame only its first `final_item` items count.
pub fn dislodge_frame(
    source: &EmbedSource,
    out_mode: OutputMode,
    current_frame: i32,
    final_frame: i32,
    final_item: i32,
) -> (bytes: Vec<u8>)
    requires
        source.wf(),
        current_frame == final_frame ==> 0 <= final_item <= match out_mode {
            OutputMode::Color => 3 * source.blocks(),
            OutputMode::Binary => source.blocks(),
        },
    ensures
        bytes@ == dislodge_spec(*source, out_mode, current_frame, final_frame, final_item),
{
    match out_mode {
        OutputMode::Color => read_color(source, current_frame, final_frame, final_item),
        OutputMode::Binary => {
            let binary_data = read_bw(source, current_frame, final_frame, final_item);
            translate_u8(binary_data)
        },
    }
}

/// Items handed to each of `threads` workers: a whole number of frames,
/// enough that `threads` chunks cover `length` items.
pub open spec fn chunk_items(settings: Settings, out_mode: OutputMode, length: int, threads: int) -> int {
    (length / frame_items(settings, out_mode) / threads + 1) * frame_items(settings, out_mode)
}

/// The number of items to hand to each worker that etches frames, so that
/// every chunk but the last fills whole frames.
pub fn chunk_data_size(settings: &Settings, out_mode: OutputMode, length: usize, threads: usize) -> (size:
    usize)
    requires
        frames_fit(*settings),
        threads > 0,
        length + frame_items(*settings, out_mode) <= usize::MAX,
    ensures
        size == chunk_items(*settings, out_mode, length as int, threads as int),
        size > 0,
        (size as int) % frame_items(*settings, out_mode) == 0,
{
    let (_n, frame_data_size) = settings_block_count(settings, out_mode);
    let frame_length = length / frame_data_size;
    let chunk_frame_size = (frame_length / threads) + 1;
    proof {
        let d = frame_data_size as int;
        let q = frame_length as int / threads as int;
        vstd::arithmetic::div_mod::lemma_div_is_ordered_by_denominator(
            frame_length as int,
            1,
            threads as int,
        );
        vstd::arithmetic::div_mod::lemma_fundamental_div_mod(length as int, d);
        assert((q + 1) * d <= length + d) by (nonlinear_arith)
            requires
                q <= frame_length,
                frame_length == length as int / d,
                length == d * (length as int / d) + length as int % d,
                0 <= length as int % d,
                d > 0,
                q >= 0,
        ;
        vstd::arithmetic::div_mod::lemma_mod_multiples_basic(q + 1, d);
        assert((q + 1) * d > 0) by (nonlinear_arith)
            requires
                q >= 0,
                d > 0,
        ;
    }
    chunk_frame_size * frame_data_size
}

/// What dislodging binary frames numbered 1, 2, ... that hold `contents`
/// on black gives, frame after frame.
pub open spec fn dislodge_bw_video(
    contents: Seq<Seq<bool>>,
    n: int,
    final_frame: i32,
    final_item: i32,
) -> Seq<u8>
    decreases contents.len(),
{
    if contents.len() == 0 {
        Seq::empty()
    } else {
        dislodge_bw_video(contents.drop_last(), n, final_frame, final_item) + bits_to_bytes(
            take_if_final(
                padded_bits(contents.last(), n),
                contents.len() as i32,
                final_frame,
                final_item,
            ),
        )
    }
}

/// What dislodging colour frames numbered 1, 2, ... that hold `contents`
/// on black gives, frame after frame.
pub open spec fn dislodge_color_video(
    contents: Seq<Seq<u8>>,
    n: int,
    final_frame: i32,
    final_item: i32,
) -> Seq<u8>
    decreases contents.len(),
{
    if contents.len() == 0 {
        Seq::empty()
    } else {
        dislodge_color_video(contents.drop_last(), n, final_frame, final_item) + take_if_final(
            padded_bytes(contents.last(), n),
            contents.len() as i32,
            final_frame,
            final_item,
        )
    }
}

/// The first `j` frames carry the first `j * d` items (or all of them).
proof fn lemma_contents_prefix<A>(data: Seq<A>, d: int, j: int)
    requires
        d > 0,
        0 <= j <= frame_count(data.len() as int, d),
    ensures
        frame_contents(data, d).take(j).flatten() == data.subrange(
            0,
            frame_end(0, j * d, data.len() as int),
        ),
    decreases j,
{
    let contents = frame_contents(data, d);
    let len = data.len() as int;
    if j == 0 {
        assert(contents.take(0) =~= Seq::<Seq<A>>::empty());
        assert(j * d == 0) by (nonlinear_arith)
            requires
                j == 0,
        ;
        assert(data.subrange(0, 0) =~= Seq::<A>::empty());
    } else {
        lemma_contents_prefix(data, d, j - 1);
        lemma_frame_bounds(len, d, j - 1);
        assert(contents.take(j) =~= contents.take(j - 1).push(contents[j - 1]));
        contents.take(j - 1).lemma_flatten_push(contents[j - 1]);
        assert((j - 1) * d + d == j * d) by (nonlinear_arith);
        assert(contents.take(j).flatten() =~= data.subrange(0, frame_end(0, j * d, len)));
    }
}

/// All frames together carry the data.
pub proof fn law_contents_flatten<A>(data: Seq<A>, d: int)
    requires
        d > 0,
    ensures
        frame_contents(data, d).flatten() == data,
{
    let len = data.len() as int;
    let cnt = frame_count(len, d);
    let contents = frame_contents(data, d);
    lemma_contents_prefix(data, d, cnt);
    assert(contents.take(cnt) =~= contents);
    vstd::arithmetic::div_mod::lemma_fundamental_div_mod(len, d);
    let q = len / d;
    let r = len % d;
    assert(cnt * d >= len) by (nonlinear_arith)
        requires
            len == d * q + r,
            0 <= r < d,
            cnt == q + if r != 0 {
                1int
            } else {
                0int
            },
    ;
    assert(data.subrange(0, len) =~= data);
}

proof fn lemma_bw_video_flat(contents: Seq<Seq<bool>>, n: int, ff: i32, fi: i32)
    requires
        forall|f: int|
            0 <= f < contents.len() ==> (#[trigger] contents[f]).len() % 8 == 0 && take_if_final(
                padded_bits(contents[f], n),
                (f + 1) as i32,
                ff,
                fi,
            ) == contents[f],
    ensures
        dislodge_bw_video(contents, n, ff, fi) == bits_to_bytes(contents.flatten()),
        contents.flatten().len() % 8 == 0,
    decreases contents.len(),
{
    if contents.len() == 0 {
        assert(bits_to_bytes(Seq::<bool>::empty()) =~= Seq::<u8>::empty());
    } else {
        let front = contents.drop_last();
        assert forall|f: int| 0 <= f < front.len() implies (#[trigger] front[f]).len() % 8 == 0
            && take_if_final(padded_bits(front[f], n), (f + 1) as i32, ff, fi) == front[f] by {
            assert(front[f] == contents[f]);
        }
        lemma_bw_video_flat(front, n, ff, fi);
        let last = contents.last();
        assert(contents.last() == contents[contents.len() - 1]);
        assert(front.push(last) =~= contents);
        front.lemma_flatten_push(last);
        law_bits_to_bytes_append(front.flatten(), last);
        vstd::arithmetic::div_mod::lemma_mod_adds(
            front.flatten().len() as int,
            last.len() as int,
            8,
        );
    }
}

proof fn lemma_color_video_flat(contents: Seq<Seq<u8>>, n: int, ff: i32, fi: i32)
    requires
        forall|f: int|
            0 <= f < contents.len() ==> take_if_final(
                padded_bytes(#[trigger] contents[f], n),
                (f + 1) as i32,
                ff,
                fi,
            ) == contents[f],
    ensures
        dislodge_color_video(contents, n, ff, fi) == contents.flatten(),
    decreases contents.len(),
{
    if contents.len() > 0 {
        let front = contents.drop_last();
        assert forall|f: int| 0 <= f < front.len() implies take_if_final(
            padded_bytes(#[trigger] front[f], n),
            (f + 1) as i32,
            ff,
            fi,
        ) == front[f] by {
            assert(front[f] == contents[f]);
        }
        lemma_color_video_flat(front, n, ff, fi);
        let last = contents.last();
        assert(contents.last() == contents[contents.len() - 1]);
        assert(front.push(last) =~= contents);
        front.lemma_flatten_push(last);
    }
}

/// Each frame of etched data, read back on black and cut on the final
/// frame that the instruction frame records, gives back what it holds.
proof fn lemma_frame_read_back(len: int, d: int, f: int, piece_len: int, ff: i32, fi: i32)
    requires
        d > 0,
        len > 0,
        0 <= f < frame_count(len, d),
        frame_count(len, d) <= i32::MAX,
        ff as int == frame_count(len, d),
        fi as int == last_frame_items(len, d),
        piece_len == frame_end(f * d, d, len) - f * d,
    ensures
        ((f + 1) as i32 == ff) ==> piece_len == fi,
        ((f + 1) as i32 != ff) ==> piece_len == d,
        0 < piece_len <= d,
{
    lemma_frame_bounds(len, d, f);
    assert(((f + 1) as i32) as int == f + 1);
}

/// Dislodging, frame after frame, the frames that binary data was etched
/// into gives back the bytes of that data, with the final frame and the
/// final frame's bit count read back from the instruction frame. This holds
/// when a frame holds whole bytes or the data fits in one frame, the data
/// is whole bytes, and the frame numbers and counts fit in an `i32`.
pub proof fn law_embed_dislodge_bw(settings: Settings, data: Seq<bool>)
    requires
        frames_fit(settings),
        settings_blocks(settings) % 8 == 0 || data.len() <= settings_blocks(settings),
        data.len() % 8 == 0,
        final_frame_of(settings, OutputMode::Binary, data.len() as int) <= i32::MAX,
        settings_blocks(settings) <= i32::MAX,
    ensures
        dislodge_bw_video(
            frame_contents(data, settings_blocks(settings)),
            settings_blocks(settings),
            final_frame_of(settings, OutputMode::Binary, data.len() as int) as u32 as i32,
            final_item_of(settings, OutputMode::Binary, data.len() as int) as u32 as i32,
        ) == bits_to_bytes(data),
{
    let n = settings_blocks(settings);
    let len = data.len() as int;
    let cnt = frame_count(len, n);
    let ff_int = final_frame_of(settings, OutputMode::Binary, len);
    let fi_int = final_item_of(settings, OutputMode::Binary, len);
    vstd::arithmetic::div_mod::lemma_fundamental_div_mod(len, n);
    vstd::arithmetic::div_mod::lemma_div_pos_is_pos(len, n);
    assert(0 <= fi_int <= n);
    let ff = ff_int as u32 as i32;
    let fi = fi_int as u32 as i32;
    assert(ff == ff_int);
    assert(fi == fi_int);
    let contents = frame_contents(data, n);
    assert forall|f: int| 0 <= f < contents.len() implies (#[trigger] contents[f]).len() % 8 == 0
        && take_if_final(padded_bits(contents[f], n), (f + 1) as i32, ff, fi) == contents[f] by {
        lemma_frame_bounds(len, n, f);
        let piece = contents[f];
        lemma_frame_read_back(len, n, f, piece.len() as int, ff, fi);
        if (f + 1) as i32 == ff {
            assert(padded_bits(piece, n).take(fi as int) =~= piece);
        } else {
            assert(padded_bits(piece, n) =~= piece);
        }
        if n % 8 == 0 {
            vstd::arithmetic::div_mod::lemma_fundamental_div_mod(n, 8);
            let t = n / 8;
            assert(f * n == (f * t) * 8) by (nonlinear_arith)
                requires
                    n == 8 * t,
            ;
            vstd::arithmetic::div_mod::lemma_mod_multiples_basic(f * t, 8);
            if f * n + n <= len {
                assert(piece.len() == n);
            } else {
                vstd::arithmetic::div_mod::lemma_sub_mod_noop(len, f * n, 8);
            }
        } else {
            assert(f == 0) by (nonlinear_arith)
                requires
                    f * n < len,
                    len <= n,
                    f >= 0,
                    n > 0,
            ;
            assert(piece.len() == len);
        }
    }
    lemma_bw_video_flat(contents, n, ff, fi);
    law_contents_flatten(data, n);
}

/// Dislodging, frame after frame, the frames that bytes were etched into in
/// colour gives back those bytes, with the final frame and the final
/// frame's byte count read back from the instruction frame, when the frame
/// numbers and counts fit in an `i32`.
pub proof fn law_embed_dislodge_color(settings: Settings, data: Seq<u8>)
    requires
        frames_fit(settings),
        final_frame_of(settings, OutputMode::Color, data.len() as int) <= i32::MAX,
        3 * settings_blocks(settings) <= i32::MAX,
    ensures
        dislodge_color_video(
            frame_contents(data, 3 * settings_blocks(settings)),
            settings_blocks(settings),
            final_frame_of(settings, OutputMode::Color, data.len() as int) as u32 as i32,
            final_item_of(settings, OutputMode::Color, data.len() as int) as u32 as i32,
        ) == data,
{
    let n = settings_blocks(settings);
    let d = 3 * n;
    let len = data.len() as int;
    let ff_int = final_frame_of(settings, OutputMode::Color, len);
    let fi_int = final_item_of(settings, OutputMode::Color, len);
    vstd::arithmetic::div_mod::lemma_fundamental_div_mod(len, d);
    vstd::arithmetic::div_mod::lemma_div_pos_is_pos(len, d);
    assert(0 <= fi_int <= d);
    let ff = ff_int as u32 as i32;
    let fi = fi_int as u32 as i32;
    assert(ff == ff_int);
    assert(fi == fi_int);
    let contents = frame_contents(data, d);
    assert forall|f: int| 0 <= f < contents.len() implies take_if_final(
        padded_bytes(#[trigger] contents[f], n),
        (f + 1) as i32,
        ff,
        fi,
    ) == contents[f] by {
        let piece = contents[f];
        lemma_frame_bounds(len, d, f);
        lemma_frame_read_back(len, d, f, piece.len() as int, ff, fi);
        if (f + 1) as i32 == ff {
            assert(padded_bytes(piece, n).take(fi as int) =~= piece);
        } else {
            assert(padded_bytes(piece, n) =~= piece);
        }
    }
    lemma_color_video_flat(contents, n, ff, fi);
    law_contents_flatten(data, d);
}

/// Etching data in chunks of whole frames, each chunk from its start, gives
/// the same frames as etching it all at once.
pub proof fn law_chunks<A>(data: Seq<A>, d: int, c: int)
    requires
        d > 0,
        0 < c < data.len(),
        c % d == 0,
    ensures
        frame_contents(data, d) == frame_contents(data.take(c), d) + frame_contents(
            data.skip(c),
            d,
        ),
{
    let len = data.len() as int;
    let j = c / d;
    vstd::arithmetic::div_mod::lemma_fundamental_div_mod(c, d);
    assert(c == j * d) by (nonlinear_arith)
        requires
            c == d * j + c % d,
            c % d == 0,
    ;
    let whole = frame_contents(data, d);
    let front = frame_contents(data.take(c), d);
    let back = frame_contents(data.skip(c), d);
    assert(front.len() == j) by {
        vstd::arithmetic::div_mod::lemma_fundamental_div_mod_converse(c, d, j, 0);
    }
    assert(whole.len() == j + back.len()) by {
        vstd::arithmetic::div_mod::lemma_fundamental_div_mod(len - c, d);
        let q = (len - c) / d;
        let r = (len - c) % d;
        assert(len == (q + j) * d + r) by (nonlinear_arith)
            requires
                len - c == d * q + r,
                c == j * d,
        ;
        vstd::arithmetic::div_mod::lemma_fundamental_div_mod_converse(len, d, q + j, r);
    }
    let rhs = front + back;
    assert forall|f: int| 0 <= f < whole.len() implies #[trigger] whole[f] == rhs[f] by {
        if f < j {
            assert(f * d + d <= c) by (nonlinear_arith)
                requires
                    f + 1 <= j,
                    c == j * d,
                    d > 0,
            ;
            assert(0 <= f * d) by (nonlinear_arith)
                requires
                    f >= 0,
                    d > 0,
            ;
            assert(whole[f] =~= front[f]);
        } else {
            let g = f - j;
            assert(f * d == c + g * d) by (nonlinear_arith)
                requires
                    g == f - j,
                    c == j * d,
            ;
            let sk = data.skip(c);
            assert(sk.len() == len - c);
            lemma_frame_bounds(len - c, d, g);
            let e1 = frame_end(f * d, d, len);
            let e2 = frame_end(g * d, d, sk.len() as int);
            assert(e1 == c + e2);
            assert(whole[f] == data.subrange(f * d, e1));
            assert(back[g] == sk.subrange(g * d, e2));
            assert(data.subrange(f * d, e1) =~= sk.subrange(g * d, e2));
        }
    }
    assert(whole =~= rhs);
}

/// The frames that workers etch when the data is cut into chunks of `c`
/// items (the last chunk the rest), one chunk after the other.
pub open spec fn chunk_frames<A>(data: Seq<A>, c: int, d: int) -> Seq<Seq<A>>
    decreases data.len(),
{
    if c <= 0 || data.len() <= c {
        frame_contents(data, d)
    } else {
        frame_contents(data.take(c), d) + chunk_frames(data.skip(c), c, d)
    }
}

/// However the data is cut into chunks of whole frames (as `chunk_data_size`
/// cuts it for any number of workers), the chunks' frames one after the
/// other are the frames of the whole data.
pub proof fn law_chunked_frames<A>(data: Seq<A>, c: int, d: int)
    requires
        d > 0,
        c > 0,
        c % d == 0,
    ensures
        chunk_frames(data, c, d) == frame_contents(data, d),
    decreases data.len(),
{
    if data.len() > c {
        law_chunked_frames(data.skip(c), c, d);
        law_chunks(data, d, c);
    }
}


/// Whatever the number of workers, the frames they etch from the chunks
/// that `chunk_items` gives are the frames of the whole data: the thread
/// count only changes how the work is split.
pub proof fn law_thread_count_same_frames<A>(
    settings: Settings,
    out_mode: OutputMode,
    data: Seq<A>,
    threads1: int,
    threads2: int,
)
    requires
        frames_fit(settings),
        threads1 > 0,
        threads2 > 0,
    ensures
        chunk_frames(
            data,
            chunk_items(settings, out_mode, data.len() as int, threads1),
            frame_items(settings, out_mode),
        ) == chunk_frames(
            data,
            chunk_items(settings, out_mode, data.len() as int, threads2),
            frame_items(settings, out_mode),
        ),
        chunk_frames(
            data,
            chunk_items(settings, out_mode, data.len() as int, threads1),
            frame_items(settings, out_mode),
        ) == frame_contents(data, frame_items(settings, out_mode)),
{
    let d = frame_items(settings, out_mode);
    lemma_chunk_items_whole_frames(settings, out_mode, data.len() as int, threads1);
    lemma_chunk_items_whole_frames(settings, out_mode, data.len() as int, threads2);
    law_chunked_frames(data, chunk_items(settings, out_mode, data.len() as int, threads1), d);
    law_chunked_frames(data, chunk_items(settings, out_mode, data.len() as int, threads2), d);
}

/// The chunks that `chunk_items` gives are a positive whole number of
/// frames.
proof fn lemma_chunk_items_whole_frames(settings: Settings, out_mode: OutputMode, length: int, threads: int)
    requires
        frames_fit(settings),
        threads > 0,
        length >= 0,
    ensures
        frame_items(settings, out_mode) > 0,
        chunk_items(settings, out_mode, length, threads) > 0,
        chunk_items(settings, out_mode, length, threads) % frame_items(settings, out_mode) == 0,
{
    let d = frame_items(settings, out_mode);
    assert(d > 0);
    vstd::arithmetic::div_mod::lemma_div_pos_is_pos(length, d);
    vstd::arithmetic::div_mod::lemma_div_pos_is_pos(length / d, threads);
    let q = length / d / threads;
    vstd::arithmetic::div_mod::lemma_mod_multiples_basic(q + 1, d);
    assert((q + 1) * d > 0) by (nonlinear_arith)
        requires
            q >= 0,
            d > 0,
    ;
}

/// A frame whose blocks hold `bytes` on black reads back as `bytes`, then
/// zero bytes for the rest of its blocks.
pub proof fn law_read_colors_on_black(src: EmbedSource, bytes: Seq<u8>)
    requires
        src.wf(),
        holds_colors(src, bytes),
    ensures
        frame_bytes(src) == padded_bytes(bytes, src.blocks()),
{
    let n = src.blocks();
    lemma_source_grid(src);
    let fb = frame_bytes(src);
    let rhs = padded_bytes(bytes, n);
    assert forall|i: int| 0 <= i < 3 * n implies #[trigger] fb[i] == rhs[i] by {
        let k = i / 3;
        let c = 2 - i % 3;
        vstd::arithmetic::div_mod::lemma_fundamental_div_mod(i, 3);
        assert(0 <= k < n);
        lemma_source_block(src, k);
        let x0 = src.block_left(k);
        let y0 = src.block_top(k);
        assert(3 * k + 2 - c == i);
        let v: int = if k < (bytes.len() + 2) / 3 {
            byte_or_zero(bytes, i) as int
        } else {
            0
        };
        assert(v == byte_or_zero(bytes, i) as int) by {
            if k >= (bytes.len() + 2) / 3 {
                vstd::arithmetic::div_mod::lemma_fundamental_div_mod(bytes.len() + 2int, 3);
                assert(i >= bytes.len());
            }
        }
        assert forall|px: int, py: int| in_square(x0, y0, src.size as int, px, py) implies #[trigger] src.image.channel(
            px,
            py,
            c,
        ) == v by {
            assert(in_frame(src.image.width as int, src.image.height as int, px, py, c));
        }
        lemma_square_average_uniform(src.image, x0, y0, src.size as nat, c, v);
    }
    assert(fb =~= rhs);
}

/// What dislodging `frames`, numbered 1, 2, ... after the instruction
/// frame, gives, one frame after the other.
pub open spec fn dislodge_video(
    frames: Seq<EmbedSource>,
    out_mode: OutputMode,
    final_frame: i32,
    final_item: i32,
) -> Seq<u8>
    decreases frames.len(),
{
    if frames.len() == 0 {
        Seq::empty()
    } else {
        dislodge_video(frames.drop_last(), out_mode, final_frame, final_item) + dislodge_spec(
            frames.last(),
            out_mode,
            frames.len() as i32,
            final_frame,
            final_item,
        )
    }
}

proof fn lemma_dislodge_video_bw(
    frames: Seq<EmbedSource>,
    contents: Seq<Seq<bool>>,
    n: int,
    ff: i32,
    fi: i32,
)
    requires
        frames.len() == contents.len(),
        forall|f: int|
            0 <= f < frames.len() ==> frame_bits(#[trigger] frames[f]) == padded_bits(contents[f], n),
    ensures
        dislodge_video(frames, OutputMode::Binary, ff, fi) == dislodge_bw_video(contents, n, ff, fi),
    decreases frames.len(),
{
    if frames.len() > 0 {
        let fr = frames.drop_last();
        let ct = contents.drop_last();
        assert forall|f: int| 0 <= f < fr.len() implies frame_bits(#[trigger] fr[f]) == padded_bits(
            ct[f],
            n,
        ) by {
            assert(fr[f] == frames[f]);
            assert(ct[f] == contents[f]);
        }
        lemma_dislodge_video_bw(fr, ct, n, ff, fi);
        assert(frame_bits(frames[frames.len() - 1]) == padded_bits(contents[contents.len() - 1], n));
    }
}

proof fn lemma_dislodge_video_color(
    frames: Seq<EmbedSource>,
    contents: Seq<Seq<u8>>,
    n: int,
    ff: i32,
    fi: i32,
)
    requires
        frames.len() == contents.len(),
        forall|f: int|
            0 <= f < frames.len() ==> frame_bytes(#[trigger] frames[f]) == padded_bytes(
                contents[f],
                n,
            ),
    ensures
        dislodge_video(frames, OutputMode::Color, ff, fi) == dislodge_color_video(contents, n, ff, fi),
    decreases frames.len(),
{
    if frames.len() > 0 {
        let fr = frames.drop_last();
        let ct = contents.drop_last();
        assert forall|f: int| 0 <= f < fr.len() implies frame_bytes(#[trigger] fr[f]) == padded_bytes(
            ct[f],
            n,
        ) by {
            assert(fr[f] == frames[f]);
            assert(ct[f] == contents[f]);
        }
        lemma_dislodge_video_color(fr, ct, n, ff, fi);
        assert(frame_bytes(frames[frames.len() - 1]) == padded_bytes(
            contents[contents.len() - 1],
            n,
        ));
    }
}

/// The instruction frame as `etch_instructions` makes it for `data`.
pub open spec fn instruction_frame_of(src: EmbedSource, settings: Settings, data: Data) -> bool {
    &&& src.wf()
    &&& src.size == INSTRUCTION_SIZE
    &&& src.frame_size == (Size { width: settings.width, height: settings.height })
    &&& holds_bits(src, u32s_to_bits(instruction_words(settings, data)))
}

/// Reading back a video of binary data gives back its bytes: the output
/// mode, final frame and final bit count read from an instruction frame
/// that `etch_instructions` made, and the data frames that
/// `etch_bw_frames` made, dislodged frame after frame, give the bytes that
/// the bits make. This holds when a frame holds whole bytes or the data
/// fits in one frame, the data is whole bytes, the instruction frame has
/// room for its words, and the frame numbers and counts fit in an `i32`.
pub proof fn law_read_video_bw(
    settings: Settings,
    data: Data,
    instructions: EmbedSource,
    frames: Seq<EmbedSource>,
)
    requires
        frames_fit(settings),
        data.out_mode == OutputMode::Binary,
        settings_blocks(settings) % 8 == 0 || data.binary@.len() <= settings_blocks(settings),
        data.binary@.len() % 8 == 0,
        final_frame_of(settings, OutputMode::Binary, data.binary@.len() as int) <= i32::MAX,
        settings_blocks(settings) <= i32::MAX,
        instruction_frame_of(instructions, settings, data),
        instructions.blocks() >= 128,
        frames.len() == frame_count(data.binary@.len() as int, settings_blocks(settings)),
        forall|f: int|
            0 <= f < frames.len() ==> frame_of(#[trigger] frames[f], settings) && holds_bits(
                frames[f],
                frame_contents(data.binary@, settings_blocks(settings))[f],
            ),
    ensures
        ({
            let read = decode_instructions(
                bits_to_u32s(frame_bits(instructions)),
                settings.width,
                settings.height,
            );
            &&& read.0 == OutputMode::Binary
            &&& dislodge_video(frames, read.0, read.1, read.2) == bits_to_bytes(data.binary@)
        }),
{
    let n = settings_blocks(settings);
    let contents = frame_contents(data.binary@, n);
    law_instructions_roundtrip(instructions, settings, data);
    let ff = final_frame_of(settings, OutputMode::Binary, data.binary@.len() as int) as u32 as i32;
    let fi = final_item_of(settings, OutputMode::Binary, data.binary@.len() as int) as u32 as i32;
    assert forall|f: int| 0 <= f < frames.len() implies frame_bits(#[trigger] frames[f])
        == padded_bits(contents[f], n) by {
        law_read_bits_on_black(frames[f], contents[f]);
    }
    lemma_dislodge_video_bw(frames, contents, n, ff, fi);
    law_embed_dislodge_bw(settings, data.binary@);
}

/// Reading back a video of colour data gives back its bytes: the output
/// mode, final frame and final byte count read from an instruction frame
/// that `etch_instructions` made, and the data frames that
/// `etch_color_frames` made, dislodged frame after frame, give the bytes
/// exactly. This holds when the instruction frame has room for its words
/// and the frame numbers and counts fit in an `i32`.
pub proof fn law_read_video_color(
    settings: Settings,
    data: Data,
    instructions: EmbedSource,
    frames: Seq<EmbedSource>,
)
    requires
        frames_fit(settings),
        data.out_mode == OutputMode::Color,
        final_frame_of(settings, OutputMode::Color, data.bytes@.len() as int) <= i32::MAX,
        3 * settings_blocks(settings) <= i32::MAX,
        instruction_frame_of(instructions, settings, data),
        instructions.blocks() >= 128,
        frames.len() == frame_count(data.bytes@.len() as int, 3 * settings_blocks(settings)),
        forall|f: int|
            0 <= f < frames.len() ==> frame_of(#[trigger] frames[f], settings) && holds_colors(
                frames[f],
                frame_contents(data.bytes@, 3 * settings_blocks(settings))[f],
            ),
    ensures
        ({
            let read = decode_instructions(
                bits_to_u32s(frame_bits(instructions)),
                settings.width,
                settings.height,
            );
            &&& read.0 == OutputMode::Color
            &&& dislodge_video(frames, read.0, read.1, read.2) == data.bytes@
        }),
{
    let n = settings_blocks(settings);
    let contents = frame_contents(data.bytes@, 3 * n);
    law_instructions_roundtrip(instructions, settings, data);
    let ff = final_frame_of(settings, OutputMode::Color, data.bytes@.len() as int) as u32 as i32;
    let fi = final_item_of(settings, OutputMode::Color, data.bytes@.len() as int) as u32 as i32;
    assert forall|f: int| 0 <= f < frames.len() implies frame_bytes(#[trigger] frames[f])
        == padded_bytes(contents[f], n) by {
        law_read_colors_on_black(frames[f], contents[f]);
    }
    lemma_dislodge_video_color(frames, contents, n, ff, fi);
    law_embed_dislodge_color(settings, data.bytes@);
}

} // verus!
