//! Frames of pixels and the block layout that data is embedded in.
use crate::blocks::{block_of, block_x, block_y, in_blocks};
use vstd::prelude::*;

verus! {

/// Width and height in pixels.
#[derive(Clone, Copy, Debug, PartialEq, Eq, Structural)]
pub struct Size {
    pub width: i32,
    pub height: i32,
}

impl Size {
    pub fn new(width: i32, height: i32) -> (s: Size)
        ensures
            s.width == width,
            s.height == height,
    {
        Size { width, height }
    }
}

/// A frame of pixels with three 8-bit channels each, stored row after row,
/// the channels of a pixel in blue, green, red order.
pub struct Image {
    pub width: i32,
    pub height: i32,
    pub data: Vec<u8>,
}

/// Position in the data of channel `c` of the pixel at column `x`, row `y`
/// of a frame `w` pixels wide.
pub open spec fn pixel_index(w: int, x: int, y: int, c: int) -> int {
    (y * w + x) * 3 + c
}

/// Channel `c` (0 blue, 1 green, 2 red) of the pixel at `(x, y)`.
pub open spec fn chan(data: Seq<u8>, w: int, x: int, y: int, c: int) -> u8 {
    data[pixel_index(w, x, y, c)]
}

/// `(x, y, c)` names a channel of a pixel inside a `w` by `h` frame.
pub open spec fn in_frame(w: int, h: int, x: int, y: int, c: int) -> bool {
    0 <= x < w && 0 <= y < h && 0 <= c < 3
}

impl Image {
    pub open spec fn wf(&self) -> bool {
        &&& self.width >= 0
        &&& self.height >= 0
        &&& self.data@.len() == self.width * self.height * 3
    }

    pub open spec fn channel(&self, x: int, y: int, c: int) -> u8 {
        chan(self.data@, self.width as int, x, y, c)
    }
}

/// Where channel `c` of pixel `(x, y)` lies, and that no other channel of
/// the frame lies there.
pub proof fn lemma_pixel_index(w: int, h: int, x: int, y: int, c: int)
    requires
        in_frame(w, h, x, y, c),
    ensures
        0 <= pixel_index(w, x, y, c) < w * h * 3,
        pixel_index(w, x, y, c) / 3 == y * w + x,
        pixel_index(w, x, y, c) % 3 == c,
        (y * w + x) / w == y,
        (y * w + x) % w == x,
{
    assert(0 <= y * w) by (nonlinear_arith)
        requires
            0 <= y,
            0 <= w,
    ;
    assert(y * w + x < w * h) by (nonlinear_arith)
        requires
            0 <= x < w,
            0 <= y < h,
    ;
    vstd::arithmetic::div_mod::lemma_fundamental_div_mod_converse(
        pixel_index(w, x, y, c),
        3,
        y * w + x,
        c,
    );
    assert(y * w == w * y) by (nonlinear_arith);
    vstd::arithmetic::div_mod::lemma_fundamental_div_mod_converse(y * w + x, w, y, x);
}

/// Two channel positions of a frame are equal only for the same channel of
/// the same pixel.
pub proof fn lemma_pixel_index_injective(
    w: int,
    h: int,
    x1: int,
    y1: int,
    c1: int,
    x2: int,
    y2: int,
    c2: int,
)
    requires
        in_frame(w, h, x1, y1, c1),
        in_frame(w, h, x2, y2, c2),
        pixel_index(w, x1, y1, c1) == pixel_index(w, x2, y2, c2),
    ensures
        x1 == x2 && y1 == y2 && c1 == c2,
{
    lemma_pixel_index(w, h, x1, y1, c1);
    lemma_pixel_index(w, h, x2, y2, c2);
}

/// The position of channel `c` of pixel `(x, y)` in a `w` by `h` frame.
pub fn channel_index(w: i32, h: i32, x: i32, y: i32, c: usize) -> (idx: usize)
    requires
        in_frame(w as int, h as int, x as int, y as int, c as int),
        w * h * 3 <= usize::MAX,
    ensures
        idx == pixel_index(w as int, x as int, y as int, c as int),
        idx < w * h * 3,
{
    proof {
        lemma_pixel_index(w as int, h as int, x as int, y as int, c as int);
        assert(y * w <= w * h) by (nonlinear_arith)
            requires
                0 <= y < h,
                0 <= w,
        ;
    }
    let row = (y as usize) * (w as usize);
    (row + x as usize) * 3 + c
}

/// Sets channel `c` of pixel `(x, y)` to `v`.
pub fn set_channel(img: &mut Image, x: i32, y: i32, c: usize, v: u8)
    requires
        old(img).wf(),
        in_frame(old(img).width as int, old(img).height as int, x as int, y as int, c as int),
    ensures
        final(img).wf(),
        final(img).width == old(img).width,
        final(img).height == old(img).height,
        forall|px: int, py: int, pc: int|
            in_frame(old(img).width as int, old(img).height as int, px, py, pc)
                ==> #[trigger] final(img).channel(px, py, pc) == if px == x && py == y && pc == c {
                v
            } else {
                old(img).channel(px, py, pc)
            },
{
    let len = img.data.len();
    assert(len == img.width * img.height * 3);
    let idx = channel_index(img.width, img.height, x, y, c);
    img.data.set(idx, v);
    proof {
        let w = img.width as int;
        let h = img.height as int;
        assert forall|px: int, py: int, pc: int| in_frame(w, h, px, py, pc) implies #[trigger] img.channel(
            px,
            py,
            pc,
        ) == if px == x && py == y && pc == c {
            v
        } else {
            old(img).channel(px, py, pc)
        } by {
            lemma_pixel_index(w, h, px, py, pc);
            if pixel_index(w, px, py, pc) == idx {
                lemma_pixel_index_injective(w, h, px, py, pc, x as int, y as int, c as int);
            }
        }
    }
}

/// A frame together with the size of the blocks that data is etched in.
/// `actual_size` is the part of the frame that whole blocks cover.
pub struct EmbedSource {
    pub image: Image,
    pub size: i32,
    pub frame_size: Size,
    pub actual_size: Size,
}

impl EmbedSource {
    pub open spec fn wf(&self) -> bool {
        &&& self.image.wf()
        &&& self.size > 0
        &&& self.frame_size.width == self.image.width
        &&& self.frame_size.height == self.image.height
        &&& self.actual_size.width == self.image.width - self.image.width % self.size
        &&& self.actual_size.height == self.image.height - self.image.height % self.size
    }

    /// Number of block columns.
    pub open spec fn cols(&self) -> int {
        self.image.width / self.size
    }

    /// Number of block rows.
    pub open spec fn rows(&self) -> int {
        self.image.height / self.size
    }

    /// Number of blocks of the frame.
    pub open spec fn blocks(&self) -> int {
        self.cols() * self.rows()
    }

    /// Pixel `(x, y)` lies in one of the blocks.
    pub open spec fn in_grid(&self, x: int, y: int) -> bool {
        in_blocks(self.size as int, self.cols(), self.rows(), x, y)
    }

    /// The block that pixel `(x, y)` lies in.
    pub open spec fn block_at(&self, x: int, y: int) -> int {
        block_of(self.size as int, self.cols(), x, y)
    }

    /// Column of the top-left pixel of block `k`.
    pub open spec fn block_left(&self, k: int) -> int {
        block_x(self.size as int, self.cols(), k)
    }

    /// Row of the top-left pixel of block `k`.
    pub open spec fn block_top(&self, k: int) -> int {
        block_y(self.size as int, self.cols(), k)
    }

    /// Number of blocks of the frame.
    pub fn block_count(&self) -> (n: usize)
        requires
            self.wf(),
        ensures
            n == self.blocks(),
    {
        let len = self.image.data.len();
        proof {
            let s = self.size as int;
            let w = self.image.width as int;
            let h = self.image.height as int;
            vstd::arithmetic::div_mod::lemma_div_is_ordered_by_denominator(w, 1, s);
            vstd::arithmetic::div_mod::lemma_div_is_ordered_by_denominator(h, 1, s);
            vstd::arithmetic::div_mod::lemma_div_pos_is_pos(w, s);
            vstd::arithmetic::div_mod::lemma_div_pos_is_pos(h, s);
            assert(self.cols() * self.rows() <= w * h * 3) by (nonlinear_arith)
                requires
                    0 <= self.cols() <= w,
                    0 <= self.rows() <= h,
            ;
        }
        let cols = self.image.width / self.size;
        let rows = self.image.height / self.size;
        (cols as usize) * (rows as usize)
    }

    /// A new black frame of `width` by `height` pixels cut into blocks of
    /// `size` by `size` pixels. Any nonzero size is taken; a positive one
    /// gives a well-formed source.
    pub fn new(size: i32, width: i32, height: i32) -> (source: EmbedSource)
        requires
            size != 0,
            width >= 0,
            height >= 0,
            width * height * 3 <= usize::MAX,
        ensures
            size > 0 ==> source.wf(),
            source.image.wf(),
            source.image.width == width,
            source.image.height == height,
            source.size == size,
            source.frame_size == (Size { width, height }),
            source.actual_size == (Size {
                width: (width - width % size) as i32,
                height: (height - height % size) as i32,
            }),
            forall|x: int, y: int, c: int|
                in_frame(width as int, height as int, x, y, c) ==> #[trigger] source.image.channel(
                    x,
                    y,
                    c,
                ) == 0,
    {
        let frame_size = Size::new(width, height);
        let actual_width = width - (width % size);
        let actual_height = height - (height % size);
        let actual_size = Size::new(actual_width, actual_height);
        let n = (width as usize) * (height as usize) * 3;
        let data: Vec<u8> = vec![0u8; n];
        let image = Image { width, height, data };
        proof {
            assert forall|x: int, y: int, c: int|
                in_frame(width as int, height as int, x, y, c) implies #[trigger] image.channel(
                x,
                y,
                c,
            ) == 0 by {
                lemma_pixel_index(width as int, height as int, x, y, c);
            }
        }
        EmbedSource { image, size, frame_size, actual_size }
    }

    /// Takes a decoded frame to read blocks of `size` by `size` pixels from.
    /// A data frame (`instruction` false) whose height is not a multiple of
    /// the block size is refused; the width is not checked. Any nonzero
    /// size is taken; a positive one gives a well-formed source.
    pub fn from(image: Image, size: i32, instruction: bool) -> (res: Result<EmbedSource, String>)
        requires
            image.wf(),
            size != 0,
        ensures
            res is Err <==> (image.height % size != 0 && !instruction),
            res matches Err(msg) ==> msg@ == "Image size is not a multiple of the embedding size"@,
            res matches Ok(source) ==> {
                &&& source.image == image
                &&& source.size == size
                &&& source.frame_size == (Size { width: image.width, height: image.height })
                &&& source.actual_size == (Size {
                    width: (image.width - image.width % size) as i32,
                    height: (image.height - image.height % size) as i32,
                })
                &&& (size > 0 ==> source.wf())
            },
    {
        let width = image.width;
        let height = image.height;
        let frame_size = Size::new(width, height);
        if height % size != 0 && !instruction {
            return Err("Image size is not a multiple of the embedding size".to_string());
        }
        let actual_size = Size::new(width - (width % size), height - (height % size));
        Ok(EmbedSource { image, size, frame_size, actual_size })
    }
}

} // verus!
