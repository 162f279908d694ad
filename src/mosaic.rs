//! The downscaler: every `block_size` x `block_size` block of an RGBA image
//! becomes one pixel whose channels are the floor of the block's channel sums
//! divided by the block area, with the remainders of those divisions kept.

use vstd::prelude::*;

verus! {

/// Why an image cannot be downscaled.
#[derive(Debug, Clone, Copy, PartialEq, Eq, Structural)]
pub enum MosaicError {
    /// The buffer does not hold exactly `width * height` RGBA pixels.
    BufferSizeMismatch,
    /// The block size is zero.
    ZeroBlockSize,
    /// The image holds at least one whole block, and the block area
    /// `block_size * block_size` exceeds `2^32`, so that a remainder below it
    /// may not fit in a `u32`. Blocks have a side of 65537 or more then, so
    /// the image has more than `2^32` pixels.
    BlockTooLarge,
    /// The circuit has too few rows for an image this high.
    ExceedsCapacity,
}

/// An RGBA image: `width * height` pixels, row by row, four bytes each.
#[derive(Debug)]
pub struct Image {
    pub width: u32,
    pub height: u32,
    pub data: Vec<u8>,
}

impl Image {
    pub open spec fn wf(&self) -> bool {
        self.data@.len() == self.width * self.height * 4
    }

    /// Wraps `data` as a `width` x `height` image, if its length fits.
    pub fn from_raw(width: u32, height: u32, data: Vec<u8>) -> (r: Option<Image>)
        ensures
            r.is_some() <==> data@.len() == width * height * 4,
            r.is_some() ==> r.unwrap().wf() && r.unwrap().width == width
                && r.unwrap().height == height && r.unwrap().data@ == data@,
    {
        if buffer_fits(data.len(), width, height) {
            Some(Image { width, height, data })
        } else {
            None
        }
    }

    pub fn width(&self) -> (r: u32)
        ensures
            r == self.width,
    {
        self.width
    }

    pub fn height(&self) -> (r: u32)
        ensures
            r == self.height,
    {
        self.height
    }

    /// The pixel bytes, row by row.
    pub fn as_bytes(&self) -> (r: &Vec<u8>)
        ensures
            r@ == self.data@,
    {
        &self.data
    }
}

/// Position of channel `c` of pixel `(x, y)` in a row-major RGBA buffer of
/// the given width.
pub open spec fn channel_index(width: int, x: int, y: int, c: int) -> int {
    (y * width + x) * 4 + c
}

/// Channel `c` of pixel `(x, y)`, or 0 where the pixel lies outside the image.
pub open spec fn channel_at(buf: Seq<u8>, width: nat, height: nat, x: nat, y: nat, c: nat) -> nat {
    if x < width && y < height {
        buf[channel_index(width as int, x as int, y as int, c as int)] as nat
    } else {
        0
    }
}

/// Sum of channel `c` over the `n` pixels `(x0, y) .. (x0 + n - 1, y)`.
pub open spec fn strip_sum(
    buf: Seq<u8>,
    width: nat,
    height: nat,
    x0: nat,
    y: nat,
    c: nat,
    n: nat,
) -> nat
    decreases n,
{
    if n == 0 {
        0
    } else {
        strip_sum(buf, width, height, x0, y, c, (n - 1) as nat) + channel_at(
            buf,
            width,
            height,
            (x0 + n - 1) as nat,
            y,
            c,
        )
    }
}

/// Sum of channel `c` over `m` strips of `n` pixels, the first starting at
/// `(x0, y0)` and each next one a row lower.
pub open spec fn rect_sum(
    buf: Seq<u8>,
    width: nat,
    height: nat,
    x0: nat,
    y0: nat,
    c: nat,
    n: nat,
    m: nat,
) -> nat
    decreases m,
{
    if m == 0 {
        0
    } else {
        rect_sum(buf, width, height, x0, y0, c, n, (m - 1) as nat) + strip_sum(
            buf,
            width,
            height,
            x0,
            (y0 + m - 1) as nat,
            c,
            n,
        )
    }
}

/// Sum of channel `c` over the in-bounds pixels of block `(bx, by)`.
pub open spec fn block_sum(
    buf: Seq<u8>,
    width: nat,
    height: nat,
    block: nat,
    bx: nat,
    by: nat,
    c: nat,
) -> nat {
    rect_sum(buf, width, height, bx * block, by * block, c, block, block)
}

/// Remainder of the division of block `(bx, by)`'s channel `c` sum by the
/// block area.
pub open spec fn block_rem(
    buf: Seq<u8>,
    width: nat,
    height: nat,
    block: nat,
    bx: nat,
    by: nat,
    c: nat,
) -> nat {
    block_sum(buf, width, height, block, bx, by, c) % (block * block)
}

/// Whether `data` is the pixel buffer of the downscale of the `width` x
/// `height` image `buf` by blocks of side `block`: each reduced channel is the
/// block's channel sum divided by `block * block`, rounded down.
pub open spec fn is_reduced(buf: Seq<u8>, width: nat, height: nat, block: nat, data: Seq<u8>) -> bool {
    let nw = width / block;
    let nh = height / block;
    &&& data.len() == nw * nh * 4
    &&& forall|x: nat, y: nat, c: nat|
        #![trigger channel_index(nw as int, x as int, y as int, c as int)]
        x < nw && y < nh && c < 4 ==> data[channel_index(nw as int, x as int, y as int, c as int)]
            == block_sum(buf, width, height, block, x, y, c) / (block * block)
}

/// Whether `(image, red, green, blue, alpha)` is the downscale of the
/// `width` x `height` image `buf` by blocks of side `block`: each reduced
/// channel is the block's channel sum divided by `block * block`, rounded
/// down, and each remainder vector holds that division's remainders, one per
/// reduced pixel in row-major order.
pub open spec fn is_downscale(
    buf: Seq<u8>,
    width: nat,
    height: nat,
    block: nat,
    image: Image,
    red: Seq<u32>,
    green: Seq<u32>,
    blue: Seq<u32>,
    alpha: Seq<u32>,
) -> bool {
    &&& block > 0
    &&& image.width == width / block
    &&& image.height == height / block
    &&& image.wf()
    &&& is_reduced(buf, width, height, block, image.data@)
    &&& red.len() == image.width * image.height
    &&& green.len() == image.width * image.height
    &&& blue.len() == image.width * image.height
    &&& alpha.len() == image.width * image.height
    &&& forall|x: nat, y: nat|
        #![trigger red[(y * image.width + x) as int]]
        x < image.width && y < image.height ==> {
            &&& red[(y * image.width + x) as int] == block_rem(buf, width, height, block, x, y, 0)
            &&& green[(y * image.width + x) as int] == block_rem(buf, width, height, block, x, y, 1)
            &&& blue[(y * image.width + x) as int] == block_rem(buf, width, height, block, x, y, 2)
            &&& alpha[(y * image.width + x) as int] == block_rem(buf, width, height, block, x, y, 3)
        }
}

/// The error that downscaling `len` bytes as a `width` x `height` image by
/// blocks of side `block` meets first, if any.
pub open spec fn downscale_error(len: nat, width: nat, height: nat, block: nat) -> Option<
    MosaicError,
> {
    if len != width * height * 4 {
        Some(MosaicError::BufferSizeMismatch)
    } else if block == 0 {
        Some(MosaicError::ZeroBlockSize)
    } else if width / block > 0 && height / block > 0 && block * block > 0x1_0000_0000 {
        Some(MosaicError::BlockTooLarge)
    } else {
        None
    }
}

/// What downscaling `buf` as a `width` x `height` image by blocks of side
/// `block` returns: the downscale when no error applies, else the first error
/// that does.
pub open spec fn downscale_outcome(
    buf: Seq<u8>,
    width: nat,
    height: nat,
    block: nat,
    r: Result<(Image, Vec<u32>, Vec<u32>, Vec<u32>, Vec<u32>), MosaicError>,
) -> bool {
    match r {
        Ok(t) => downscale_error(buf.len(), width, height, block).is_none() && is_downscale(
            buf,
            width,
            height,
            block,
            t.0,
            t.1@,
            t.2@,
            t.3@,
            t.4@,
        ),
        Err(e) => downscale_error(buf.len(), width, height, block) == Some(e),
    }
}

/// Downscales the `width` x `height` RGBA image `buf` by blocks of side
/// `scale_factor`, and returns the reduced image with the red, green, blue
/// and alpha remainders of its divisions.
pub fn exec(buf: Vec<u8>, scale_factor: u32, width: u32, height: u32) -> (r: Result<
    (Image, Vec<u32>, Vec<u32>, Vec<u32>, Vec<u32>),
    MosaicError,
>)
    ensures
        downscale_outcome(buf@, width as nat, height as nat, scale_factor as nat, r),
{
    if !buffer_fits(buf.len(), width, height) {
        return Err(MosaicError::BufferSizeMismatch);
    }
    if scale_factor == 0 {
        return Err(MosaicError::ZeroBlockSize);
    }
    let block = scale_factor;
    proof {
        assert(block * block <= 0xffff_ffffu64 * 0xffff_ffffu64) by (nonlinear_arith)
            requires
                block <= 0xffff_ffffu64,
        ;
    }
    let area: u64 = block as u64 * block as u64;
    proof {
        assert(0 < area) by (nonlinear_arith)
            requires
                0 < block,
                area == block * block,
        ;
    }
    let new_width: u32 = width / block;
    let new_height: u32 = height / block;
    if new_width > 0 && new_height > 0 && area > 0x1_0000_0000u64 {
        return Err(MosaicError::BlockTooLarge);
    }
    let ghost b = buf@;
    let ghost (w, h, bl, nw) = (width as nat, height as nat, block as nat, new_width as nat);
    let mut data: Vec<u8> = Vec::new();
    let mut red: Vec<u32> = Vec::new();
    let mut green: Vec<u32> = Vec::new();
    let mut blue: Vec<u32> = Vec::new();
    let mut alpha: Vec<u32> = Vec::new();
    let mut y: u32 = 0;
    while y < new_height
        invariant
            y <= new_height,
            buf@ == b,
            b.len() == w * h * 4,
            w == width,
            h == height,
            bl == block,
            nw == new_width,
            0 < block,
            area == block * block,
            0 < area,
            new_width > 0 && new_height > 0 ==> area <= 0x1_0000_0000u64,
            red@.len() == y * nw,
            data@.len() == 4 * red@.len(),
            green@.len() == red@.len(),
            blue@.len() == red@.len(),
            alpha@.len() == red@.len(),
            forall|k: int|
                #![trigger data@[k]]
                0 <= k < data@.len() ==> data@[k] == reduced_byte(b, w, h, bl, nw, k as nat),
            forall|k: int|
                #![trigger red@[k]]
                0 <= k < red@.len() ==> red@[k] == block_remainder(b, w, h, bl, nw, k as nat, 0),
            forall|k: int|
                #![trigger green@[k]]
                0 <= k < red@.len() ==> green@[k] == block_remainder(b, w, h, bl, nw, k as nat, 1),
            forall|k: int|
                #![trigger blue@[k]]
                0 <= k < red@.len() ==> blue@[k] == block_remainder(b, w, h, bl, nw, k as nat, 2),
            forall|k: int|
                #![trigger alpha@[k]]
                0 <= k < red@.len() ==> alpha@[k] == block_remainder(b, w, h, bl, nw, k as nat, 3),
        decreases new_height - y,
    {
        let mut x: u32 = 0;
        while x < new_width
            invariant
                x <= new_width,
                y < new_height,
                buf@ == b,
                b.len() == w * h * 4,
                w == width,
                h == height,
                bl == block,
                nw == new_width,
                0 < block,
                area == block * block,
                0 < area,
                new_width > 0 && new_height > 0 ==> area <= 0x1_0000_0000u64,
                red@.len() == y * nw + x,
                data@.len() == 4 * red@.len(),
                green@.len() == red@.len(),
                blue@.len() == red@.len(),
                alpha@.len() == red@.len(),
                forall|k: int|
                    #![trigger data@[k]]
                    0 <= k < data@.len() ==> data@[k] == reduced_byte(b, w, h, bl, nw, k as nat),
                forall|k: int|
                    #![trigger red@[k]]
                    0 <= k < red@.len() ==> red@[k] == block_remainder(b, w, h, bl, nw, k as nat, 0),
                forall|k: int|
                    #![trigger green@[k]]
                    0 <= k < red@.len() ==> green@[k] == block_remainder(b, w, h, bl, nw, k as nat, 1),
                forall|k: int|
                    #![trigger blue@[k]]
                    0 <= k < red@.len() ==> blue@[k] == block_remainder(b, w, h, bl, nw, k as nat, 2),
                forall|k: int|
                    #![trigger alpha@[k]]
                    0 <= k < red@.len() ==> alpha@[k] == block_remainder(b, w, h, bl, nw, k as nat, 3),
            decreases new_width - x,
        {
            let (s0, s1, s2, s3) = block_channel_sums(&buf, width, height, block, x, y);
            let ghost p = red@.len();
            proof {
                assert(255 * block * block == 255 * area) by (nonlinear_arith)
                    requires
                        area == block * block,
                ;
                lemma_row_major(x as nat, y as nat, nw);
                lemma_floor_average_fits(s0 as int, area as int);
                lemma_floor_average_fits(s1 as int, area as int);
                lemma_floor_average_fits(s2 as int, area as int);
                lemma_floor_average_fits(s3 as int, area as int);
            }
            data.push((s0 / area) as u8);
            data.push((s1 / area) as u8);
            data.push((s2 / area) as u8);
            data.push((s3 / area) as u8);
            red.push((s0 % area) as u32);
            green.push((s1 % area) as u32);
            blue.push((s2 % area) as u32);
            alpha.push((s3 % area) as u32);
            proof {
                assert(data@[4 * p as int] == reduced_byte(b, w, h, bl, nw, 4 * p));
                assert(data@[(4 * p + 1) as int] == reduced_byte(b, w, h, bl, nw, 4 * p + 1));
                assert(data@[(4 * p + 2) as int] == reduced_byte(b, w, h, bl, nw, 4 * p + 2));
                assert(data@[(4 * p + 3) as int] == reduced_byte(b, w, h, bl, nw, 4 * p + 3));
            }
            x = x + 1;
        }
        proof {
            assert(y * nw + nw == (y + 1) * nw) by (nonlinear_arith);
        }
        y = y + 1;
    }
    let ghost nh = new_height as nat;
    proof {
        assert(nh * nw == nw * nh) by (nonlinear_arith);
        assert forall|x: nat, y: nat, c: nat|
            #![trigger channel_index(nw as int, x as int, y as int, c as int)]
            x < nw && y < nh && c < 4 implies data@[channel_index(
                nw as int,
                x as int,
                y as int,
                c as int,
            )] == block_sum(b, w, h, bl, x, y, c) / (bl * bl) by {
            lemma_row_major(x, y, nw);
            lemma_channel_index_bound(x as int, y as int, nw as int, nh as int, c as int);
            let k = channel_index(nw as int, x as int, y as int, c as int);
            assert(k / 4 == y * nw + x);
            assert(k % 4 == c);
        }
        assert forall|x: nat, y: nat|
            #![trigger red@[(y * new_width + x) as int]]
            x < nw && y < nh implies {
            &&& red@[(y * new_width + x) as int] == block_rem(b, w, h, bl, x, y, 0)
            &&& green@[(y * new_width + x) as int] == block_rem(b, w, h, bl, x, y, 1)
            &&& blue@[(y * new_width + x) as int] == block_rem(b, w, h, bl, x, y, 2)
            &&& alpha@[(y * new_width + x) as int] == block_rem(b, w, h, bl, x, y, 3)
        } by {
            lemma_row_major(x, y, nw);
            lemma_channel_index_bound(x as int, y as int, nw as int, nh as int, 0);
        }
    }
    Ok((Image { width: new_width, height: new_height, data }, red, green, blue, alpha))
}

/// Downscales the `width` x `height` RGBA image `buf` by blocks of side
/// `scale_factor` and returns the reduced image's bytes.
pub fn exec_mosaic(buf: Vec<u8>, scale_factor: u32, width: u32, height: u32) -> (r: Result<
    Vec<u8>,
    MosaicError,
>)
    ensures
        match r {
            Ok(v) => downscale_error(buf@.len(), width as nat, height as nat, scale_factor as nat).is_none()
                && is_reduced(buf@, width as nat, height as nat, scale_factor as nat, v@),
            Err(e) => downscale_error(buf@.len(), width as nat, height as nat, scale_factor as nat)
                == Some(e),
        },
{
    match exec(buf, scale_factor, width, height) {
        Ok((image, _, _, _, _)) => Ok(image.data),
        Err(e) => Err(e),
    }
}

/// Downscaling is a function of its inputs: two results obtained from the
/// same buffer, dimensions and block size hold the same reduced bytes, the
/// same remainders, or the same error.
pub proof fn lemma_downscale_deterministic(
    buf: Seq<u8>,
    width: nat,
    height: nat,
    block: nat,
    r1: Result<(Image, Vec<u32>, Vec<u32>, Vec<u32>, Vec<u32>), MosaicError>,
    r2: Result<(Image, Vec<u32>, Vec<u32>, Vec<u32>, Vec<u32>), MosaicError>,
)
    requires
        downscale_outcome(buf, width, height, block, r1),
        downscale_outcome(buf, width, height, block, r2),
    ensures
        r1.is_ok() == r2.is_ok(),
        r1.is_err() ==> r1 == r2,
        r1.is_ok() ==> {
            let (t1, t2) = (r1.unwrap(), r2.unwrap());
            &&& t1.0.width == t2.0.width
            &&& t1.0.height == t2.0.height
            &&& t1.0.data@ == t2.0.data@
            &&& t1.1@ == t2.1@
            &&& t1.2@ == t2.2@
            &&& t1.3@ == t2.3@
            &&& t1.4@ == t2.4@
        },
{
    if r1.is_ok() {
        let (t1, t2) = (r1.unwrap(), r2.unwrap());
        let nw = width / block;
        let nh = height / block;
        lemma_reduced_unique(buf, width, height, block, t1.0.data@, t2.0.data@);
        assert forall|k: int| 0 <= k < t1.1@.len() implies t1.1@[k] == t2.1@[k] && t1.2@[k]
            == t2.2@[k] && t1.3@[k] == t2.3@[k] && t1.4@[k] == t2.4@[k] by {
            let (x, y) = ((k % (nw as int)) as nat, (k / (nw as int)) as nat);
            lemma_pixel_of_index(k, nw, nh);
            assert(t1.1@[(y * t1.0.width + x) as int] == block_rem(buf, width, height, block, x, y, 0));
            assert(t2.1@[(y * t2.0.width + x) as int] == block_rem(buf, width, height, block, x, y, 0));
        }
        assert(t1.1@ == t2.1@);
        assert(t1.2@ == t2.2@);
        assert(t1.3@ == t2.3@);
        assert(t1.4@ == t2.4@);
    }
}

/// Whether `q` and `r` are the quotient and remainder of `s` by `a`.
pub open spec fn divides_with_remainder(s: nat, a: nat, q: nat, r: nat) -> bool {
    s == a * q + r && r < a
}

/// Each reduced channel and its remainder are the quotient and remainder of
/// the block's channel sum, taken over the pixels inside the image, by the
/// full block area `block * block`.
pub proof fn lemma_downscale_divides(
    buf: Seq<u8>,
    width: nat,
    height: nat,
    block: nat,
    image: Image,
    red: Seq<u32>,
    green: Seq<u32>,
    blue: Seq<u32>,
    alpha: Seq<u32>,
)
    requires
        is_downscale(buf, width, height, block, image, red, green, blue, alpha),
    ensures
        forall|x: nat, y: nat|
            #![trigger red[(y * image.width + x) as int]]
            x < image.width && y < image.height ==> {
                let n = (y * image.width + x) as int;
                let a = block * block;
                let q = |c: int| image.data@[channel_index(image.width as int, x as int, y as int, c)] as nat;
                let s = |c: int| block_sum(buf, width, height, block, x, y, c as nat);
                &&& divides_with_remainder(s(0), a, q(0), red[n] as nat)
                &&& divides_with_remainder(s(1), a, q(1), green[n] as nat)
                &&& divides_with_remainder(s(2), a, q(2), blue[n] as nat)
                &&& divides_with_remainder(s(3), a, q(3), alpha[n] as nat)
            },
{
    let a = block * block;
    assert(a > 0) by (nonlinear_arith)
        requires
            block > 0,
            a == block * block,
    ;
    assert forall|x: nat, y: nat|
        #![trigger red[(y * image.width + x) as int]]
        x < image.width && y < image.height implies {
        let n = (y * image.width + x) as int;
        let q = |c: int| image.data@[channel_index(image.width as int, x as int, y as int, c)] as nat;
        let s = |c: int| block_sum(buf, width, height, block, x, y, c as nat);
        &&& divides_with_remainder(s(0), a, q(0), red[n] as nat)
        &&& divides_with_remainder(s(1), a, q(1), green[n] as nat)
        &&& divides_with_remainder(s(2), a, q(2), blue[n] as nat)
        &&& divides_with_remainder(s(3), a, q(3), alpha[n] as nat)
    } by {
        lemma_channel_divides(buf, width, height, block, image.data@, x, y, 0);
        lemma_channel_divides(buf, width, height, block, image.data@, x, y, 1);
        lemma_channel_divides(buf, width, height, block, image.data@, x, y, 2);
        lemma_channel_divides(buf, width, height, block, image.data@, x, y, 3);
    }
}

proof fn lemma_channel_divides(
    buf: Seq<u8>,
    width: nat,
    height: nat,
    block: nat,
    data: Seq<u8>,
    x: nat,
    y: nat,
    c: nat,
)
    requires
        block > 0,
        is_reduced(buf, width, height, block, data),
        x < width / block,
        y < height / block,
        c < 4,
    ensures
        ({
            let s = block_sum(buf, width, height, block, x, y, c);
            let q = data[channel_index((width / block) as int, x as int, y as int, c as int)] as nat;
            divides_with_remainder(s, block * block, q, s % (block * block))
        }),
{
    let a = (block * block) as int;
    assert(a > 0) by (nonlinear_arith)
        requires
            block > 0,
            a == block * block,
    ;
    let s = block_sum(buf, width, height, block, x, y, c) as int;
    vstd::arithmetic::div_mod::lemma_fundamental_div_mod(s, a);
    vstd::arithmetic::div_mod::lemma_mod_pos_bound(s, a);
}

/// Two buffers that are both the downscale of the same image are equal.
proof fn lemma_reduced_unique(buf: Seq<u8>, width: nat, height: nat, block: nat, d1: Seq<u8>, d2: Seq<u8>)
    requires
        block > 0,
        is_reduced(buf, width, height, block, d1),
        is_reduced(buf, width, height, block, d2),
    ensures
        d1 == d2,
{
    let nw = width / block;
    let nh = height / block;
    assert forall|k: int| 0 <= k < d1.len() implies d1[k] == d2[k] by {
        let p = k / 4;
        assert(0 <= p < nw * nh);
        lemma_pixel_of_index(p, nw, nh);
        let (x, y, c) = ((p % (nw as int)) as nat, (p / (nw as int)) as nat, (k % 4) as nat);
        assert(k == channel_index(nw as int, x as int, y as int, c as int));
    }
    assert(d1 =~= d2);
}

/// Pixel `p` of a row-major image `nw` pixels wide and `nh` high lies at
/// column `p % nw` of row `p / nw`.
pub(crate) proof fn lemma_pixel_of_index(p: int, nw: nat, nh: nat)
    requires
        0 <= p < nw * nh,
    ensures
        nw > 0,
        0 <= p % (nw as int) < nw,
        0 <= p / (nw as int) < nh,
        p == (p / (nw as int)) * nw + p % (nw as int),
{
    if nw == 0 {
        assert(nw * nh == 0) by (nonlinear_arith)
            requires
                nw == 0,
        ;
    }
    vstd::arithmetic::div_mod::lemma_fundamental_div_mod(p, nw as int);
    vstd::arithmetic::div_mod::lemma_mod_pos_bound(p, nw as int);
    vstd::arithmetic::div_mod::lemma_div_pos_is_pos(p, nw as int);
    vstd::arithmetic::div_mod::lemma_multiply_divide_lt(p, nw as int, nh as int);
    assert(p == (p / (nw as int)) * nw + p % (nw as int)) by (nonlinear_arith)
        requires
            p == nw * (p / (nw as int)) + (p % (nw as int)),
    ;
}

/// Byte `k` of the reduced image, for reduced width `nw`.
spec fn reduced_byte(buf: Seq<u8>, width: nat, height: nat, block: nat, nw: nat, k: nat) -> nat {
    let p = k / 4;
    block_sum(buf, width, height, block, p % nw, p / nw, k % 4) / (block * block)
}

/// Remainder of channel `c` for reduced pixel `p`, for reduced width `nw`.
spec fn block_remainder(
    buf: Seq<u8>,
    width: nat,
    height: nat,
    block: nat,
    nw: nat,
    p: nat,
    c: nat,
) -> nat {
    block_sum(buf, width, height, block, p % nw, p / nw, c) % (block * block)
}

pub(crate) proof fn lemma_row_major(x: nat, y: nat, nw: nat)
    requires
        x < nw,
    ensures
        (y * nw + x) / nw == y,
        (y * nw + x) % nw == x,
{
    vstd::arithmetic::div_mod::lemma_fundamental_div_mod_converse(
        (y * nw + x) as int,
        nw as int,
        y as int,
        x as int,
    );
}

proof fn lemma_floor_average_fits(s: int, a: int)
    requires
        0 <= s <= 255 * a,
        0 < a,
    ensures
        s / a <= 255,
        s % a < a,
{
    assert(s / a <= 255) by (nonlinear_arith)
        requires
            0 <= s <= 255 * a,
            0 < a,
    ;
}

pub(crate) fn buffer_fits(len: usize, width: u32, height: u32) -> (r: bool)
    ensures
        r == (len == width * height * 4),
{
    let w = width as u128;
    let h = height as u128;
    assert(w * h <= 0xffff_ffffu128 * 0xffff_ffffu128) by (nonlinear_arith)
        requires
            w <= 0xffff_ffffu128,
            h <= 0xffff_ffffu128,
    ;
    (len as u128) == w * h * 4
}

pub(crate) proof fn lemma_channel_index_bound(x: int, y: int, width: int, height: int, c: int)
    requires
        0 <= x < width,
        0 <= y < height,
        0 <= c < 4,
    ensures
        0 <= y * width <= y * width + x,
        channel_index(width, x, y, c) < width * height * 4,
{
    assert(0 <= y * width) by (nonlinear_arith)
        requires
            0 <= y,
            0 <= width,
    ;
    assert(y * width + x < width * height) by (nonlinear_arith)
        requires
            0 <= x < width,
            0 <= y < height,
    ;
}

proof fn lemma_strip_sum_bound(buf: Seq<u8>, width: nat, height: nat, x0: nat, y: nat, c: nat, n: nat)
    ensures
        strip_sum(buf, width, height, x0, y, c, n) <= 255 * n,
    decreases n,
{
    if n > 0 {
        lemma_strip_sum_bound(buf, width, height, x0, y, c, (n - 1) as nat);
    }
}

proof fn lemma_rect_sum_bound(
    buf: Seq<u8>,
    width: nat,
    height: nat,
    x0: nat,
    y0: nat,
    c: nat,
    n: nat,
    m: nat,
)
    ensures
        rect_sum(buf, width, height, x0, y0, c, n, m) <= 255 * n * m,
    decreases m,
{
    if m > 0 {
        lemma_rect_sum_bound(buf, width, height, x0, y0, c, n, (m - 1) as nat);
        lemma_strip_sum_bound(buf, width, height, x0, (y0 + m - 1) as nat, c, n);
        assert(255 * n * (m - 1) + 255 * n == 255 * n * m) by (nonlinear_arith);
    }
}

/// The four channel sums of block `(bx, by)`.
fn block_channel_sums(buf: &Vec<u8>, width: u32, height: u32, block: u32, bx: u32, by: u32) -> (r: (
    u64,
    u64,
    u64,
    u64,
))
    requires
        buf@.len() == width * height * 4,
        0 < block,
        block * block <= 0x1_0000_0000u64,
    ensures
        r.0 == block_sum(buf@, width as nat, height as nat, block as nat, bx as nat, by as nat, 0),
        r.1 == block_sum(buf@, width as nat, height as nat, block as nat, bx as nat, by as nat, 1),
        r.2 == block_sum(buf@, width as nat, height as nat, block as nat, bx as nat, by as nat, 2),
        r.3 == block_sum(buf@, width as nat, height as nat, block as nat, bx as nat, by as nat, 3),
        r.0 <= 255 * block * block,
        r.1 <= 255 * block * block,
        r.2 <= 255 * block * block,
        r.3 <= 255 * block * block,
{
    let len: usize = buf.len();
    let ghost b = buf@;
    let ghost w = width as nat;
    let ghost h = height as nat;
    proof {
        assert(bx * block <= 0xffff_fffe_0000_0001u64 && by * block <= 0xffff_fffe_0000_0001u64)
            by (nonlinear_arith)
            requires
                bx <= 0xffff_ffffu64,
                by <= 0xffff_ffffu64,
                block <= 0xffff_ffffu64,
        ;
    }
    let x0: u64 = bx as u64 * block as u64;
    let y0: u64 = by as u64 * block as u64;
    let mut s0: u64 = 0;
    let mut s1: u64 = 0;
    let mut s2: u64 = 0;
    let mut s3: u64 = 0;
    let mut dy: u32 = 0;
    while dy < block
        invariant
            dy <= block,
            buf@ == b,
            len == b.len(),
            b.len() == w * h * 4,
            w == width,
            h == height,
            0 < block,
            block * block <= 0x1_0000_0000u64,
            x0 == bx * block,
            y0 == by * block,
            x0 <= 0xffff_fffe_0000_0001u64,
            y0 <= 0xffff_fffe_0000_0001u64,
            s0 == rect_sum(b, w, h, x0 as nat, y0 as nat, 0, block as nat, dy as nat),
            s1 == rect_sum(b, w, h, x0 as nat, y0 as nat, 1, block as nat, dy as nat),
            s2 == rect_sum(b, w, h, x0 as nat, y0 as nat, 2, block as nat, dy as nat),
            s3 == rect_sum(b, w, h, x0 as nat, y0 as nat, 3, block as nat, dy as nat),
        decreases block - dy,
    {
        proof {
            lemma_rect_sum_bound(b, w, h, x0 as nat, y0 as nat, 0, block as nat, dy as nat);
            lemma_rect_sum_bound(b, w, h, x0 as nat, y0 as nat, 1, block as nat, dy as nat);
            lemma_rect_sum_bound(b, w, h, x0 as nat, y0 as nat, 2, block as nat, dy as nat);
            lemma_rect_sum_bound(b, w, h, x0 as nat, y0 as nat, 3, block as nat, dy as nat);
        }
        let py: u64 = y0 + dy as u64;
        let mut dx: u32 = 0;
        while dx < block
            invariant
                dx <= block,
                dy < block,
                buf@ == b,
                len == b.len(),
                b.len() == w * h * 4,
                w == width,
                h == height,
                0 < block,
                block * block <= 0x1_0000_0000u64,
                x0 == bx * block,
                y0 == by * block,
                x0 <= 0xffff_fffe_0000_0001u64,
                py == y0 + dy,
                s0 == rect_sum(b, w, h, x0 as nat, y0 as nat, 0, block as nat, dy as nat)
                    + strip_sum(b, w, h, x0 as nat, py as nat, 0, dx as nat),
                s1 == rect_sum(b, w, h, x0 as nat, y0 as nat, 1, block as nat, dy as nat)
                    + strip_sum(b, w, h, x0 as nat, py as nat, 1, dx as nat),
                s2 == rect_sum(b, w, h, x0 as nat, y0 as nat, 2, block as nat, dy as nat)
                    + strip_sum(b, w, h, x0 as nat, py as nat, 2, dx as nat),
                s3 == rect_sum(b, w, h, x0 as nat, y0 as nat, 3, block as nat, dy as nat)
                    + strip_sum(b, w, h, x0 as nat, py as nat, 3, dx as nat),
                s0 <= 255 * block * dy + 255 * dx,
                s1 <= 255 * block * dy + 255 * dx,
                s2 <= 255 * block * dy + 255 * dx,
                s3 <= 255 * block * dy + 255 * dx,
            decreases block - dx,
        {
            proof {
                assert(255 * block * dy + 255 * dx + 255 <= 255 * block * block) by (nonlinear_arith)
                    requires
                        dx < block,
                        dy < block,
                ;
                assert(255 * block * block <= 255 * 0x1_0000_0000u64) by (nonlinear_arith)
                    requires
                        block * block <= 0x1_0000_0000u64,
                ;
            }
            let px: u64 = x0 + dx as u64;
            if px < width as u64 && py < height as u64 {
                let ghost (gx, gy) = (px as int, py as int);
                proof {
                    lemma_channel_index_bound(gx, gy, w as int, h as int, 0);
                    lemma_channel_index_bound(gx, gy, w as int, h as int, 3);
                    assert(gy * w + gx < b.len());
                }
                let row: usize = (py as u32) as usize * width as usize;
                let i: usize = (row + (px as u32) as usize) * 4;
                s0 = s0 + buf[i] as u64;
                s1 = s1 + buf[i + 1] as u64;
                s2 = s2 + buf[i + 2] as u64;
                s3 = s3 + buf[i + 3] as u64;
            }
            dx = dx + 1;
        }
        dy = dy + 1;
    }
    proof {
        lemma_rect_sum_bound(b, w, h, x0 as nat, y0 as nat, 0, block as nat, block as nat);
        lemma_rect_sum_bound(b, w, h, x0 as nat, y0 as nat, 1, block as nat, block as nat);
        lemma_rect_sum_bound(b, w, h, x0 as nat, y0 as nat, 2, block as nat, block as nat);
        lemma_rect_sum_bound(b, w, h, x0 as nat, y0 as nat, 3, block as nat, block as nat);
    }
    (s0, s1, s2, s3)
}

} // verus!
