//! What the proving circuit holds and checks, over plain integers: the
//! witness (pairs of original rows with the reduced row they average to and
//! the division remainders), the constraint each 2 x 2 block must meet,
//! and the public instance (the reduced image, one column per channel and
//! reduced pixel column).

use vstd::prelude::*;
use crate::mosaic::{
    block_rem,
    block_sum,
    buffer_fits,
    channel_index,
    exec,
    exec_mosaic,
    is_reduced,
    lemma_channel_index_bound,
    lemma_pixel_of_index,
    lemma_row_major,
    MosaicError,
};
use crate::session::{rows_used, Session, USABLE_ROWS};

verus! {

/// Side of the blocks that the constraint checks.
pub const BLOCK: u32 = 2;

/// One region of the circuit: original rows `2i` and `2i + 1` (RGBA bytes,
/// `width` pixels each), and reduced row `i` with its remainders (RGBA
/// order, `s_width` pixels each).
#[derive(Debug)]
pub struct RowPair {
    pub top: Vec<u8>,
    pub bottom: Vec<u8>,
    pub reduced: Vec<u8>,
    pub remainder: Vec<u32>,
}

/// The private witness of one proof: the row pairs of an image `width`
/// pixels wide, whose reduced image is `s_width` pixels wide.
#[derive(Debug)]
pub struct Witness {
    pub width: usize,
    pub s_width: usize,
    pub rows: Vec<RowPair>,
}

/// The constraint on channel `c` of block `j` of a row pair: the four original
/// values sum to four times the reduced value plus the remainder, and the
/// remainder is below the block area of four, so that the division is exact.
pub open spec fn block_constraint(row: RowPair, j: int, c: int) -> bool {
    &&& row.top@[channel_index(0, 2 * j, 0, c)] + row.top@[channel_index(0, 2 * j + 1, 0, c)]
        + row.bottom@[channel_index(0, 2 * j, 0, c)] + row.bottom@[channel_index(0, 2 * j + 1, 0, c)]
        == 4 * row.reduced@[channel_index(0, j, 0, c)] + row.remainder@[channel_index(0, j, 0, c)]
    &&& row.remainder@[channel_index(0, j, 0, c)] < 4
}

/// Whether a row pair has the wire counts of a circuit `width` original
/// pixels and `s_width` reduced pixels wide.
pub open spec fn row_shape(row: RowPair, width: nat, s_width: nat) -> bool {
    &&& row.top@.len() == width * 4
    &&& row.bottom@.len() == width * 4
    &&& row.reduced@.len() == s_width * 4
    &&& row.remainder@.len() == s_width * 4
}

impl Witness {
    /// Whether every row pair has the circuit's shape and meets the constraint on
    /// every channel of every block.
    pub open spec fn constraints_hold(&self) -> bool {
        &&& 2 * self.s_width <= self.width
        &&& forall|i: int|
            #![trigger self.rows@[i]]
            0 <= i < self.rows@.len() ==> {
                &&& row_shape(self.rows@[i], self.width as nat, self.s_width as nat)
                &&& forall|j: int, c: int|
                    #![trigger block_constraint(self.rows@[i], j, c)]
                    0 <= j < self.s_width && 0 <= c < 4 ==> block_constraint(self.rows@[i], j, c)
            }
    }

    /// Checks the witness against the constraints, as the constraint system would.
    pub fn satisfies_constraints(&self) -> (r: bool)
        ensures
            r == self.constraints_hold(),
    {
        if self.s_width > self.width / 2 {
            return false;
        }
        let width = self.width;
        let s_width = self.s_width;
        let mut i: usize = 0;
        while i < self.rows.len()
            invariant
                i <= self.rows@.len(),
                width == self.width,
                s_width == self.s_width,
                2 * s_width <= width,
                forall|k: int|
                    #![trigger self.rows@[k]]
                    0 <= k < i ==> {
                        &&& row_shape(self.rows@[k], width as nat, s_width as nat)
                        &&& forall|j: int, c: int|
                            #![trigger block_constraint(self.rows@[k], j, c)]
                            0 <= j < s_width && 0 <= c < 4 ==> block_constraint(self.rows@[k], j, c)
                    },
            decreases self.rows@.len() - i,
        {
            let row = &self.rows[i];
            if !row_pair_ok(row, width, s_width) {
                return false;
            }
            i = i + 1;
        }
        true
    }
}

/// Whether one row pair has the circuit's shape and meets the constraint.
#[verifier::rlimit(40)]
fn row_pair_ok(row: &RowPair, width: usize, s_width: usize) -> (r: bool)
    requires
        2 * s_width <= width,
    ensures
        r == (row_shape(*row, width as nat, s_width as nat) && forall|j: int, c: int|
            #![trigger block_constraint(*row, j, c)]
            0 <= j < s_width && 0 <= c < 4 ==> block_constraint(*row, j, c)),
{
    if row.top.len() % 4 != 0 || row.top.len() / 4 != width {
        return false;
    }
    if row.top.len() != width * 4 || row.bottom.len() != width * 4 || row.reduced.len() != s_width
        * 4 || row.remainder.len() != s_width * 4 {
        return false;
    }
    let mut j: usize = 0;
    while j < s_width
        invariant
            j <= s_width,
            2 * s_width <= width,
            width <= usize::MAX / 4,
            row_shape(*row, width as nat, s_width as nat),
            forall|jj: int, c: int|
                #![trigger block_constraint(*row, jj, c)]
                0 <= jj < j && 0 <= c < 4 ==> block_constraint(*row, jj, c),
        decreases s_width - j,
    {
        let mut c: usize = 0;
        while c < 4
            invariant
                j < s_width,
                c <= 4,
                2 * s_width <= width,
                width <= usize::MAX / 4,
                row_shape(*row, width as nat, s_width as nat),
                forall|jj: int, cc: int|
                    #![trigger block_constraint(*row, jj, cc)]
                    (0 <= jj < j && 0 <= cc < 4) || (jj == j && 0 <= cc < c) ==> block_constraint(
                        *row,
                        jj,
                        cc,
                    ),
            decreases 4 - c,
        {
            let left = 2 * j * 4 + c;
            let right = (2 * j + 1) * 4 + c;
            let sum: u64 = row.top[left] as u64 + row.top[right] as u64 + row.bottom[left] as u64
                + row.bottom[right] as u64;
            let claimed: u64 = 4 * row.reduced[j * 4 + c] as u64 + row.remainder[j * 4 + c] as u64;
            if sum != claimed || row.remainder[j * 4 + c] >= 4 {
                assert(!block_constraint(*row, j as int, c as int));
                return false;
            }
            c = c + 1;
        }
        j = j + 1;
    }
    true
}

/// Whether `wit` is the witness that the `width` x `height` RGBA image
/// `buf` gives: row pair `i` holds original rows `2i` and `2i + 1`, and the
/// downscale's reduced row `i` (by blocks of side two) with its remainders.
pub open spec fn is_witness_of(buf: Seq<u8>, width: nat, height: nat, wit: Witness) -> bool {
    &&& wit.width == width
    &&& wit.s_width == width / 2
    &&& wit.rows@.len() == height / 2
    &&& forall|i: int|
        #![trigger wit.rows@[i]]
        0 <= i < wit.rows@.len() ==> row_of(buf, width, height, wit.rows@[i], i)
}

/// Whether `row` is row pair `i` of the witness of the `width` x `height`
/// image `buf`.
pub open spec fn row_of(buf: Seq<u8>, width: nat, height: nat, row: RowPair, i: int) -> bool {
    let sw = width / 2;
    &&& row.top@ == buf.subrange(
        channel_index(width as int, 0, 2 * i, 0),
        channel_index(width as int, 0, 2 * i + 1, 0),
    )
    &&& row.bottom@ == buf.subrange(
        channel_index(width as int, 0, 2 * i + 1, 0),
        channel_index(width as int, 0, 2 * i + 2, 0),
    )
    &&& row.reduced@.len() == sw * 4
    &&& row.remainder@.len() == sw * 4
    &&& forall|j: int, c: int|
        #![trigger row.reduced@[channel_index(0, j, 0, c)]]
        0 <= j < sw && 0 <= c < 4 ==> row.reduced@[channel_index(0, j, 0, c)] == block_sum(
            buf,
            width,
            height,
            2,
            j as nat,
            i as nat,
            c as nat,
        ) / 4 && row.remainder@[channel_index(0, j, 0, c)] == block_rem(
            buf,
            width,
            height,
            2,
            j as nat,
            i as nat,
            c as nat,
        )
}

/// The bytes `v[start .. start + len]`.
fn copy_range(v: &Vec<u8>, start: usize, len: usize) -> (r: Vec<u8>)
    requires
        start + len <= v@.len(),
    ensures
        r@ == v@.subrange(start as int, start + len),
{
    let n = v.len();
    let mut r: Vec<u8> = Vec::new();
    let mut k: usize = 0;
    while k < len
        invariant
            k <= len,
            n == v@.len(),
            start + len <= n,
            r@ == v@.subrange(start as int, start + k),
        decreases len - k,
    {
        r.push(v[start + k]);
        k = k + 1;
        assert(r@ =~= v@.subrange(start as int, start + k));
    }
    r
}

proof fn lemma_row_pair_bounds(i: int, width: int, height: int)
    requires
        0 <= i,
        2 * i + 1 < height,
        0 <= width,
    ensures
        0 <= channel_index(width, 0, 2 * i, 0),
        channel_index(width, 0, 2 * i + 1, 0) == channel_index(width, 0, 2 * i, 0) + width * 4,
        channel_index(width, 0, 2 * i + 2, 0) == channel_index(width, 0, 2 * i + 1, 0) + width * 4,
        channel_index(width, 0, 2 * i + 2, 0) <= width * height * 4,
{
    assert(0 <= (2 * i) * width) by (nonlinear_arith)
        requires
            0 <= i,
            0 <= width,
    ;
    assert((2 * i + 1) * width == (2 * i) * width + width) by (nonlinear_arith);
    assert((2 * i + 2) * width == (2 * i + 1) * width + width) by (nonlinear_arith);
    assert((2 * i + 2) * width <= width * height) by (nonlinear_arith)
        requires
            2 * i + 2 <= height,
            0 <= width,
    ;
}

proof fn lemma_reduced_row_bounds(i: int, sw: int, sh: int)
    requires
        0 <= i < sh,
        0 <= sw,
    ensures
        0 <= i * sw,
        (i + 1) * sw == i * sw + sw,
        (i + 1) * sw <= sh * sw,
{
    assert(0 <= i * sw) by (nonlinear_arith)
        requires
            0 <= i,
            0 <= sw,
    ;
    assert((i + 1) * sw == i * sw + sw) by (nonlinear_arith);
    assert((i + 1) * sw <= sh * sw) by (nonlinear_arith)
        requires
            i + 1 <= sh,
            0 <= sw,
    ;
}

/// Lays the `width` x `height` RGBA image `buf` out as the circuit's witness:
/// its row pairs, with the reduced rows and remainders of its downscale by
/// blocks of side two.
pub fn build_witness(buf: Vec<u8>, width: u32, height: u32) -> (r: Result<Witness, MosaicError>)
    ensures
        r.is_ok() <==> buf@.len() == width * height * 4,
        r.is_err() ==> r == Err::<Witness, MosaicError>(MosaicError::BufferSizeMismatch),
        r.is_ok() ==> is_witness_of(buf@, width as nat, height as nat, r.unwrap()),
        r.is_ok() ==> r.unwrap().constraints_hold(),
{
    if !buffer_fits(buf.len(), width, height) {
        return Err(MosaicError::BufferSizeMismatch);
    }
    let ghost b = buf@;
    let source = buf.clone();
    let (image, red, green, blue, alpha) = match exec(buf, BLOCK, width, height) {
        Ok(t) => t,
        Err(e) => return Err(e),
    };
    let w = width as usize;
    let sw = image.width as usize;
    let sh = image.height as usize;
    let ghost (wn, hn) = (width as nat, height as nat);
    proof {
        assert(sw * sh * 4 == image.data@.len()) by (nonlinear_arith)
            requires
                image.data@.len() == image.width * image.height * 4,
                sw == image.width,
                sh == image.height,
        ;
        assert(sw * sh == red@.len()) by (nonlinear_arith)
            requires
                red@.len() == image.width * image.height,
                sw == image.width,
                sh == image.height,
        ;
    }
    let n = source.len();
    let nred = red.len();
    let nd = image.data.len();
    let mut rows: Vec<RowPair> = Vec::new();
    let mut i: usize = 0;
    while i < sh
        invariant
            i <= sh,
            n == b.len(),
            nred == red@.len(),
            source@ == b,
            b.len() == wn * hn * 4,
            wn == width,
            hn == height,
            w == width,
            sw == wn / 2,
            sh == hn / 2,
            image.data@.len() == sw * sh * 4,
            red@.len() == sw * sh,
            green@.len() == sw * sh,
            blue@.len() == sw * sh,
            alpha@.len() == sw * sh,
            is_reduced(b, wn, hn, 2, image.data@),
            forall|x: nat, y: nat|
                #![trigger red@[(y * image.width + x) as int]]
                x < image.width && y < image.height ==> {
                    &&& red@[(y * image.width + x) as int] == block_rem(b, wn, hn, 2, x, y, 0)
                    &&& green@[(y * image.width + x) as int] == block_rem(b, wn, hn, 2, x, y, 1)
                    &&& blue@[(y * image.width + x) as int] == block_rem(b, wn, hn, 2, x, y, 2)
                    &&& alpha@[(y * image.width + x) as int] == block_rem(b, wn, hn, 2, x, y, 3)
                },
            image.width == sw,
            image.height == sh,
            nd == image.data@.len(),
            rows@.len() == i,
            forall|k: int|
                #![trigger rows@[k]]
                0 <= k < i ==> row_of(b, wn, hn, rows@[k], k),
        decreases sh - i,
    {
        proof {
            lemma_row_pair_bounds(i as int, w as int, hn as int);
            lemma_reduced_row_bounds(i as int, sw as int, sh as int);
            assert(2 * i * w * 4 == channel_index(w as int, 0, 2 * i, 0));
            assert(sh * sw == sw * sh) by (nonlinear_arith);
            assert(i * sw * 4 + sw * 4 <= nd);
        }
        let start: usize = 2 * i * w * 4;
        let top = copy_range(&source, start, w * 4);
        let bottom = copy_range(&source, start + w * 4, w * 4);
        let reduced = copy_range(&image.data, i * sw * 4, sw * 4);
        let mut remainder: Vec<u32> = Vec::new();
        let mut j: usize = 0;
        while j < sw
            invariant
                j <= sw,
                i < sh,
                nred == red@.len(),
                0 <= i * sw,
                (i + 1) * sw <= sh * sw,
                (i + 1) * sw == i * sw + sw,
                red@.len() == sw * sh,
                green@.len() == sw * sh,
                blue@.len() == sw * sh,
                alpha@.len() == sw * sh,
                remainder@.len() == 4 * j,
                forall|jj: int, c: int|
                    #![trigger remainder@[channel_index(0, jj, 0, c)]]
                    0 <= jj < j && 0 <= c < 4 ==> remainder@[channel_index(0, jj, 0, c)] == (if c
                        == 0 {
                        red@[i * sw + jj]
                    } else if c == 1 {
                        green@[i * sw + jj]
                    } else if c == 2 {
                        blue@[i * sw + jj]
                    } else {
                        alpha@[i * sw + jj]
                    }),
            decreases sw - j,
        {
            let p = i * sw + j;
            remainder.push(red[p]);
            remainder.push(green[p]);
            remainder.push(blue[p]);
            remainder.push(alpha[p]);
            j = j + 1;
        }
        let ghost row = RowPair { top, bottom, reduced, remainder };
        proof {
            assert forall|jj: int, c: int|
                #![trigger row.reduced@[channel_index(0, jj, 0, c)]]
                0 <= jj < sw && 0 <= c < 4 implies row.reduced@[channel_index(0, jj, 0, c)]
                    == block_sum(b, wn, hn, 2, jj as nat, i as nat, c as nat) / 4
                    && row.remainder@[channel_index(0, jj, 0, c)] == block_rem(
                    b,
                    wn,
                    hn,
                    2,
                    jj as nat,
                    i as nat,
                    c as nat,
                ) by {
                assert(channel_index(sw as int, jj, i as int, c) == i * sw * 4 + channel_index(
                    0,
                    jj,
                    0,
                    c,
                ));
                assert(image.data@[channel_index(sw as int, jj, i as int, c)] == block_sum(
                    b,
                    wn,
                    hn,
                    2,
                    jj as nat,
                    i as nat,
                    c as nat,
                ) / (2 * 2));
                assert(red@[(i * image.width + jj) as int] == block_rem(b, wn, hn, 2, jj as nat, i as nat, 0));
                assert(green@[(i * image.width + jj) as int] == block_rem(b, wn, hn, 2, jj as nat, i as nat, 1));
                assert(blue@[(i * image.width + jj) as int] == block_rem(b, wn, hn, 2, jj as nat, i as nat, 2));
                assert(alpha@[(i * image.width + jj) as int] == block_rem(b, wn, hn, 2, jj as nat, i as nat, 3));
            }
            assert(row_of(b, wn, hn, row, i as int));
        }
        rows.push(RowPair { top, bottom, reduced, remainder });
        i = i + 1;
    }
    let wit = Witness { width: w, s_width: sw, rows };
    proof {
        lemma_witness_meets_constraints(b, wn, hn, wit);
    }
    Ok(wit)
}

/// Whether `cols` is the public instance of the `s_width` x `s_height`
/// reduced RGBA image `data`: one column per channel and reduced pixel column,
/// red columns first, then green, blue and alpha; entry `y` of the column of
/// channel `c` and pixel column `x` is channel `c` of reduced pixel `(x, y)`.
pub open spec fn is_instance(data: Seq<u8>, s_width: nat, s_height: nat, cols: Seq<Seq<u8>>) -> bool {
    &&& cols.len() == 4 * s_width
    &&& forall|c: int, x: int|
        #![trigger cols[c * s_width + x]]
        0 <= c < 4 && 0 <= x < s_width ==> {
            &&& cols[c * s_width + x].len() == s_height
            &&& forall|y: int|
                #![trigger cols[c * s_width + x][y]]
                0 <= y < s_height ==> cols[c * s_width + x][y] == data[channel_index(
                    s_width as int,
                    x,
                    y,
                    c,
                )]
        }
}

/// The values of a list of instance columns.
pub open spec fn columns_view(cols: Seq<Vec<u8>>) -> Seq<Seq<u8>> {
    cols.map_values(|v: Vec<u8>| v@)
}

/// Whether each reduced cell of the witness equals the public instance cell
/// it is tied to: channel `c` of reduced pixel `j` in row pair `i` is entry `i`
/// of the column of channel `c` and pixel column `j`.
pub open spec fn exposes(wit: Witness, cols: Seq<Seq<u8>>) -> bool {
    forall|i: int, j: int, c: int|
        #![trigger wit.rows@[i].reduced@[channel_index(0, j, 0, c)]]
        0 <= i < wit.rows@.len() && 0 <= j < wit.s_width && 0 <= c < 4
            ==> wit.rows@[i].reduced@[channel_index(0, j, 0, c)] == cols[c * wit.s_width + j][i]
}

/// Whether the original rows of `wit` are those of the `width` x `height`
/// RGBA image `buf`, whatever its reduced cells and remainders hold.
pub open spec fn carries_image(buf: Seq<u8>, width: nat, height: nat, wit: Witness) -> bool {
    &&& wit.width == width
    &&& wit.s_width == width / 2
    &&& wit.rows@.len() == height / 2
    &&& forall|i: int|
        #![trigger wit.rows@[i]]
        0 <= i < wit.rows@.len() ==> {
            &&& wit.rows@[i].top@ == buf.subrange(
                channel_index(width as int, 0, 2 * i, 0),
                channel_index(width as int, 0, 2 * i + 1, 0),
            )
            &&& wit.rows@[i].bottom@ == buf.subrange(
                channel_index(width as int, 0, 2 * i + 1, 0),
                channel_index(width as int, 0, 2 * i + 2, 0),
            )
        }
}

/// A block of side two lying inside the image sums its four pixels.
proof fn lemma_block_sum_two(buf: Seq<u8>, width: nat, height: nat, x: int, y: int, c: nat)
    requires
        0 <= x,
        0 <= y,
        2 * x + 1 < width,
        2 * y + 1 < height,
    ensures
        block_sum(buf, width, height, 2, x as nat, y as nat, c) == buf[channel_index(
            width as int,
            2 * x,
            2 * y,
            c as int,
        )] + buf[channel_index(width as int, 2 * x + 1, 2 * y, c as int)] + buf[channel_index(
            width as int,
            2 * x,
            2 * y + 1,
            c as int,
        )] + buf[channel_index(width as int, 2 * x + 1, 2 * y + 1, c as int)],
{
    reveal_with_fuel(crate::mosaic::rect_sum, 3);
    reveal_with_fuel(crate::mosaic::strip_sum, 3);
}

/// Cell `(2j + dx, row)` of row pair `i`, read from the image.
proof fn lemma_row_cell(buf: Seq<u8>, width: nat, height: nat, i: int, j: int, dx: int, dy: int, c: int)
    requires
        buf.len() == width * height * 4,
        0 <= i,
        2 * i + 1 < height,
        0 <= j,
        2 * j + 1 < width,
        0 <= dx < 2,
        0 <= dy < 2,
        0 <= c < 4,
    ensures
        buf.subrange(
            channel_index(width as int, 0, 2 * i + dy, 0),
            channel_index(width as int, 0, 2 * i + dy + 1, 0),
        )[channel_index(0, 2 * j + dx, 0, c)] == buf[channel_index(
            width as int,
            2 * j + dx,
            2 * i + dy,
            c,
        )],
        channel_index(width as int, 0, 2 * i + dy + 1, 0) - channel_index(width as int, 0, 2 * i + dy, 0) == width * 4,
{
    lemma_row_pair_bounds(i, width as int, height as int);
}

/// The witness laid out from an image meets the constraint on every block
/// and channel.
proof fn lemma_witness_meets_constraints(buf: Seq<u8>, width: nat, height: nat, wit: Witness)
    requires
        buf.len() == width * height * 4,
        is_witness_of(buf, width, height, wit),
    ensures
        wit.constraints_hold(),
{
    assert forall|i: int|
        #![trigger wit.rows@[i]]
        0 <= i < wit.rows@.len() implies {
        &&& row_shape(wit.rows@[i], wit.width as nat, wit.s_width as nat)
        &&& forall|j: int, c: int|
            #![trigger block_constraint(wit.rows@[i], j, c)]
            0 <= j < wit.s_width && 0 <= c < 4 ==> block_constraint(wit.rows@[i], j, c)
    } by {
        lemma_row_pair_bounds(i, width as int, height as int);
        assert forall|j: int, c: int|
            #![trigger block_constraint(wit.rows@[i], j, c)]
            0 <= j < wit.s_width && 0 <= c < 4 implies block_constraint(wit.rows@[i], j, c) by {
            lemma_row_cell(buf, width, height, i, j, 0, 0, c);
            lemma_row_cell(buf, width, height, i, j, 1, 0, c);
            lemma_row_cell(buf, width, height, i, j, 0, 1, c);
            lemma_row_cell(buf, width, height, i, j, 1, 1, c);
            lemma_block_sum_two(buf, width, height, j, i, c as nat);
            let row = wit.rows@[i];
            assert(row.reduced@[channel_index(0, j, 0, c)] == block_sum(
                buf,
                width,
                height,
                2,
                j as nat,
                i as nat,
                c as nat,
            ) / 4);
        }
    }
}

/// Completeness of the circuit's relation: the witness laid out from an
/// image meets the constraint on every block and channel, and its reduced
/// cells equal the public instance built from the image's downscale by
/// blocks of side two.
pub proof fn lemma_witness_complete(
    buf: Seq<u8>,
    width: nat,
    height: nat,
    wit: Witness,
    reduced: Seq<u8>,
    cols: Seq<Seq<u8>>,
)
    requires
        buf.len() == width * height * 4,
        is_witness_of(buf, width, height, wit),
        is_reduced(buf, width, height, 2, reduced),
        is_instance(reduced, width / 2, height / 2, cols),
    ensures
        wit.constraints_hold(),
        exposes(wit, cols),
{
    let sw = width / 2;
    lemma_witness_meets_constraints(buf, width, height, wit);
    assert forall|i: int, j: int, c: int|
        #![trigger wit.rows@[i].reduced@[channel_index(0, j, 0, c)]]
        0 <= i < wit.rows@.len() && 0 <= j < wit.s_width && 0 <= c < 4
            implies wit.rows@[i].reduced@[channel_index(0, j, 0, c)] == cols[c * wit.s_width + j][i] by {
        let row = wit.rows@[i];
        assert(row.reduced@[channel_index(0, j, 0, c)] == block_sum(
            buf,
            width,
            height,
            2,
            j as nat,
            i as nat,
            c as nat,
        ) / 4);
        assert(reduced[channel_index(sw as int, j, i, c)] == block_sum(
            buf,
            width,
            height,
            2,
            j as nat,
            i as nat,
            c as nat,
        ) / (2 * 2));
        assert(cols[c * sw + j][i] == reduced[channel_index(sw as int, j, i, c)]);
    }
}

/// The constraint fixes the reduced image: in a witness that carries an image
/// and meets the constraint, each reduced cell is the floor average of its
/// block, as the downscale computes it.
pub proof fn lemma_constraint_fixes_reduced(buf: Seq<u8>, width: nat, height: nat, wit: Witness)
    requires
        buf.len() == width * height * 4,
        carries_image(buf, width, height, wit),
        wit.constraints_hold(),
    ensures
        forall|i: int, j: int, c: int|
            #![trigger wit.rows@[i].reduced@[channel_index(0, j, 0, c)]]
            0 <= i < wit.rows@.len() && 0 <= j < wit.s_width && 0 <= c < 4
                ==> wit.rows@[i].reduced@[channel_index(0, j, 0, c)] == block_sum(
                buf,
                width,
                height,
                2,
                j as nat,
                i as nat,
                c as nat,
            ) / 4,
{
    assert forall|i: int, j: int, c: int|
        #![trigger wit.rows@[i].reduced@[channel_index(0, j, 0, c)]]
        0 <= i < wit.rows@.len() && 0 <= j < wit.s_width && 0 <= c < 4
            implies wit.rows@[i].reduced@[channel_index(0, j, 0, c)] == block_sum(
            buf,
            width,
            height,
            2,
            j as nat,
            i as nat,
            c as nat,
        ) / 4 by {
        let row = wit.rows@[i];
        assert(block_constraint(row, j, c));
        lemma_row_cell(buf, width, height, i, j, 0, 0, c);
        lemma_row_cell(buf, width, height, i, j, 1, 0, c);
        lemma_row_cell(buf, width, height, i, j, 0, 1, c);
        lemma_row_cell(buf, width, height, i, j, 1, 1, c);
        lemma_block_sum_two(buf, width, height, j, i, c as nat);
        let s = block_sum(buf, width, height, 2, j as nat, i as nat, c as nat) as int;
        let q = row.reduced@[channel_index(0, j, 0, c)] as int;
        let r = row.remainder@[channel_index(0, j, 0, c)] as int;
        vstd::arithmetic::div_mod::lemma_fundamental_div_mod_converse(s, 4, q, r);
    }
}


/// Column `x` of channel `c` of the public instance of `data`.
spec fn column_ok(data: Seq<u8>, s_width: nat, s_height: nat, col: Seq<u8>, c: int, x: int) -> bool {
    &&& col.len() == s_height
    &&& forall|y: int|
        #![trigger col[y]]
        0 <= y < s_height ==> col[y] == data[channel_index(s_width as int, x, y, c)]
}

/// Builds the public instance of the `s_width` x `s_height` reduced RGBA
/// image `reduced`: one column per channel and reduced pixel column, red
/// columns first, then green, blue and alpha, each running down the image.
pub fn public_instance(reduced: &Vec<u8>, s_width: u32, s_height: u32) -> (r: Result<
    Vec<Vec<u8>>,
    MosaicError,
>)
    ensures
        r.is_ok() <==> reduced@.len() == s_width * s_height * 4,
        r.is_err() ==> r == Err::<Vec<Vec<u8>>, MosaicError>(MosaicError::BufferSizeMismatch),
        r.is_ok() ==> is_instance(reduced@, s_width as nat, s_height as nat, columns_view(r.unwrap()@)),
{
    if !buffer_fits(reduced.len(), s_width, s_height) {
        return Err(MosaicError::BufferSizeMismatch);
    }
    let n = reduced.len();
    let ghost d = reduced@;
    let ghost (swn, shn) = (s_width as nat, s_height as nat);
    let sw = s_width as usize;
    let sh = s_height as usize;
    let mut cols: Vec<Vec<u8>> = Vec::new();
    let mut c: usize = 0;
    while c < 4
        invariant
            c <= 4,
            n == d.len(),
            d == reduced@,
            d.len() == swn * shn * 4,
            swn == sw,
            shn == sh,
            cols@.len() == c * sw,
            forall|k: int|
                #![trigger cols@[k]]
                0 <= k < cols@.len() ==> column_ok(d, swn, shn, cols@[k]@, k / (sw as int), k % (sw as int)),
        decreases 4 - c,
    {
        let mut x: usize = 0;
        while x < sw
            invariant
                c < 4,
                x <= sw,
                n == d.len(),
                d == reduced@,
                d.len() == swn * shn * 4,
                swn == sw,
                shn == sh,
                cols@.len() == c * sw + x,
                forall|k: int|
                    #![trigger cols@[k]]
                    0 <= k < cols@.len() ==> column_ok(d, swn, shn, cols@[k]@, k / (sw as int), k % (sw as int)),
            decreases sw - x,
        {
            let mut col: Vec<u8> = Vec::new();
            let mut y: usize = 0;
            while y < sh
                invariant
                    c < 4,
                    x < sw,
                    y <= sh,
                    n == d.len(),
                    d == reduced@,
                    d.len() == swn * shn * 4,
                    swn == sw,
                    shn == sh,
                    col@.len() == y,
                    forall|yy: int|
                        #![trigger col@[yy]]
                        0 <= yy < y ==> col@[yy] == d[channel_index(sw as int, x as int, yy, c as int)],
                decreases sh - y,
            {
                proof {
                    lemma_channel_index_bound(x as int, y as int, sw as int, sh as int, c as int);
                }
                let v = reduced[(y * sw + x) * 4 + c];
                col.push(v);
                y = y + 1;
            }
            proof {
                lemma_row_major(x as nat, c as nat, swn);
            }
            cols.push(col);
            x = x + 1;
        }
        proof {
            assert(c * sw + sw == (c + 1) * sw) by (nonlinear_arith);
        }
        c = c + 1;
    }
    proof {
        let v = columns_view(cols@);
        assert forall|c: int, x: int|
            #![trigger v[c * swn + x]]
            0 <= c < 4 && 0 <= x < swn implies {
            &&& v[c * swn + x].len() == shn
            &&& forall|y: int|
                #![trigger v[c * swn + x][y]]
                0 <= y < shn ==> v[c * swn + x][y] == d[channel_index(swn as int, x, y, c)]
        } by {
            lemma_row_major(x as nat, c as nat, swn);
            assert(c * swn + x < 4 * swn) by (nonlinear_arith)
                requires
                    0 <= c < 4,
                    0 <= x < swn,
            ;
            assert(column_ok(d, swn, shn, cols@[c * swn + x]@, c, x));
        }
        assert(4 * swn == 4 * sw);
    }
    Ok(cols)
}

/// The public instance reflects every byte of the reduced image: two reduced
/// images of the same dimensions that differ anywhere have different
/// instances, so a proof bound to one instance does not carry over to a
/// changed image.
pub proof fn lemma_instance_detects_change(
    d1: Seq<u8>,
    d2: Seq<u8>,
    s_width: nat,
    s_height: nat,
    i1: Seq<Seq<u8>>,
    i2: Seq<Seq<u8>>,
)
    requires
        d1.len() == s_width * s_height * 4,
        d2.len() == s_width * s_height * 4,
        is_instance(d1, s_width, s_height, i1),
        is_instance(d2, s_width, s_height, i2),
        d1 != d2,
    ensures
        i1 != i2,
{
    if i1 == i2 {
        assert forall|k: int| 0 <= k < d1.len() implies d1[k] == d2[k] by {
            let p = k / 4;
            lemma_pixel_of_index(p, s_width, s_height);
            let (x, y, c) = (p % (s_width as int), p / (s_width as int), k % 4);
            assert(k == channel_index(s_width as int, x, y, c));
            assert(i1[c * s_width + x][y] == d1[k]);
            assert(i2[c * s_width + x][y] == d2[k]);
        }
        assert(d1 =~= d2);
    }
}

/// The public instance binds the reduced image's dimensions: instances of
/// reduced images of different width or height differ, unless both are zero
/// pixels wide (then both are empty).
pub proof fn lemma_instance_binds_dimensions(
    d1: Seq<u8>,
    w1: nat,
    h1: nat,
    i1: Seq<Seq<u8>>,
    d2: Seq<u8>,
    w2: nat,
    h2: nat,
    i2: Seq<Seq<u8>>,
)
    requires
        is_instance(d1, w1, h1, i1),
        is_instance(d2, w2, h2, i2),
        w1 != w2 || h1 != h2,
        w1 > 0 || w2 > 0,
    ensures
        i1 != i2,
{
    if w1 == w2 {
        let z: int = 0;
        assert(i1[z * w1 + z].len() == h1);
        assert(i2[z * w2 + z].len() == h2);
    }
}


/// Everything a proof of one image is made from: the session of its
/// dimensions, the private witness, the reduced image and the public
/// instance built from it.
#[derive(Debug)]
pub struct ProofInputs {
    pub session: Session,
    pub witness: Witness,
    pub reduced: Vec<u8>,
    pub instance: Vec<Vec<u8>>,
}

/// Prepares the proof of the `width` x `height` RGBA image `buf` from one
/// downscale by blocks of side two: the witness meets the constraints, and
/// its reduced cells are the public instance of the reduced image.
pub fn proof_inputs(buf: Vec<u8>, width: u32, height: u32) -> (r: Result<ProofInputs, MosaicError>)
    ensures
        r.is_ok() <==> buf@.len() == width * height * 4 && rows_used(height as nat) <= USABLE_ROWS,
        buf@.len() != width * height * 4 ==> r == Err::<ProofInputs, MosaicError>(
            MosaicError::BufferSizeMismatch,
        ),
        buf@.len() == width * height * 4 && rows_used(height as nat) > USABLE_ROWS ==> r == Err::<
            ProofInputs,
            MosaicError,
        >(MosaicError::ExceedsCapacity),
        r.is_ok() ==> {
            let p = r.unwrap();
            &&& p.session.wf()
            &&& p.session.width == width
            &&& p.session.height == height
            &&& is_witness_of(buf@, width as nat, height as nat, p.witness)
            &&& p.witness.constraints_hold()
            &&& is_reduced(buf@, width as nat, height as nat, 2, p.reduced@)
            &&& is_instance(
                p.reduced@,
                p.session.s_width as nat,
                p.session.s_height as nat,
                columns_view(p.instance@),
            )
            &&& exposes(p.witness, columns_view(p.instance@))
        },
{
    let ghost b = buf@;
    let witness = match build_witness(buf.clone(), width, height) {
        Ok(w) => w,
        Err(e) => return Err(e),
    };
    let session = match Session::new(width, height) {
        Ok(s) => s,
        Err(e) => return Err(e),
    };
    let reduced = match exec_mosaic(buf, BLOCK, width, height) {
        Ok(v) => v,
        Err(e) => return Err(e),
    };
    let instance = match public_instance(&reduced, session.s_width, session.s_height) {
        Ok(cols) => cols,
        Err(e) => return Err(e),
    };
    proof {
        lemma_witness_complete(
            b,
            width as nat,
            height as nat,
            witness,
            reduced@,
            columns_view(instance@),
        );
    }
    Ok(ProofInputs { session, witness, reduced, instance })
}

} // verus!
