//! The image buffer: rows of elements in one of three storage layouts,
//! typed row access, and export into flat byte buffers.

use crate::types::{grid, levels, PILError, PILMode, PILType, Sample};
use vstd::arithmetic::div_mod::{
    lemma_div_denominator, lemma_fundamental_div_mod_converse,
};
use vstd::prelude::*;

verus! {

/// What an image holds: its mode, its dimensions, and the level of every
/// stored element. Row `y` lists the elements of its pixels from left to
/// right, `mode.lanes()` elements to a pixel.
#[verifier::ext_equal]
pub struct Raster {
    pub mode: PILMode,
    pub width: int,
    pub height: int,
    pub samples: Seq<Seq<int>>,
}

impl Raster {
    /// Elements in one row.
    pub open spec fn row_len(self) -> int {
        self.mode.row_elements(self.width)
    }

    /// Bytes in one row.
    pub open spec fn line_size(self) -> int {
        self.mode.line_bytes(self.width)
    }

    /// The dimensions are positive, a row's byte count fits in `i32`,
    /// every row has the same length, and every element lies in the range
    /// of the element type.
    pub open spec fn valid(self) -> bool {
        &&& 0 < self.width
        &&& 0 < self.height <= i32::MAX
        &&& self.line_size() <= i32::MAX
        &&& self.samples.len() == self.height
        &&& forall|y: int|
            0 <= y < self.height ==> (#[trigger] self.samples[y]).len() == self.row_len()
        &&& forall|y: int, k: int|
            0 <= y < self.height && 0 <= k < self.row_len() ==> self.mode.element().lowest() <= (
            #[trigger] self.samples[y][k]) <= self.mode.element().highest()
    }

    /// The image of the given mode and dimensions whose elements are all
    /// zero.
    pub open spec fn blank(mode: PILMode, width: int, height: int) -> Raster {
        Raster {
            mode,
            width,
            height,
            samples: Seq::new(
                height as nat,
                |y: int|
                    Seq::new(mode.row_elements(width) as nat, |k: int| 0int),
            ),
        }
    }

    /// The same image with row `y` replaced.
    pub open spec fn with_row(self, y: int, row: Seq<int>) -> Raster {
        Raster { samples: self.samples.update(y, row), ..self }
    }

    /// The number of channel values in the image.
    pub open spec fn export_len(self) -> int {
        self.mode.channels() * (self.width * self.height)
    }

    /// The channel values in pixel-major order: the channels of a pixel
    /// side by side, pixels from left to right, rows from top to bottom.
    pub open spec fn interleaved(self) -> Seq<u8> {
        Seq::new(
            self.export_len() as nat,
            |i: int|
                self.samples[i / (self.mode.channels() * self.width)][((i / self.mode.channels())
                    % self.width) * self.mode.pixel_size() + i % self.mode.channels()] as u8,
        )
    }

    /// The channel values in channel-major order: one plane per channel,
    /// each plane holding its rows from top to bottom.
    pub open spec fn planar(self) -> Seq<u8> {
        Seq::new(
            self.export_len() as nat,
            |i: int|
                self.samples[(i / self.width) % self.height][(i % self.width)
                    * self.mode.pixel_size() + i / (self.width * self.height)] as u8,
        )
    }
}

/// Channel `c` of pixel `x` in row `y` stands at position
/// `c + channels * (x + width * y)` of the pixel-major order.
pub proof fn lemma_interleaved_index(ch: int, w: int, y: int, x: int, c: int)
    requires
        0 <= c < ch,
        0 <= x < w,
        0 <= y,
    ensures
        (c + ch * (x + w * y)) / (ch * w) == y,
        ((c + ch * (x + w * y)) / ch) % w == x,
        (c + ch * (x + w * y)) % ch == c,
        c + ch * (x + w * y) >= 0,
{
    let p = x + w * y;
    let o = c + ch * p;
    assert(w * y >= 0) by (nonlinear_arith)
        requires
            w > 0,
            y >= 0,
    ;
    assert(ch * p >= 0) by (nonlinear_arith)
        requires
            ch > 0,
            p >= 0,
    ;
    lemma_fundamental_div_mod_converse(o, ch, p, c);
    lemma_fundamental_div_mod_converse(p, w, y, x);
    lemma_div_denominator(o, ch, w);
}

/// Pixel `x` of row `y` in the plane of channel `c` stands at position
/// `x + width * (y + c * height)` of the channel-major order.
pub proof fn lemma_planar_index(h: int, w: int, y: int, x: int, c: int)
    requires
        0 <= c,
        0 <= x < w,
        0 <= y < h,
    ensures
        (x + w * (y + c * h)) / (w * h) == c,
        ((x + w * (y + c * h)) / w) % h == y,
        (x + w * (y + c * h)) % w == x,
        x + w * (y + c * h) >= 0,
{
    let p = y + c * h;
    let o = x + w * p;
    assert(c * h >= 0) by (nonlinear_arith)
        requires
            h > 0,
            c >= 0,
    ;
    assert(w * p >= 0) by (nonlinear_arith)
        requires
            w > 0,
            p >= 0,
    ;
    lemma_fundamental_div_mod_converse(o, w, p, x);
    lemma_fundamental_div_mod_converse(p, h, c, y);
    lemma_div_denominator(o, w, h);
}

/// The pixel-major order holds channel `c` of pixel `x` in row `y` at
/// position `c + channels * (x + width * y)`.
pub proof fn lemma_interleaved_at(r: Raster, y: int, x: int, c: int)
    requires
        r.valid(),
        0 <= y < r.height,
        0 <= x < r.width,
        0 <= c < r.mode.channels(),
    ensures
        0 <= c + r.mode.channels() * (x + r.width * y) < r.export_len(),
        r.interleaved()[c + r.mode.channels() * (x + r.width * y)] == r.samples[y][c
            + r.mode.pixel_size() * x] as u8,
{
    lemma_interleaved_index(r.mode.channels(), r.width, y, x, c);
    lemma_interleaved_bound(r.mode.channels(), r.width, r.height, y, x, c);
    assert(x * r.mode.pixel_size() == r.mode.pixel_size() * x) by (nonlinear_arith);
}

/// The channel-major order holds pixel `x` of row `y` in the plane of
/// channel `c` at position `x + width * (y + c * height)`.
pub proof fn lemma_planar_at(r: Raster, y: int, x: int, c: int)
    requires
        r.valid(),
        0 <= y < r.height,
        0 <= x < r.width,
        0 <= c < r.mode.channels(),
    ensures
        0 <= x + r.width * (y + c * r.height) < r.export_len(),
        r.planar()[x + r.width * (y + c * r.height)] == r.samples[y][c + r.mode.pixel_size()
            * x] as u8,
{
    lemma_planar_index(r.height, r.width, y, x, c);
    lemma_planar_bound(r.mode.channels(), r.width, r.height, y, x, c);
    assert(x * r.mode.pixel_size() == r.mode.pixel_size() * x) by (nonlinear_arith);
}

/// Every position of the pixel-major order lies below the number of
/// channel values.
pub proof fn lemma_interleaved_bound(ch: int, w: int, h: int, y: int, x: int, c: int)
    requires
        0 <= c < ch,
        0 <= x < w,
        0 <= y < h,
    ensures
        c + ch * (x + w * y) < ch * (w * h),
{
    assert(x + w * y <= w * h - 1) by (nonlinear_arith)
        requires
            0 <= x < w,
            0 <= y < h,
    ;
    assert(ch * (x + w * y) <= ch * (w * h - 1)) by (nonlinear_arith)
        requires
            0 < ch,
            x + w * y <= w * h - 1,
    ;
    assert(ch * (w * h - 1) == ch * (w * h) - ch) by (nonlinear_arith);
}

/// Every position of the channel-major order lies below the number of
/// channel values.
pub proof fn lemma_planar_bound(ch: int, w: int, h: int, y: int, x: int, c: int)
    requires
        0 <= c < ch,
        0 <= x < w,
        0 <= y < h,
    ensures
        x + w * (y + c * h) < ch * (w * h),
{
    assert(y + c * h <= ch * h - 1) by (nonlinear_arith)
        requires
            0 <= c < ch,
            0 <= y < h,
    ;
    assert(w * (y + c * h) <= w * (ch * h - 1)) by (nonlinear_arith)
        requires
            0 < w,
            y + c * h <= ch * h - 1,
    ;
    assert(w * (ch * h - 1) == ch * (w * h) - w) by (nonlinear_arith);
}

/// Replacing a row by stored elements of the image's type, as many as the
/// row had, keeps an image valid.
pub proof fn lemma_with_row_valid<T: Sample>(r: Raster, y: int, row: Seq<T>)
    requires
        r.valid(),
        0 <= y < r.height,
        T::kind() == r.mode.element(),
    ensures
        row.len() == r.row_len() ==> r.with_row(y, levels(row)).valid(),
{
    if row.len() == r.row_len() {
        let n = r.with_row(y, levels(row));
        assert forall|j: int| 0 <= j < n.height implies (#[trigger] n.samples[j]).len()
            == n.row_len() by {
            if j != y {
                assert(n.samples[j] == r.samples[j]);
            }
        }
        assert forall|j: int, k: int| 0 <= j < n.height && 0 <= k < n.row_len() implies
            n.mode.element().lowest() <= (#[trigger] n.samples[j][k])
            <= n.mode.element().highest() by {
            if j != y {
                assert(n.samples[j][k] == r.samples[j][k]);
            } else {
                row[k].level_bounds();
            }
        }
    }
}

/// An owned raster image. Its rows live in the storage that belongs to
/// the element type of its mode; the other storages stay empty.
#[derive(Debug)]
pub struct PILImage {
    mode: PILMode,
    xsize: i32,
    ysize: i32,
    bytes: Vec<Vec<u8>>,
    ints: Vec<Vec<i32>>,
    floats: Vec<Vec<u32>>,
}

impl View for PILImage {
    type V = Raster;

    closed spec fn view(&self) -> Raster {
        Raster {
            mode: self.mode,
            width: self.xsize as int,
            height: self.ysize as int,
            samples: match self.mode.element() {
                PILType::Uint8 => grid(self.bytes@),
                PILType::Int32 => grid(self.ints@),
                PILType::Float32 => grid(self.floats@),
            },
        }
    }
}

impl PILImage {
    /// Only the storage of the image's element type holds rows.
    pub closed spec fn stored(&self) -> bool {
        match self.mode.element() {
            PILType::Uint8 => self.ints@.len() == 0 && self.floats@.len() == 0,
            PILType::Int32 => self.bytes@.len() == 0 && self.floats@.len() == 0,
            PILType::Float32 => self.bytes@.len() == 0 && self.ints@.len() == 0,
        }
    }

    /// The invariant of an image: its content is valid and its storage
    /// matches its mode.
    pub open spec fn wf(&self) -> bool {
        self@.valid() && self.stored()
    }

    /// Creates an image of the given mode and dimensions with every
    /// element zero. A width or height that is not positive is rejected.
    pub fn new(mode: PILMode, xdim: i32, ydim: i32) -> (r: Result<PILImage, PILError>)
        requires
            xdim > 0 ==> mode.line_bytes(xdim as int) <= i32::MAX,
        ensures
            xdim <= 0 || ydim <= 0 ==> (r matches Err(PILError::InvalidDimension)),
            xdim > 0 && ydim > 0 ==> (r matches Ok(img) && img.wf() && img@ =~~= Raster::blank(
                mode,
                xdim as int,
                ydim as int,
            )),
    {
        if xdim <= 0 || ydim <= 0 {
            return Err(PILError::InvalidDimension);
        }
        let n: usize = (xdim as usize) * mode.lane_count();
        let mut bytes: Vec<Vec<u8>> = Vec::new();
        let mut ints: Vec<Vec<i32>> = Vec::new();
        let mut floats: Vec<Vec<u32>> = Vec::new();
        let kind = mode.element_type();
        let mut y: i32 = 0;
        while y < ydim
            invariant
                0 <= y <= ydim,
                kind == mode.element(),
                n == mode.row_elements(xdim as int),
                bytes@.len() == (if kind == PILType::Uint8 {
                    y as int
                } else {
                    0
                }),
                ints@.len() == (if kind == PILType::Int32 {
                    y as int
                } else {
                    0
                }),
                floats@.len() == (if kind == PILType::Float32 {
                    y as int
                } else {
                    0
                }),
                forall|j: int|
                    0 <= j < bytes@.len() ==> (#[trigger] bytes@[j])@ =~= Seq::new(
                        n as nat,
                        |k: int| 0u8,
                    ),
                forall|j: int|
                    0 <= j < ints@.len() ==> (#[trigger] ints@[j])@ =~= Seq::new(
                        n as nat,
                        |k: int| 0i32,
                    ),
                forall|j: int|
                    0 <= j < floats@.len() ==> (#[trigger] floats@[j])@ =~= Seq::new(
                        n as nat,
                        |k: int| 0u32,
                    ),
            decreases ydim - y,
        {
            match kind {
                PILType::Uint8 => {
                    bytes.push(vec![0u8; n]);
                },
                PILType::Int32 => {
                    ints.push(vec![0i32; n]);
                },
                PILType::Float32 => {
                    floats.push(vec![0u32; n]);
                },
            }
            y += 1;
        }
        let img = PILImage { mode, xsize: xdim, ysize: ydim, bytes, ints, floats };
        proof {
            let blank = Raster::blank(mode, xdim as int, ydim as int);
            assert(img@.samples.len() == blank.samples.len());
            assert forall|j: int| 0 <= j < ydim implies #[trigger] img@.samples[j]
                =~= blank.samples[j] by {
                match kind {
                    PILType::Uint8 => {
                        assert(img@.samples[j] == levels(bytes@[j]@));
                    },
                    PILType::Int32 => {
                        assert(img@.samples[j] == levels(ints@[j]@));
                    },
                    PILType::Float32 => {
                        assert(img@.samples[j] == levels(floats@[j]@));
                    },
                }
            }
            assert(img@.samples =~= blank.samples);
        }
        Ok(img)
    }

    /// The number of bytes in one row.
    pub fn line_size_bytes(&self) -> (n: i32)
        requires
            self.wf(),
        ensures
            n == self@.line_size(),
    {
        if self.mode.pixel_bytes() == 1 {
            self.xsize
        } else {
            4 * self.xsize
        }
    }

    /// The width in pixels.
    pub fn x_size(&self) -> (n: i32)
        ensures
            n == self@.width,
    {
        self.xsize
    }

    /// The height in pixels.
    pub fn y_size(&self) -> (n: i32)
        ensures
            n == self@.height,
    {
        self.ysize
    }

    /// The mode the image was created with.
    pub fn mode(&self) -> (m: PILMode)
        ensures
            m == self@.mode,
    {
        self.mode
    }

    /// The element type of the image.
    pub fn pixel_type(&self) -> (t: PILType)
        ensures
            t == self@.mode.element(),
    {
        self.mode.element_type()
    }

    /// The number of channels that carry image data.
    pub fn pixel_channels(&self) -> (n: i32)
        ensures
            n == self@.mode.channels(),
    {
        self.mode.channel_count()
    }

    /// The number of bytes from one pixel to the next.
    pub fn pixel_size_bytes(&self) -> (n: i32)
        ensures
            n == self@.mode.pixel_size(),
    {
        self.mode.pixel_bytes()
    }

    /// Row `yidx` as bytes. The view exists only for an image of
    /// `Uint8` elements; on such an image a row index outside the image
    /// is an error.
    pub fn line_u8(&self, yidx: i32) -> (r: Result<Option<&[u8]>, PILError>)
        requires
            self.wf(),
        ensures
            self@.mode.element() != PILType::Uint8 ==> (r matches Ok(None)),
            self@.mode.element() == PILType::Uint8 && !(0 <= yidx < self@.height)
                ==> (r matches Err(PILError::OutOfRange)),
            self@.mode.element() == PILType::Uint8 && 0 <= yidx < self@.height ==> (r matches Ok(
                Some(line),
            ) && levels(line@) == self@.samples[yidx as int]),
    {
        match self.mode.element_type() {
            PILType::Uint8 => {
                if yidx < 0 || yidx >= self.ysize {
                    Err(PILError::OutOfRange)
                } else {
                    Ok(Some(self.bytes[yidx as usize].as_slice()))
                }
            },
            _ => Ok(None),
        }
    }

    /// Row `yidx` as 32-bit integers. The view exists only for an image
    /// of `Int32` elements; on such an image a row index outside the
    /// image is an error.
    pub fn line_i32(&self, yidx: i32) -> (r: Result<Option<&[i32]>, PILError>)
        requires
            self.wf(),
        ensures
            self@.mode.element() != PILType::Int32 ==> (r matches Ok(None)),
            self@.mode.element() == PILType::Int32 && !(0 <= yidx < self@.height)
                ==> (r matches Err(PILError::OutOfRange)),
            self@.mode.element() == PILType::Int32 && 0 <= yidx < self@.height ==> (r matches Ok(
                Some(line),
            ) && levels(line@) == self@.samples[yidx as int]),
    {
        match self.mode.element_type() {
            PILType::Int32 => {
                if yidx < 0 || yidx >= self.ysize {
                    Err(PILError::OutOfRange)
                } else {
                    Ok(Some(self.ints[yidx as usize].as_slice()))
                }
            },
            _ => Ok(None),
        }
    }

    /// Row `yidx` of an image of `Float32` elements, each element given
    /// by its IEEE 754 bit pattern. The view exists only for such an
    /// image; on it a row index outside the image is an error.
    pub fn line_f32(&self, yidx: i32) -> (r: Result<Option<&[u32]>, PILError>)
        requires
            self.wf(),
        ensures
            self@.mode.element() != PILType::Float32 ==> (r matches Ok(None)),
            self@.mode.element() == PILType::Float32 && !(0 <= yidx < self@.height)
                ==> (r matches Err(PILError::OutOfRange)),
            self@.mode.element() == PILType::Float32 && 0 <= yidx < self@.height ==> (r matches Ok(
                Some(line),
            ) && levels(line@) == self@.samples[yidx as int]),
    {
        match self.mode.element_type() {
            PILType::Float32 => {
                if yidx < 0 || yidx >= self.ysize {
                    Err(PILError::OutOfRange)
                } else {
                    Ok(Some(self.floats[yidx as usize].as_slice()))
                }
            },
            _ => Ok(None),
        }
    }

    /// Row `yidx` as writable bytes, on the conditions of `line_u8`.
    /// When the borrow ends the image holds what the row then holds. A
    /// slice keeps its length, and an image whose row keeps its length
    /// stays valid.
    pub fn line_u8_mut(&mut self, yidx: i32) -> (r: Result<Option<&mut [u8]>, PILError>)
        requires
            old(self).wf(),
        ensures
            old(self)@.mode.element() != PILType::Uint8 ==> (r matches Ok(None) && *final(self)
                == *old(self)),
            old(self)@.mode.element() == PILType::Uint8 && !(0 <= yidx < old(self)@.height)
                ==> (r matches Err(PILError::OutOfRange) && *final(self) == *old(self)),
            old(self)@.mode.element() == PILType::Uint8 && 0 <= yidx < old(self)@.height
                ==> (r matches Ok(Some(line)) && levels(line@) == old(self)@.samples[yidx as int]),
            old(self)@.mode.element() == PILType::Uint8 && 0 <= yidx < old(self)@.height
                ==> (r matches Ok(Some(line)) && final(self)@ =~~= old(self)@.with_row(
                yidx as int,
                levels(final(line)@),
            ) && (final(line)@.len() == line@.len() ==> final(self).wf())),
    {
        match self.mode.element_type() {
            PILType::Uint8 => {
                if yidx < 0 || yidx >= self.ysize {
                    Err(PILError::OutOfRange)
                } else {
                    let line = self.bytes[yidx as usize].as_mut_slice();
                    proof {
                        assert(levels(line@) == old(self)@.samples[yidx as int]);
                        assert(line@.len() == old(self)@.row_len());
                        lemma_with_row_valid(old(self)@, yidx as int, final(line)@);
                    }
                    Ok(Some(line))
                }
            },
            _ => Ok(None),
        }
    }

    /// Row `yidx` as writable 32-bit integers, on the conditions of
    /// `line_i32`.
    pub fn line_i32_mut(&mut self, yidx: i32) -> (r: Result<Option<&mut [i32]>, PILError>)
        requires
            old(self).wf(),
        ensures
            old(self)@.mode.element() != PILType::Int32 ==> (r matches Ok(None) && *final(self)
                == *old(self)),
            old(self)@.mode.element() == PILType::Int32 && !(0 <= yidx < old(self)@.height)
                ==> (r matches Err(PILError::OutOfRange) && *final(self) == *old(self)),
            old(self)@.mode.element() == PILType::Int32 && 0 <= yidx < old(self)@.height
                ==> (r matches Ok(Some(line)) && levels(line@) == old(self)@.samples[yidx as int]),
            old(self)@.mode.element() == PILType::Int32 && 0 <= yidx < old(self)@.height
                ==> (r matches Ok(Some(line)) && final(self)@ =~~= old(self)@.with_row(
                yidx as int,
                levels(final(line)@),
            ) && (final(line)@.len() == line@.len() ==> final(self).wf())),
    {
        match self.mode.element_type() {
            PILType::Int32 => {
                if yidx < 0 || yidx >= self.ysize {
                    Err(PILError::OutOfRange)
                } else {
                    let line = self.ints[yidx as usize].as_mut_slice();
                    proof {
                        assert(levels(line@) == old(self)@.samples[yidx as int]);
                        assert(line@.len() == old(self)@.row_len());
                        lemma_with_row_valid(old(self)@, yidx as int, final(line)@);
                    }
                    Ok(Some(line))
                }
            },
            _ => Ok(None),
        }
    }

    /// Row `yidx` of an image of `Float32` elements as writable bit
    /// patterns, on the conditions of `line_f32`.
    pub fn line_f32_mut(&mut self, yidx: i32) -> (r: Result<Option<&mut [u32]>, PILError>)
        requires
            old(self).wf(),
        ensures
            old(self)@.mode.element() != PILType::Float32 ==> (r matches Ok(None) && *final(self)
                == *old(self)),
            old(self)@.mode.element() == PILType::Float32 && !(0 <= yidx < old(self)@.height)
                ==> (r matches Err(PILError::OutOfRange) && *final(self) == *old(self)),
            old(self)@.mode.element() == PILType::Float32 && 0 <= yidx < old(self)@.height
                ==> (r matches Ok(Some(line)) && levels(line@) == old(self)@.samples[yidx as int]),
            old(self)@.mode.element() == PILType::Float32 && 0 <= yidx < old(self)@.height
                ==> (r matches Ok(Some(line)) && final(self)@ =~~= old(self)@.with_row(
                yidx as int,
                levels(final(line)@),
            ) && (final(line)@.len() == line@.len() ==> final(self).wf())),
    {
        match self.mode.element_type() {
            PILType::Float32 => {
                if yidx < 0 || yidx >= self.ysize {
                    Err(PILError::OutOfRange)
                } else {
                    let line = self.floats[yidx as usize].as_mut_slice();
                    proof {
                        assert(levels(line@) == old(self)@.samples[yidx as int]);
                        assert(line@.len() == old(self)@.row_len());
                        lemma_with_row_valid(old(self)@, yidx as int, final(line)@);
                    }
                    Ok(Some(line))
                }
            },
            _ => Ok(None),
        }
    }

    /// Whether the image stores `Uint8` elements.
    fn holds_bytes(&self) -> (b: bool)
        ensures
            b == (self@.mode.element() == PILType::Uint8),
    {
        match self.mode.element_type() {
            PILType::Uint8 => true,
            _ => false,
        }
    }

    /// The number of channel values, had the export buffer room for
    /// them; `None` when it has not.
    fn export_count(&self, room: usize) -> (n: Option<usize>)
        requires
            self.wf(),
        ensures
            room < self@.export_len() ==> n.is_none(),
            room >= self@.export_len() ==> n == Some(self@.export_len() as usize),
            self@.export_len() >= 0,
    {
        let ch: u64 = self.mode.channel_count() as u64;
        let w: u64 = self.xsize as u64;
        let h: u64 = self.ysize as u64;
        assert(w * h <= 0x7fff_ffff * 0x7fff_ffff) by (nonlinear_arith)
            requires
                0 <= w <= 0x7fff_ffff,
                0 <= h <= 0x7fff_ffff,
        ;
        let area: u64 = w * h;
        assert(ch * area <= 4 * area && ch * area >= 0) by (nonlinear_arith)
            requires
                0 <= ch <= 4,
                0 <= area,
        ;
        let need: u64 = ch * area;
        if (room as u64) < need {
            None
        } else {
            Some(need as usize)
        }
    }

    /// Copies the channel values into `pixel_buf` in pixel-major order:
    /// channel fastest, then x, then y. Padding elements of a pixel are
    /// left out. Only an image of `Uint8` elements can be exported, and
    /// the buffer must hold `channels * width * height` bytes; on
    /// failure the buffer is untouched. Returns the number of bytes
    /// written, which fill the front of the buffer.
    pub fn render_pixels(&self, pixel_buf: &mut [u8]) -> (r: Result<usize, PILError>)
        requires
            self.wf(),
        ensures
            self@.mode.element() != PILType::Uint8 ==> (r matches Err(
                PILError::UnsupportedElementType,
            ) && final(pixel_buf)@ == old(pixel_buf)@),
            self@.mode.element() == PILType::Uint8 && old(pixel_buf)@.len() < self@.export_len()
                ==> (r matches Err(PILError::BufferTooSmall) && final(pixel_buf)@ == old(
                pixel_buf,
            )@),
            self@.mode.element() == PILType::Uint8 && old(pixel_buf)@.len() >= self@.export_len()
                ==> (r matches Ok(n) && n == self@.export_len() && final(pixel_buf)@
                =~= self@.interleaved() + old(pixel_buf)@.skip(self@.export_len())),
    {
        if !self.holds_bytes() {
            return Err(PILError::UnsupportedElementType);
        }
        let total: usize = match self.export_count(pixel_buf.len()) {
            Some(n) => n,
            None => {
                return Err(PILError::BufferTooSmall);
            },
        };
        let ch: usize = self.mode.channel_count() as usize;
        let px: usize = self.mode.pixel_bytes() as usize;
        let w: usize = self.xsize as usize;
        let h: usize = self.ysize as usize;
        let ghost want = self@.interleaved();
        let mut o: usize = 0;
        let mut y: usize = 0;
        assert(ch * (w * 0) == 0) by (nonlinear_arith);
        while y < h
            invariant
                self.wf(),
                self@.mode.element() == PILType::Uint8,
                ch == self@.mode.channels(),
                px == self@.mode.pixel_size(),
                w == self@.width,
                h == self@.height,
                want == self@.interleaved(),
                total == self@.export_len(),
                total <= pixel_buf@.len(),
                pixel_buf@.len() == old(pixel_buf)@.len(),
                0 <= y <= h,
                o == ch * (w * y),
                forall|i: int| 0 <= i < o ==> pixel_buf@[i] == want[i],
                forall|i: int| o <= i < pixel_buf@.len() ==> pixel_buf@[i] == old(pixel_buf)@[i],
            decreases h - y,
        {
            let line = &self.bytes[y];
            let mut x: usize = 0;
            assert(self@.samples[y as int].len() == self@.row_len());
            while x < w
                invariant
                    self.wf(),
                    self@.mode.element() == PILType::Uint8,
                    ch == self@.mode.channels(),
                    px == self@.mode.pixel_size(),
                    w == self@.width,
                    h == self@.height,
                    want == self@.interleaved(),
                    total == self@.export_len(),
                    total <= pixel_buf@.len(),
                    pixel_buf@.len() == old(pixel_buf)@.len(),
                    0 <= y < h,
                    0 <= x <= w,
                    line@ == self.bytes@[y as int]@,
                    line@.len() == self@.row_len(),
                    o == ch * (x + w * y),
                    forall|i: int| 0 <= i < o ==> pixel_buf@[i] == want[i],
                    forall|i: int|
                        o <= i < pixel_buf@.len() ==> pixel_buf@[i] == old(pixel_buf)@[i],
                decreases w - x,
            {
                let mut c: usize = 0;
                while c < ch
                    invariant
                        self.wf(),
                        self@.mode.element() == PILType::Uint8,
                        ch == self@.mode.channels(),
                        px == self@.mode.pixel_size(),
                        w == self@.width,
                        h == self@.height,
                        want == self@.interleaved(),
                        total == self@.export_len(),
                        total <= pixel_buf@.len(),
                        pixel_buf@.len() == old(pixel_buf)@.len(),
                        0 <= y < h,
                        0 <= x < w,
                        0 <= c <= ch,
                        line@ == self.bytes@[y as int]@,
                        line@.len() == self@.row_len(),
                        o == c + ch * (x + w * y),
                        forall|i: int| 0 <= i < o ==> pixel_buf@[i] == want[i],
                        forall|i: int|
                            o <= i < pixel_buf@.len() ==> pixel_buf@[i] == old(pixel_buf)@[i],
                    decreases ch - c,
                {
                    proof {
                        lemma_interleaved_index(ch as int, w as int, y as int, x as int, c as int);
                        lemma_interleaved_bound(
                            ch as int,
                            w as int,
                            h as int,
                            y as int,
                            x as int,
                            c as int,
                        );
                        assert(0 <= px * x && c + px * x < px * w) by (nonlinear_arith)
                            requires
                                0 <= c < px,
                                0 <= x < w,
                        ;
                        assert(x * px == px * x) by (nonlinear_arith);
                        assert(self@.samples[y as int][x * px + c] == line@[x * px + c] as int);
                    }
                    let v: u8 = line[c + px * x];
                    pixel_buf[o] = v;
                    assert(want[o as int] == v);
                    o += 1;
                    c += 1;
                }
                assert(ch + ch * (x + w * y) == ch * ((x + 1) + w * y)) by (nonlinear_arith);
                x += 1;
            }
            assert(ch * (w + w * y) == ch * (w * (y + 1))) by (nonlinear_arith);
            y += 1;
        }
        assert(o == total);
        assert(pixel_buf@ =~= want + old(pixel_buf)@.skip(total as int));
        Ok(total)
    }

    /// Copies the channel values into `plane_buf` in channel-major
    /// order: x fastest, then y, then channel. The conditions and the
    /// result are those of `render_pixels`.
    pub fn render_planes(&self, plane_buf: &mut [u8]) -> (r: Result<usize, PILError>)
        requires
            self.wf(),
        ensures
            self@.mode.element() != PILType::Uint8 ==> (r matches Err(
                PILError::UnsupportedElementType,
            ) && final(plane_buf)@ == old(plane_buf)@),
            self@.mode.element() == PILType::Uint8 && old(plane_buf)@.len() < self@.export_len()
                ==> (r matches Err(PILError::BufferTooSmall) && final(plane_buf)@ == old(
                plane_buf,
            )@),
            self@.mode.element() == PILType::Uint8 && old(plane_buf)@.len() >= self@.export_len()
                ==> (r matches Ok(n) && n == self@.export_len() && final(plane_buf)@
                =~= self@.planar() + old(plane_buf)@.skip(self@.export_len())),
    {
        if !self.holds_bytes() {
            return Err(PILError::UnsupportedElementType);
        }
        let total: usize = match self.export_count(plane_buf.len()) {
            Some(n) => n,
            None => {
                return Err(PILError::BufferTooSmall);
            },
        };
        let ch: usize = self.mode.channel_count() as usize;
        let px: usize = self.mode.pixel_bytes() as usize;
        let w: usize = self.xsize as usize;
        let h: usize = self.ysize as usize;
        let ghost want = self@.planar();
        let mut o: usize = 0;
        let mut c: usize = 0;
        assert(w * (0 * h) == 0) by (nonlinear_arith);
        while c < ch
            invariant
                self.wf(),
                self@.mode.element() == PILType::Uint8,
                ch == self@.mode.channels(),
                px == self@.mode.pixel_size(),
                w == self@.width,
                h == self@.height,
                want == self@.planar(),
                total == self@.export_len(),
                total <= plane_buf@.len(),
                plane_buf@.len() == old(plane_buf)@.len(),
                0 <= c <= ch,
                o == w * (c * h),
                forall|i: int| 0 <= i < o ==> plane_buf@[i] == want[i],
                forall|i: int| o <= i < plane_buf@.len() ==> plane_buf@[i] == old(plane_buf)@[i],
            decreases ch - c,
        {
            let mut y: usize = 0;
            while y < h
                invariant
                    self.wf(),
                    self@.mode.element() == PILType::Uint8,
                    ch == self@.mode.channels(),
                    px == self@.mode.pixel_size(),
                    w == self@.width,
                    h == self@.height,
                    want == self@.planar(),
                    total == self@.export_len(),
                    total <= plane_buf@.len(),
                    plane_buf@.len() == old(plane_buf)@.len(),
                    0 <= c < ch,
                    0 <= y <= h,
                    o == w * (y + c * h),
                    forall|i: int| 0 <= i < o ==> plane_buf@[i] == want[i],
                    forall|i: int|
                        o <= i < plane_buf@.len() ==> plane_buf@[i] == old(plane_buf)@[i],
                decreases h - y,
            {
                let line = &self.bytes[y];
                let mut x: usize = 0;
                assert(self@.samples[y as int].len() == self@.row_len());
                while x < w
                    invariant
                        self.wf(),
                        self@.mode.element() == PILType::Uint8,
                        ch == self@.mode.channels(),
                        px == self@.mode.pixel_size(),
                        w == self@.width,
                        h == self@.height,
                        want == self@.planar(),
                        total == self@.export_len(),
                        total <= plane_buf@.len(),
                        plane_buf@.len() == old(plane_buf)@.len(),
                        0 <= c < ch,
                        0 <= y < h,
                        0 <= x <= w,
                        line@ == self.bytes@[y as int]@,
                        line@.len() == self@.row_len(),
                        o == x + w * (y + c * h),
                        forall|i: int| 0 <= i < o ==> plane_buf@[i] == want[i],
                        forall|i: int|
                            o <= i < plane_buf@.len() ==> plane_buf@[i] == old(plane_buf)@[i],
                    decreases w - x,
                {
                    proof {
                        lemma_planar_index(h as int, w as int, y as int, x as int, c as int);
                        lemma_planar_bound(
                            ch as int,
                            w as int,
                            h as int,
                            y as int,
                            x as int,
                            c as int,
                        );
                        assert(0 <= px * x && c + px * x < px * w) by (nonlinear_arith)
                            requires
                                0 <= c < px,
                                0 <= x < w,
                        ;
                        assert(x * px == px * x) by (nonlinear_arith);
                        assert(self@.samples[y as int][x * px + c] == line@[x * px + c] as int);
                    }
                    let v: u8 = line[c + px * x];
                    plane_buf[o] = v;
                    assert(want[o as int] == v);
                    o += 1;
                    x += 1;
                }
                assert(w + w * (y + c * h) == w * ((y + 1) + c * h)) by (nonlinear_arith);
                y += 1;
            }
            assert(w * (h + c * h) == w * ((c + 1) * h)) by (nonlinear_arith);
            c += 1;
        }
        assert(w * (ch * h) == ch * (w * h)) by (nonlinear_arith);
        assert(o == total);
        assert(plane_buf@ =~= want + old(plane_buf)@.skip(total as int));
        Ok(total)
    }

    /// The rows of an image of `Uint8` elements.
    pub(crate) fn byte_rows(&self) -> (rows: &Vec<Vec<u8>>)
        requires
            self.wf(),
            self@.mode.element() == PILType::Uint8,
        ensures
            grid(rows@) == self@.samples,
            rows@.len() == self@.height,
            forall|y: int| 0 <= y < rows@.len() ==> (#[trigger] rows@[y])@.len() == self@.row_len(),
    {
        proof {
            assert forall|y: int| 0 <= y < self.bytes@.len() implies (
            #[trigger] self.bytes@[y])@.len() == self@.row_len() by {
                assert(self@.samples[y] == levels(self.bytes@[y]@));
            }
        }
        &self.bytes
    }

    /// The rows of an image of `Int32` elements.
    pub(crate) fn int_rows(&self) -> (rows: &Vec<Vec<i32>>)
        requires
            self.wf(),
            self@.mode.element() == PILType::Int32,
        ensures
            grid(rows@) == self@.samples,
            rows@.len() == self@.height,
            forall|y: int| 0 <= y < rows@.len() ==> (#[trigger] rows@[y])@.len() == self@.row_len(),
    {
        proof {
            assert forall|y: int| 0 <= y < self.ints@.len() implies (
            #[trigger] self.ints@[y])@.len() == self@.row_len() by {
                assert(self@.samples[y] == levels(self.ints@[y]@));
            }
        }
        &self.ints
    }

    /// The rows of an image of `Float32` elements, as bit patterns.
    pub(crate) fn float_rows(&self) -> (rows: &Vec<Vec<u32>>)
        requires
            self.wf(),
            self@.mode.element() == PILType::Float32,
        ensures
            grid(rows@) == self@.samples,
            rows@.len() == self@.height,
            forall|y: int| 0 <= y < rows@.len() ==> (#[trigger] rows@[y])@.len() == self@.row_len(),
    {
        proof {
            assert forall|y: int| 0 <= y < self.floats@.len() implies (
            #[trigger] self.floats@[y])@.len() == self@.row_len() by {
                assert(self@.samples[y] == levels(self.floats@[y]@));
            }
        }
        &self.floats
    }

    /// The image of `Uint8` elements that holds the given rows.
    pub(crate) fn with_byte_rows(mode: PILMode, xdim: i32, ydim: i32, rows: Vec<Vec<u8>>) -> (img:
        PILImage)
        requires
            mode.element() == PILType::Uint8,
            xdim > 0,
            ydim > 0,
            mode.line_bytes(xdim as int) <= i32::MAX,
            rows@.len() == ydim,
            forall|y: int|
                0 <= y < rows@.len() ==> (#[trigger] rows@[y])@.len() == mode.row_elements(
                    xdim as int,
                ),
        ensures
            img.wf(),
            img@ == (Raster {
                mode,
                width: xdim as int,
                height: ydim as int,
                samples: grid(rows@),
            }),
    {
        let img = PILImage {
            mode,
            xsize: xdim,
            ysize: ydim,
            bytes: rows,
            ints: Vec::new(),
            floats: Vec::new(),
        };
        proof {
            assert forall|y: int| 0 <= y < img@.height implies (#[trigger] img@.samples[y]).len()
                == img@.row_len() by {
                assert(img@.samples[y] == levels(rows@[y]@));
            }
        }
        img
    }

    /// The image of `Int32` elements that holds the given rows.
    pub(crate) fn with_int_rows(mode: PILMode, xdim: i32, ydim: i32, rows: Vec<Vec<i32>>) -> (img:
        PILImage)
        requires
            mode.element() == PILType::Int32,
            xdim > 0,
            ydim > 0,
            mode.line_bytes(xdim as int) <= i32::MAX,
            rows@.len() == ydim,
            forall|y: int|
                0 <= y < rows@.len() ==> (#[trigger] rows@[y])@.len() == mode.row_elements(
                    xdim as int,
                ),
        ensures
            img.wf(),
            img@ == (Raster {
                mode,
                width: xdim as int,
                height: ydim as int,
                samples: grid(rows@),
            }),
    {
        let img = PILImage {
            mode,
            xsize: xdim,
            ysize: ydim,
            bytes: Vec::new(),
            ints: rows,
            floats: Vec::new(),
        };
        proof {
            assert forall|y: int| 0 <= y < img@.height implies (#[trigger] img@.samples[y]).len()
                == img@.row_len() by {
                assert(img@.samples[y] == levels(rows@[y]@));
            }
        }
        img
    }

    /// The image of `Float32` elements that holds the given rows of bit
    /// patterns.
    pub(crate) fn with_float_rows(mode: PILMode, xdim: i32, ydim: i32, rows: Vec<Vec<u32>>) -> (img:
        PILImage)
        requires
            mode.element() == PILType::Float32,
            xdim > 0,
            ydim > 0,
            mode.line_bytes(xdim as int) <= i32::MAX,
            rows@.len() == ydim,
            forall|y: int|
                0 <= y < rows@.len() ==> (#[trigger] rows@[y])@.len() == mode.row_elements(
                    xdim as int,
                ),
        ensures
            img.wf(),
            img@ == (Raster {
                mode,
                width: xdim as int,
                height: ydim as int,
                samples: grid(rows@),
            }),
    {
        let img = PILImage {
            mode,
            xsize: xdim,
            ysize: ydim,
            bytes: Vec::new(),
            ints: Vec::new(),
            floats: rows,
        };
        proof {
            assert forall|y: int| 0 <= y < img@.height implies (#[trigger] img@.samples[y]).len()
                == img@.row_len() by {
                assert(img@.samples[y] == levels(rows@[y]@));
            }
        }
        img
    }
}

} // verus!
