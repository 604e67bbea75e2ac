//! Element types, image modes, resampling filters and error kinds.

use vstd::prelude::*;

verus! {

/// The ways an operation on an image can fail.
#[derive(Clone, Copy, PartialEq, Eq, Debug, Structural)]
pub enum PILError {
    /// A requested width or height is zero or negative.
    InvalidDimension,
    /// The element type is not one the operation is defined for.
    UnsupportedElementType,
    /// A caller-supplied export buffer cannot hold the output.
    BufferTooSmall,
    /// A row index lies outside the image.
    OutOfRange,
}

/// The representation of one stored element.
#[derive(Clone, Copy, PartialEq, Eq, Debug, Structural)]
pub enum PILType {
    Uint8,
    Int32,
    Float32,
}

impl PILType {
    /// The numeric code of the element type.
    pub open spec fn code(self) -> u32 {
        match self {
            PILType::Uint8 => 0,
            PILType::Int32 => 1,
            PILType::Float32 => 2,
        }
    }

    /// Bytes occupied by one element.
    pub open spec fn element_size(self) -> int {
        match self {
            PILType::Uint8 => 1,
            PILType::Int32 => 4,
            PILType::Float32 => 4,
        }
    }

    /// The smallest stored value. A `Float32` element is modelled by its
    /// 32-bit pattern read as an unsigned integer.
    pub open spec fn lowest(self) -> int {
        match self {
            PILType::Uint8 => 0,
            PILType::Int32 => -0x8000_0000,
            PILType::Float32 => 0,
        }
    }

    /// The largest stored value.
    pub open spec fn highest(self) -> int {
        match self {
            PILType::Uint8 => 0xff,
            PILType::Int32 => 0x7fff_ffff,
            PILType::Float32 => 0xffff_ffff,
        }
    }

    /// Whether a value exactly halfway between two integers rounds to the
    /// even one. `Int32` does; `Uint8` rounds such a value upwards.
    pub open spec fn ties_to_even(self) -> bool {
        self == PILType::Int32
    }

    /// Decodes an element type from its numeric code. Codes above 2 name
    /// no supported type.
    pub fn from_raw(raw: u32) -> (r: Result<PILType, PILError>)
        ensures
            raw <= 2 ==> r.is_ok() && r.unwrap().code() == raw,
            raw > 2 ==> r == Err::<PILType, PILError>(PILError::UnsupportedElementType),
    {
        if raw == 0 {
            Ok(PILType::Uint8)
        } else if raw == 1 {
            Ok(PILType::Int32)
        } else if raw == 2 {
            Ok(PILType::Float32)
        } else {
            Err(PILError::UnsupportedElementType)
        }
    }

    /// The numeric code of the element type.
    pub fn to_raw(&self) -> (raw: u32)
        ensures
            raw == self.code(),
    {
        match *self {
            PILType::Uint8 => 0,
            PILType::Int32 => 1,
            PILType::Float32 => 2,
        }
    }
}

/// The pixel layout of an image.
#[derive(Clone, Copy, PartialEq, Eq, Debug, Structural)]
pub enum PILMode {
    Unit,
    L,
    P,
    I,
    F,
    RGB,
    RGBA,
    CMYK,
    YCbCr,
    LAB,
}

impl PILMode {
    /// The mode string.
    pub open spec fn name(self) -> Seq<char> {
        match self {
            PILMode::Unit => "1"@,
            PILMode::L => "L"@,
            PILMode::P => "P"@,
            PILMode::I => "I"@,
            PILMode::F => "F"@,
            PILMode::RGB => "RGB"@,
            PILMode::RGBA => "RGBA"@,
            PILMode::CMYK => "CMYK"@,
            PILMode::YCbCr => "YCbCr"@,
            PILMode::LAB => "LAB"@,
        }
    }

    /// The element type the mode stores.
    pub open spec fn element(self) -> PILType {
        match self {
            PILMode::I => PILType::Int32,
            PILMode::F => PILType::Float32,
            _ => PILType::Uint8,
        }
    }

    /// The number of channels that carry image data.
    pub open spec fn channels(self) -> int {
        match self {
            PILMode::RGB | PILMode::YCbCr | PILMode::LAB => 3,
            PILMode::RGBA | PILMode::CMYK => 4,
            _ => 1,
        }
    }

    /// Bytes from one pixel to the next. Three-channel pixels are padded
    /// to four bytes.
    pub open spec fn pixel_size(self) -> int {
        match self {
            PILMode::Unit | PILMode::L | PILMode::P => 1,
            _ => 4,
        }
    }

    /// Elements stored per pixel: the pixel size in units of the element
    /// size.
    pub open spec fn lanes(self) -> int {
        match self {
            PILMode::Unit | PILMode::L | PILMode::P | PILMode::I | PILMode::F => 1,
            _ => 4,
        }
    }

    /// Elements in a row of `width` pixels.
    pub open spec fn row_elements(self, width: int) -> int {
        if self.lanes() == 1 {
            width
        } else {
            4 * width
        }
    }

    /// Bytes in a row of `width` pixels.
    pub open spec fn line_bytes(self, width: int) -> int {
        if self.pixel_size() == 1 {
            width
        } else {
            4 * width
        }
    }

    /// The mode string.
    pub fn to_raw(&self) -> (s: &'static str)
        ensures
            s@ == self.name(),
    {
        match *self {
            PILMode::Unit => "1",
            PILMode::L => "L",
            PILMode::P => "P",
            PILMode::I => "I",
            PILMode::F => "F",
            PILMode::RGB => "RGB",
            PILMode::RGBA => "RGBA",
            PILMode::CMYK => "CMYK",
            PILMode::YCbCr => "YCbCr",
            PILMode::LAB => "LAB",
        }
    }

    /// The element type the mode stores.
    pub fn element_type(&self) -> (t: PILType)
        ensures
            t == self.element(),
    {
        match *self {
            PILMode::I => PILType::Int32,
            PILMode::F => PILType::Float32,
            _ => PILType::Uint8,
        }
    }

    /// The number of channels that carry image data.
    pub fn channel_count(&self) -> (n: i32)
        ensures
            n == self.channels(),
    {
        match *self {
            PILMode::RGB | PILMode::YCbCr | PILMode::LAB => 3,
            PILMode::RGBA | PILMode::CMYK => 4,
            _ => 1,
        }
    }

    /// Bytes from one pixel to the next.
    pub fn pixel_bytes(&self) -> (n: i32)
        ensures
            n == self.pixel_size(),
    {
        match *self {
            PILMode::Unit | PILMode::L | PILMode::P => 1,
            _ => 4,
        }
    }

    /// Elements stored per pixel.
    pub fn lane_count(&self) -> (n: usize)
        ensures
            n == self.lanes(),
    {
        match *self {
            PILMode::Unit | PILMode::L | PILMode::P | PILMode::I | PILMode::F => 1,
            _ => 4,
        }
    }
}

/// The kernel family a resize filters with.
#[derive(Clone, Copy, PartialEq, Eq, Debug, Structural)]
pub enum PILFilter {
    Nearest,
    Box_,
    Bilinear,
    Hamming,
    Bicubic,
    Lanczos,
}

impl PILFilter {
    /// The numeric code of the filter.
    pub open spec fn code(self) -> u32 {
        match self {
            PILFilter::Nearest => 0,
            PILFilter::Lanczos => 1,
            PILFilter::Bilinear => 2,
            PILFilter::Bicubic => 3,
            PILFilter::Box_ => 4,
            PILFilter::Hamming => 5,
        }
    }

    /// Twice the support radius of the kernel: the radius is 1/2 for
    /// `Nearest` and `Box_`, 1 for `Bilinear` and `Hamming`, 2 for
    /// `Bicubic` and 3 for `Lanczos`.
    pub open spec fn reach(self) -> int {
        match self {
            PILFilter::Nearest | PILFilter::Box_ => 1,
            PILFilter::Bilinear | PILFilter::Hamming => 2,
            PILFilter::Bicubic => 4,
            PILFilter::Lanczos => 6,
        }
    }

    /// The numeric code of the filter.
    pub fn to_raw(&self) -> (raw: u32)
        ensures
            raw == self.code(),
    {
        match *self {
            PILFilter::Nearest => 0,
            PILFilter::Lanczos => 1,
            PILFilter::Bilinear => 2,
            PILFilter::Bicubic => 3,
            PILFilter::Box_ => 4,
            PILFilter::Hamming => 5,
        }
    }

    /// Twice the support radius of the kernel.
    pub fn doubled_radius(&self) -> (r: i64)
        ensures
            r == self.reach(),
    {
        match *self {
            PILFilter::Nearest | PILFilter::Box_ => 1,
            PILFilter::Bilinear | PILFilter::Hamming => 2,
            PILFilter::Bicubic => 4,
            PILFilter::Lanczos => 6,
        }
    }
}

/// A stored element: a value of one of the three element types, read as
/// an integer level.
pub trait Sample: Copy + Sized {
    /// The integer the element stands for.
    spec fn level(self) -> int;

    /// The element type this representation belongs to.
    spec fn kind() -> PILType;

    /// Every element lies within the range of its type.
    proof fn level_bounds(self)
        ensures
            Self::kind().lowest() <= self.level() <= Self::kind().highest(),
    ;

    /// The level of the element.
    fn widen(self) -> (v: i64)
        ensures
            v == self.level(),
    ;

    /// The element with the given level.
    fn narrow(v: i64) -> (s: Self)
        requires
            Self::kind().lowest() <= v <= Self::kind().highest(),
        ensures
            s.level() == v,
    ;

    /// The smallest level of the element type.
    fn least() -> (v: i64)
        ensures
            v == Self::kind().lowest(),
    ;

    /// The largest level of the element type.
    fn greatest() -> (v: i64)
        ensures
            v == Self::kind().highest(),
    ;

    /// Whether halfway values round to the even neighbour.
    fn rounds_to_even() -> (b: bool)
        ensures
            b == Self::kind().ties_to_even(),
    ;
}

impl Sample for u8 {
    open spec fn level(self) -> int {
        self as int
    }

    open spec fn kind() -> PILType {
        PILType::Uint8
    }

    proof fn level_bounds(self) {
    }

    fn widen(self) -> (v: i64) {
        self as i64
    }

    fn narrow(v: i64) -> (s: Self) {
        v as u8
    }

    fn least() -> (v: i64) {
        0
    }

    fn greatest() -> (v: i64) {
        0xff
    }

    fn rounds_to_even() -> (b: bool) {
        false
    }
}

impl Sample for i32 {
    open spec fn level(self) -> int {
        self as int
    }

    open spec fn kind() -> PILType {
        PILType::Int32
    }

    proof fn level_bounds(self) {
    }

    fn widen(self) -> (v: i64) {
        self as i64
    }

    fn narrow(v: i64) -> (s: Self) {
        v as i32
    }

    fn least() -> (v: i64) {
        -0x8000_0000
    }

    fn greatest() -> (v: i64) {
        0x7fff_ffff
    }

    fn rounds_to_even() -> (b: bool) {
        true
    }
}

impl Sample for u32 {
    open spec fn level(self) -> int {
        self as int
    }

    open spec fn kind() -> PILType {
        PILType::Float32
    }

    proof fn level_bounds(self) {
    }

    fn widen(self) -> (v: i64) {
        self as i64
    }

    fn narrow(v: i64) -> (s: Self) {
        v as u32
    }

    fn least() -> (v: i64) {
        0
    }

    fn greatest() -> (v: i64) {
        0xffff_ffff
    }

    fn rounds_to_even() -> (b: bool) {
        false
    }
}

/// The levels of a run of elements.
pub open spec fn levels<T: Sample>(s: Seq<T>) -> Seq<int> {
    Seq::new(s.len(), |k: int| s[k].level())
}

/// The levels of a stack of rows.
pub open spec fn grid<T: Sample>(rows: Seq<Vec<T>>) -> Seq<Seq<int>> {
    Seq::new(rows.len(), |y: int| levels(rows[y]@))
}

} // verus!
