use vstd::prelude::*;

verus! {

/// Sample encoding of an exposure as it is stored on disk.
#[derive(Debug, Clone, Copy, PartialEq, Eq, Structural)]
pub enum PixelType {
    U8,
    U16,
    U32,
    I16,
    I32,
    F32,
    F64,
}

/// Storage width, in bytes, of one sample of the given encoding.
pub open spec fn spec_bytes_per_pixel(p: PixelType) -> nat {
    match p {
        PixelType::U8 => 1,
        PixelType::U16 | PixelType::I16 => 2,
        PixelType::U32 | PixelType::I32 | PixelType::F32 => 4,
        PixelType::F64 => 8,
    }
}

impl PixelType {
    /// Number of bytes one sample of this encoding occupies.
    pub fn bytes_per_pixel(&self) -> (r: usize)
        ensures
            r == spec_bytes_per_pixel(*self),
    {
        match self {
            PixelType::U8 => 1,
            PixelType::U16 => 2,
            PixelType::U32 => 4,
            PixelType::I16 => 2,
            PixelType::I32 => 4,
            PixelType::F32 => 4,
            PixelType::F64 => 8,
        }
    }
}

/// Encoding kept for an image stored under a container data-type code
/// (8 unsigned byte, 10 signed byte, 16 short, 20 unsigned short, 32 long,
/// 40 unsigned long, 64 long long, -32 float, -64 double); `None` for a code
/// that is not read.
pub open spec fn encoding_of_code(code: i32) -> Option<PixelType> {
    if code == 8 || code == 10 {
        Some(PixelType::U8)
    } else if code == 16 {
        Some(PixelType::I16)
    } else if code == 20 {
        Some(PixelType::U16)
    } else if code == 40 {
        Some(PixelType::U32)
    } else if code == 64 {
        Some(PixelType::I32)
    } else if code == -32 {
        Some(PixelType::F32)
    } else if code == -64 {
        Some(PixelType::F64)
    } else {
        None
    }
}

impl PixelType {
    /// Encoding to record for samples stored under a container data-type code.
    pub fn from_image_code(code: i32) -> (r: Result<PixelType, ImageError>)
        ensures
            encoding_of_code(code) matches Some(p) ==> r == Ok::<PixelType, ImageError>(p),
            encoding_of_code(code) is None ==> (r matches Err(ImageError::UnsupportedOperation(m))
                && m@ == "Unsupported FITS data type"@),
    {
        if code == 8 || code == 10 {
            Ok(PixelType::U8)
        } else if code == 16 {
            Ok(PixelType::I16)
        } else if code == 20 {
            Ok(PixelType::U16)
        } else if code == 40 {
            Ok(PixelType::U32)
        } else if code == 64 {
            Ok(PixelType::I32)
        } else if code == -32 {
            Ok(PixelType::F32)
        } else if code == -64 {
            Ok(PixelType::F64)
        } else {
            Err(ImageError::UnsupportedOperation("Unsupported FITS data type".to_owned()))
        }
    }
}

/// Width and height of a stored image from its axis lengths, slowest axis
/// first; only two-dimensional images are read.
pub fn image_shape(shape: &Vec<usize>) -> (r: Result<(usize, usize), ImageError>)
    ensures
        shape@.len() == 2 ==> r == Ok::<(usize, usize), ImageError>((shape@[1], shape@[0])),
        shape@.len() != 2 ==> (r matches Err(ImageError::UnsupportedOperation(m)) && m@
            == "Only 2D images are supported"@),
{
    if shape.len() != 2 {
        return Err(ImageError::UnsupportedOperation("Only 2D images are supported".to_owned()));
    }
    Ok((shape[1], shape[0]))
}

/// Role of an exposure in the calibration pipeline.
#[derive(Debug, Clone, Copy, PartialEq, Eq, Hash, Structural)]
pub enum FrameType {
    Light,
    Dark,
    Flat,
    Bias,
    DarkFlat,
}

/// Failures of image operations.
#[derive(Debug, Clone, PartialEq, Eq)]
pub enum ImageError {
    /// Reading or writing a file failed; holds the system's message.
    IoError(String),
    /// The image container library reported a failure.
    FitsError(String),
    /// A combination was asked for over no images at all.
    EmptyInput,
    /// Two images, or an image and its operand, differ in width or height.
    DimensionMismatch,
    /// The data does not have the expected layout.
    FormatError(String),
    /// The data uses a layout or encoding that is not handled.
    UnsupportedOperation(String),
}

/// One exposure: a row-major grid of samples together with its frame role.
///
/// Sample `(row, column)` is stored at `samples[row * width + column]`.
#[derive(Debug, Clone, PartialEq)]
pub struct Image<S> {
    pub width: usize,
    pub height: usize,
    pub frame_type: FrameType,
    pub samples: Vec<S>,
}

impl<S> Image<S> {
    /// The buffer holds exactly one sample per coordinate.
    pub open spec fn wf(&self) -> bool {
        self.samples@.len() == self.width * self.height
    }

    /// Position of coordinate `(row, column)` in the row-major buffer.
    pub open spec fn offset(&self, row: int, column: int) -> int {
        row * self.width + column
    }

    /// Sample at `(row, column)`.
    pub open spec fn at(&self, row: int, column: int) -> S {
        self.samples@[self.offset(row, column)]
    }

    pub open spec fn same_shape(&self, other: &Image<S>) -> bool {
        self.width == other.width && self.height == other.height
    }
}

impl<S: Copy> Image<S> {
    /// An image of the given size whose every sample is `fill`.
    pub fn new(width: usize, height: usize, fill: S, frame_type: FrameType) -> (r: Image<S>)
        requires
            width * height <= usize::MAX,
        ensures
            r.wf(),
            r.width == width,
            r.height == height,
            r.frame_type == frame_type,
            forall|i: int| 0 <= i < r.samples@.len() ==> r.samples@[i] == fill,
    {
        let n: usize = width * height;
        let mut samples: Vec<S> = Vec::with_capacity(n);
        let mut i: usize = 0;
        while i < n
            invariant
                i <= n,
                samples@.len() == i,
                forall|j: int| 0 <= j < i ==> samples@[j] == fill,
            decreases n - i,
        {
            samples.push(fill);
            i = i + 1;
        }
        Image { width, height, frame_type, samples }
    }

    /// Wraps a row-major buffer, provided it holds one sample per coordinate.
    pub fn from_samples(width: usize, height: usize, samples: Vec<S>, frame_type: FrameType) -> (r:
        Result<Image<S>, ImageError>)
        ensures
            r is Ok <==> samples@.len() == width * height,
            r is Err ==> r == Err::<Image<S>, ImageError>(ImageError::DimensionMismatch),
            r matches Ok(img) ==> img.wf() && img.width == width && img.height == height
                && img.frame_type == frame_type && img.samples@ == samples@,
    {
        if width.checked_mul(height) == Some(samples.len()) {
            Ok(Image { width, height, frame_type, samples })
        } else {
            Err(ImageError::DimensionMismatch)
        }
    }

    /// Joins rows of `width` samples each, top row first, into one image.
    ///
    /// Fails with `DimensionMismatch` unless there are `height` rows of
    /// exactly `width` samples.
    pub fn from_rows(width: usize, height: usize, rows: Vec<Vec<S>>, frame_type: FrameType) -> (r:
        Result<Image<S>, ImageError>)
        requires
            width * height <= usize::MAX,
        ensures
            r is Ok <==> rows@.len() == height && forall|k: int|
                0 <= k < rows@.len() ==> (#[trigger] rows@[k])@.len() == width,
            r is Err ==> r == Err::<Image<S>, ImageError>(ImageError::DimensionMismatch),
            r matches Ok(img) ==> img.wf() && img.width == width && img.height == height
                && img.frame_type == frame_type && forall|row: int, column: int|
                0 <= row < height && 0 <= column < width ==> #[trigger] img.at(row, column)
                == rows@[row]@[column],
    {
        if rows.len() != height {
            return Err(ImageError::DimensionMismatch);
        }
        let mut k: usize = 0;
        while k < height
            invariant
                k <= height,
                rows@.len() == height,
                forall|j: int| 0 <= j < k ==> (#[trigger] rows@[j])@.len() == width,
            decreases height - k,
        {
            if rows[k].len() != width {
                return Err(ImageError::DimensionMismatch);
            }
            k = k + 1;
        }
        let mut samples: Vec<S> = Vec::with_capacity(width * height);
        let mut row: usize = 0;
        while row < height
            invariant
                row <= height,
                width * height <= usize::MAX,
                rows@.len() == height,
                forall|j: int| 0 <= j < height ==> (#[trigger] rows@[j])@.len() == width,
                samples@.len() == row * width,
                forall|rr: int, cc: int|
                    0 <= rr < row && 0 <= cc < width ==> #[trigger] samples@[rr * width + cc]
                        == rows@[rr]@[cc],
            decreases height - row,
        {
            let mut c: usize = 0;
            while c < width
                invariant
                    c <= width,
                    row < height,
                    width * height <= usize::MAX,
                    rows@.len() == height,
                    forall|j: int| 0 <= j < height ==> (#[trigger] rows@[j])@.len() == width,
                    samples@.len() == row * width + c,
                    forall|rr: int, cc: int|
                        0 <= rr < row && 0 <= cc < width ==> #[trigger] samples@[rr * width + cc]
                            == rows@[rr]@[cc],
                    forall|cc: int| 0 <= cc < c ==> #[trigger] samples@[row * width + cc] == rows@[row as int]@[cc],
                decreases width - c,
            {
                proof {
                    lemma_offset_in_bounds(width as int, height as int, row as int, c as int);
                }
                let ghost before = samples@;
                samples.push(rows[row][c]);
                proof {
                    assert forall|rr: int, cc: int|
                        0 <= rr < row && 0 <= cc < width implies #[trigger] samples@[rr * width
                            + cc] == rows@[rr]@[cc] by {
                        lemma_offset_in_bounds(width as int, row as int, rr, cc);
                        assert(width * row == row * width) by (nonlinear_arith);
                        assert(before[rr * width + cc] == rows@[rr]@[cc]);
                    }
                }
                c = c + 1;
            }
            proof {
                assert((row + 1) * width == row * width + width) by (nonlinear_arith);
                assert forall|rr: int, cc: int|
                    0 <= rr < row + 1 && 0 <= cc < width implies #[trigger] samples@[rr * width + cc]
                        == rows@[rr]@[cc] by {
                    if rr < row {
                    } else {
                        assert(rr == row);
                    }
                }
            }
            row = row + 1;
        }
        assert(height * width == width * height) by (nonlinear_arith);
        let img = Image { width, height, frame_type, samples };
        assert forall|row: int, column: int|
            0 <= row < height && 0 <= column < width implies #[trigger] img.at(row, column)
                == rows@[row]@[column] by {
            assert(img.offset(row, column) == row * width + column);
        }
        Ok(img)
    }

    /// Whether the buffer holds exactly one sample per coordinate.
    pub fn is_well_formed(&self) -> (r: bool)
        ensures
            r == self.wf(),
    {
        let len = self.samples.len();
        match self.width.checked_mul(self.height) {
            Some(n) => n == len,
            None => false,
        }
    }

    /// Width and height, in that order.
    pub fn dimensions(&self) -> (r: (usize, usize))
        ensures
            r == (self.width, self.height),
    {
        (self.width, self.height)
    }

    /// Sample at `(row, column)`.
    pub fn get(&self, row: usize, column: usize) -> (r: S)
        requires
            self.wf(),
            row < self.height,
            column < self.width,
        ensures
            r == self.at(row as int, column as int),
    {
        let len = self.samples.len();
        proof {
            lemma_offset_in_bounds(self.width as int, self.height as int, row as int, column as int);
        }
        assert(row * self.width + column < len);
        self.samples[row * self.width + column]
    }
}

/// Every coordinate of a `width` by `height` grid has its own place in the buffer.
pub proof fn lemma_offset_in_bounds(width: int, height: int, row: int, column: int)
    requires
        0 <= row < height,
        0 <= column < width,
    ensures
        0 <= row * width + column < width * height,
{
    assert(row * width + column < width * height) by (nonlinear_arith)
        requires
            0 <= row < height,
            0 <= column < width,
    ;
    assert(0 <= row * width) by (nonlinear_arith)
        requires
            0 <= row,
            0 <= column < width,
    ;
}

} // verus!
