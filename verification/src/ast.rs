//! The instructions that travel over the wire, and their mathematical models.
//!
//! Every executable type has a view: the same value with each `Vec` replaced by
//! a `Seq` and each `String` by its sequence of characters. The wire format is
//! defined over the views.
//!
//! Floating-point fields are held as their IEEE 754 single-precision bit
//! patterns, `u32` values that are carried through unchanged, so that an
//! instruction is equal to another exactly when their encodings are.

use vstd::prelude::*;

verus! {

/// A pair of coordinates.
#[derive(Debug, PartialEq, Eq, Clone, Copy)]
pub struct Vector2<T> {
    pub x: T,
    pub y: T,
}

impl<T> Vector2<T> {
    /// The pair `(x, y)`.
    pub fn new(x: T, y: T) -> (v: Self)
        ensures
            v.x == x,
            v.y == y,
    {
        Vector2 { x, y }
    }
}

/// Why a byte stream was rejected.
#[derive(Debug, PartialEq, Eq, Clone, Copy)]
pub enum ParseError {
    /// A record's type tag names neither text nor a figure.
    UnknownRecordType,
    /// A text payload is not UTF-8.
    InvalidText,
    /// A figure element's type tag, carried here, names neither an image nor a
    /// line.
    InvalidDatatype(u32),
    /// An image payload is too short for its size fields, or its pixel bytes
    /// are not four per pixel of the declared size.
    InvalidImage,
    /// A line payload is too short for its colour and thickness, or its
    /// segment bytes are not a whole number of points.
    InvalidLine,
    /// The elements of a figure do not fill its payload exactly.
    TruncatedFigure,
}

/// The model of what a fallible step gives: the model of the value, or the
/// error as it is.
pub open spec fn result_view<T: View>(r: Result<T, ParseError>) -> Result<T::V, ParseError> {
    match r {
        Ok(value) => Ok(value@),
        Err(e) => Err(e),
    }
}

/// The model of an [`RgbaImage`].
pub struct ImageView {
    pub width: u32,
    pub height: u32,
    pub pixels: Seq<u8>,
}

impl ImageView {
    /// Four bytes for each pixel, no more and no fewer.
    pub open spec fn well_sized(self) -> bool {
        self.pixels.len() == self.width as int * self.height as int * 4
    }
}

/// A raster of 8-bit RGBA pixels, row after row, always holding exactly
/// `width * height * 4` bytes.
#[derive(Debug, PartialEq, Eq)]
pub struct RgbaImage {
    width: u32,
    height: u32,
    pixels: Vec<u8>,
}

impl View for RgbaImage {
    type V = ImageView;

    closed spec fn view(&self) -> ImageView {
        ImageView { width: self.width, height: self.height, pixels: self.pixels@ }
    }
}

impl Clone for RgbaImage {
    fn clone(&self) -> (copy: Self)
        ensures
            copy@ == self@,
    {
        proof {
            use_type_invariant(self);
        }
        let pixels: Vec<u8> = self.pixels.clone();
        assert(pixels@ =~= self.pixels@);
        RgbaImage { width: self.width, height: self.height, pixels }
    }
}

impl RgbaImage {
    #[verifier::type_invariant]
    spec fn sized(self) -> bool {
        self.pixels@.len() == self.width as int * self.height as int * 4
    }

    /// A fully transparent black image of the given size.
    pub fn new(width: u32, height: u32) -> (img: Self)
        requires
            width as int * height as int * 4 <= usize::MAX,
        ensures
            img@.width == width,
            img@.height == height,
            img@.pixels == Seq::new((width as int * height as int * 4) as nat, |i: int| 0u8),
    {
        assert(0 <= width as int * height as int) by (nonlinear_arith);
        let area: usize = (width as usize) * (height as usize);
        let len: usize = area * 4;
        let pixels: Vec<u8> = vec![0u8; len];
        assert(pixels@ =~= Seq::new((width as int * height as int * 4) as nat, |i: int| 0u8));
        RgbaImage { width, height, pixels }
    }

    /// The image of the given size in which every pixel is `pixel`.
    pub fn from_pixel(width: u32, height: u32, pixel: [u8; 4]) -> (img: Self)
        requires
            width as int * height as int * 4 <= usize::MAX,
        ensures
            img@.width == width,
            img@.height == height,
            img@.pixels == Seq::new(
                (width as int * height as int * 4) as nat,
                |i: int| pixel[i % 4],
            ),
    {
        assert(0 <= width as int * height as int) by (nonlinear_arith);
        let area: usize = (width as usize) * (height as usize);
        let mut pixels: Vec<u8> = Vec::new();
        let mut i: usize = 0;
        while i < area
            invariant
                i <= area,
                area * 4 <= usize::MAX,
                pixels@ == Seq::new((i * 4) as nat, |k: int| pixel[k % 4]),
            decreases area - i,
        {
            pixels.push(pixel[0]);
            pixels.push(pixel[1]);
            pixels.push(pixel[2]);
            pixels.push(pixel[3]);
            assert(pixels@ =~= Seq::new(((i + 1) * 4) as nat, |k: int| pixel[k % 4]));
            i += 1;
        }
        RgbaImage { width, height, pixels }
    }

    /// The image of the given size over `pixels`, if `pixels` has four bytes
    /// for each of its pixels.
    pub fn from_raw(width: u32, height: u32, pixels: Vec<u8>) -> (r: Option<Self>)
        ensures
            r is Some <==> (ImageView { width, height, pixels: pixels@ }).well_sized(),
            r is Some ==> r->0@ == (ImageView { width, height, pixels: pixels@ }),
    {
        assert(0 <= width as int * height as int <= 0xffff_ffff * 0xffff_ffff) by (nonlinear_arith)
            requires
                0 <= width <= 0xffff_ffff,
                0 <= height <= 0xffff_ffff,
        ;
        let expected: u128 = (width as u128) * (height as u128) * 4;
        if pixels.len() as u128 == expected {
            Some(RgbaImage { width, height, pixels })
        } else {
            None
        }
    }

    /// The number of pixels in a row.
    pub fn width(&self) -> (w: u32)
        ensures
            w == self@.width,
            self@.well_sized(),
    {
        proof {
            use_type_invariant(self);
        }
        self.width
    }

    /// The number of rows.
    pub fn height(&self) -> (h: u32)
        ensures
            h == self@.height,
            self@.well_sized(),
    {
        proof {
            use_type_invariant(self);
        }
        self.height
    }

    /// The pixel bytes, row after row.
    pub fn as_raw(&self) -> (raw: &Vec<u8>)
        ensures
            raw@ == self@.pixels,
            self@.well_sized(),
    {
        proof {
            use_type_invariant(self);
        }
        &self.pixels
    }

    /// Gives up the image for its pixel bytes.
    pub fn into_raw(self) -> (raw: Vec<u8>)
        ensures
            raw@ == self@.pixels,
            self@.well_sized(),
    {
        proof {
            use_type_invariant(&self);
        }
        self.pixels
    }
}

/// The model of a [`Line`].
pub struct LineView {
    pub color: u32,
    pub thickness: u32,
    pub segments: Seq<Vector2<u32>>,
}

/// A polyline. `color` is packed RGBA; `thickness` and the coordinates of
/// `segments` are the bit patterns of single-precision floats.
#[derive(Debug, PartialEq, Eq, Clone)]
pub struct Line {
    pub color: u32,
    pub thickness: u32,
    pub segments: Vec<Vector2<u32>>,
}

impl View for Line {
    type V = LineView;

    open spec fn view(&self) -> LineView {
        LineView { color: self.color, thickness: self.thickness, segments: self.segments@ }
    }
}

/// The model of a [`FigureContentsData`].
pub enum FigureContentsDataView {
    Image(ImageView),
    Line(LineView),
}

/// What an element of a figure draws.
#[derive(Debug, PartialEq, Eq, Clone)]
pub enum FigureContentsData {
    Image(RgbaImage),
    Line(Line),
}

impl View for FigureContentsData {
    type V = FigureContentsDataView;

    open spec fn view(&self) -> FigureContentsDataView {
        match self {
            FigureContentsData::Image(image) => FigureContentsDataView::Image(image@),
            FigureContentsData::Line(line) => FigureContentsDataView::Line(line@),
        }
    }
}

/// The model of a [`FigureContents`].
pub struct FigureContentsView {
    pub data: FigureContentsDataView,
    pub position: Vector2<i32>,
}

/// One element of a figure: something to draw, and where.
#[derive(Debug, PartialEq, Eq, Clone)]
pub struct FigureContents {
    pub data: FigureContentsData,
    pub position: Vector2<i32>,
}

impl View for FigureContents {
    type V = FigureContentsView;

    open spec fn view(&self) -> FigureContentsView {
        FigureContentsView { data: self.data@, position: self.position }
    }
}

/// The model of a [`Figure`].
pub struct FigureView {
    pub dimensions: Vector2<u32>,
    pub contents: Seq<FigureContentsView>,
}

/// A drawing surface and its elements, in paint order.
#[derive(Debug, PartialEq, Eq, Clone)]
pub struct Figure {
    pub dimensions: Vector2<u32>,
    pub contents: Vec<FigureContents>,
}

/// The models of a sequence of elements, one for one.
pub open spec fn contents_view(contents: Seq<FigureContents>) -> Seq<FigureContentsView> {
    Seq::new(contents.len(), |i: int| contents[i]@)
}

/// The models of the elements that a fallible step gives, or its error.
pub open spec fn contents_result_view(r: Result<Vec<FigureContents>, ParseError>) -> Result<
    Seq<FigureContentsView>,
    ParseError,
> {
    match r {
        Ok(contents) => Ok(contents_view(contents@)),
        Err(e) => Err(e),
    }
}

impl View for Figure {
    type V = FigureView;

    open spec fn view(&self) -> FigureView {
        FigureView { dimensions: self.dimensions, contents: contents_view(self.contents@) }
    }
}

/// The model of a [`ParsedAST`].
pub enum ParsedASTView {
    Text(Seq<char>),
    Figure(FigureView),
}

/// One decoded instruction.
#[derive(Debug, PartialEq, Eq, Clone)]
pub enum ParsedAST {
    Text(String),
    Figure(Figure),
}

impl View for ParsedAST {
    type V = ParsedASTView;

    open spec fn view(&self) -> ParsedASTView {
        match self {
            ParsedAST::Text(text) => ParsedASTView::Text(text@),
            ParsedAST::Figure(figure) => ParsedASTView::Figure(figure@),
        }
    }
}

/// The models of a sequence of instructions, one for one.
pub open spec fn asts_view(asts: Seq<ParsedAST>) -> Seq<ParsedASTView> {
    Seq::new(asts.len(), |i: int| asts[i]@)
}

/// The models of the instructions that a fallible step gives, or its error.
pub open spec fn asts_result_view(r: Result<Vec<ParsedAST>, ParseError>) -> Result<
    Seq<ParsedASTView>,
    ParseError,
> {
    match r {
        Ok(asts) => Ok(asts_view(asts@)),
        Err(e) => Err(e),
    }
}

} // verus!
