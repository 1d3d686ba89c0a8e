//! Error taxonomy and the flat image buffer shared by the whole crate.

use vstd::pervasive::VecAdditionalExecFns;
use vstd::prelude::*;

verus! {

/// Failures of the pixel scripting engine and of the input bookkeeping
/// around it.
#[derive(Debug)]
pub enum ScriptError {
    /// Zero inputs were declared where at least one is required.
    NotEnoughinputs,
    /// The expression failed to compile; carries the compiler's diagnostic.
    CompilationError(String),
    /// The expression raised during a pixel evaluation; carries a diagnostic
    /// with the offending source line and a column marker.
    RuntimeError(String),
    /// The expression returned something that is not an ordered sequence
    /// of numeric values.
    InvalidReturnType,
}

/// The abstract value of a [`ScriptError`]: the same variants, with each
/// diagnostic as its character sequence. Contracts speak of this view, so
/// two errors agree exactly when their kinds and diagnostics agree.
pub enum ScriptErrorView {
    NotEnoughinputs,
    CompilationError(Seq<char>),
    RuntimeError(Seq<char>),
    InvalidReturnType,
}

impl View for ScriptError {
    type V = ScriptErrorView;

    open spec fn view(&self) -> ScriptErrorView {
        match self {
            ScriptError::NotEnoughinputs => ScriptErrorView::NotEnoughinputs,
            ScriptError::CompilationError(d) => ScriptErrorView::CompilationError(d@),
            ScriptError::RuntimeError(d) => ScriptErrorView::RuntimeError(d@),
            ScriptError::InvalidReturnType => ScriptErrorView::InvalidReturnType,
        }
    }
}

/// Every failure a tile or bounds request can end in.
#[derive(Debug)]
pub enum Error {
    /// The script descriptor text is malformed.
    DescriptorParseError(String),
    /// A source locator does not follow the `scheme:path` shape, or names an
    /// unknown scheme.
    InvalidPath(String),
    /// A source locator names a scheme that is recognized but not served.
    UnsupportedScheme(String),
    /// A backing raster could not be resolved or opened.
    SourceError(String),
    /// Resampling a raster onto the tile grid failed.
    ReprojectionError(String),
    /// A coordinate transform failed.
    GeometryError(String),
    /// The scripting engine failed; see [`ScriptError`].
    ScriptError(ScriptError),
}

/// The abstract value of an [`Error`]: the same variants, with each
/// message as its character sequence.
pub enum ErrorView {
    DescriptorParseError(Seq<char>),
    InvalidPath(Seq<char>),
    UnsupportedScheme(Seq<char>),
    SourceError(Seq<char>),
    ReprojectionError(Seq<char>),
    GeometryError(Seq<char>),
    ScriptError(ScriptErrorView),
}

impl View for Error {
    type V = ErrorView;

    open spec fn view(&self) -> ErrorView {
        match self {
            Error::DescriptorParseError(m) => ErrorView::DescriptorParseError(m@),
            Error::InvalidPath(m) => ErrorView::InvalidPath(m@),
            Error::UnsupportedScheme(m) => ErrorView::UnsupportedScheme(m@),
            Error::SourceError(m) => ErrorView::SourceError(m@),
            Error::ReprojectionError(m) => ErrorView::ReprojectionError(m@),
            Error::GeometryError(m) => ErrorView::GeometryError(m@),
            Error::ScriptError(e) => ErrorView::ScriptError(e@),
        }
    }
}

/// A `width` by `height` raster with `channels` samples per pixel, stored as
/// one flat buffer in row-major, pixel-interleaved order: sample `c` of the
/// pixel at row `i`, column `j` lives at `i * width * channels + j * channels + c`.
pub struct ImageData<T> {
    pub width: usize,
    pub height: usize,
    pub channels: usize,
    pub data: Vec<T>,
}

impl<T> ImageData<T> {
    /// The buffer holds exactly one sample per channel per pixel.
    pub open spec fn wf(&self) -> bool {
        self.data@.len() == self.width * self.height * self.channels
    }

    /// Index of the first sample of the pixel at row `i`, column `j`.
    pub open spec fn spec_pixel_start(&self, i: int, j: int) -> int {
        i * (self.width * self.channels) + j * self.channels
    }

    /// The channel samples of the pixel at row `i`, column `j`.
    pub open spec fn spec_pixel(&self, i: int, j: int) -> Seq<T> {
        self.data@.subrange(
            self.spec_pixel_start(i, j),
            self.spec_pixel_start(i, j) + self.channels,
        )
    }

    /// A pixel's samples lie inside the buffer.
    pub proof fn lemma_pixel_in_bounds(&self, i: int, j: int)
        requires
            self.wf(),
            0 <= i < self.height,
            0 <= j < self.width,
        ensures
            0 <= self.spec_pixel_start(i, j),
            self.spec_pixel_start(i, j) + self.channels <= self.data@.len(),
            self.width * self.channels <= self.data@.len(),
            i * (self.width * self.channels) <= self.data@.len(),
    {
        let w = self.width as int;
        let h = self.height as int;
        let c = self.channels as int;
        assert(0 <= i * (w * c) + j * c && i * (w * c) + j * c + c <= w * h * c && w * c <= w * h
            * c && i * (w * c) <= w * h * c)
            by (nonlinear_arith)
            requires
                0 <= i < h,
                0 <= j < w,
                0 <= c,
        ;
    }

    /// Builds the image around an existing buffer of the right size.
    pub fn from_vec(width: usize, height: usize, channels: usize, data: Vec<T>) -> (r: ImageData<T>)
        requires
            data@.len() == width * height * channels,
        ensures
            r.wf(),
            r.width == width,
            r.height == height,
            r.channels == channels,
            r.data == data,
    {
        ImageData { width, height, channels, data }
    }

    /// The channel samples of the pixel at row `i`, column `j`, as one
    /// contiguous slice.
    pub fn pixel_data(&self, i: usize, j: usize) -> (r: &[T])
        requires
            self.wf(),
            i < self.height,
            j < self.width,
        ensures
            r@ == self.spec_pixel(i as int, j as int),
    {
        let n: usize = self.data.len();
        proof {
            self.lemma_pixel_in_bounds(i as int, j as int);
        }
        let start_index: usize = i * (self.width * self.channels) + j * self.channels;
        let end_index: usize = start_index + self.channels;
        &self.data[start_index..end_index]
    }
}

impl<T: Copy> ImageData<T> {
    /// Fills channel `band` of every pixel from a flat row-major buffer
    /// holding one sample per pixel, leaving every other channel as it
    /// was. This is how a raster read band by band is interleaved into the
    /// pixel layout.
    pub fn set_band(&mut self, band: usize, samples: &Vec<T>)
        requires
            old(self).wf(),
            band < old(self).channels,
            samples@.len() == old(self).width * old(self).height,
        ensures
            final(self).wf(),
            final(self).width == old(self).width,
            final(self).height == old(self).height,
            final(self).channels == old(self).channels,
            final(self).data@.len() == old(self).data@.len(),
            forall|p: int|
                0 <= p < samples@.len() ==> final(self).data@[p * old(self).channels + band]
                    == samples@[p],
            forall|t: int|
                0 <= t < old(self).data@.len() && t % (old(self).channels as int) != band
                    ==> final(self).data@[t] == old(self).data@[t],
    {
        let c: usize = self.channels;
        let n: usize = samples.len();
        let ghost orig = self.data@;
        proof {
            assert(n * c == self.data@.len() && n * c >= 0) by (nonlinear_arith)
                requires
                    n == self.width * self.height,
                    self.data@.len() == self.width * self.height * self.channels,
                    c == self.channels,
            ;
        }
        let mut p: usize = 0;
        while p < n
            invariant
                n == samples@.len(),
                c == self.channels,
                0 < c,
                band < c,
                n * c == self.data@.len(),
                self.data@.len() == orig.len(),
                self.width == old(self).width,
                self.height == old(self).height,
                self.channels == old(self).channels,
                self.wf(),
                p <= n,
                forall|q: int| 0 <= q < p ==> self.data@[q * c + band] == samples@[q],
                forall|t: int|
                    0 <= t < orig.len() && t % (c as int) != band ==> self.data@[t] == orig[t],
            decreases n - p,
        {
            proof {
                assert(p * c + band < n * c && (p * c + band) % (c as int) == band && p * c + c <= n
                    * c) by (nonlinear_arith)
                    requires
                        0 <= p < n,
                        0 <= band < c,
                ;
            }
            let dn: usize = self.data.len();
            let idx: usize = p * c + band;
            self.data.set(idx, samples[p]);
            proof {
                assert forall|q: int| 0 <= q < p + 1 implies self.data@[q * c + band]
                    == samples@[q] by {
                    if q < p {
                        assert(q * c + band != p * c + band && 0 <= q * c + band < n * c)
                            by (nonlinear_arith)
                            requires
                                0 <= q < p < n,
                                0 <= band < c,
                        ;
                    }
                }
            }
            p = p + 1;
        }
    }
}

impl<T: Default> ImageData<T> {
    /// A fresh image of the given dimensions, filled with the element
    /// type's default value. The contract pins the dimensions; callers
    /// overwrite every sample they hand out.
    pub fn new(width: usize, height: usize, channels: usize) -> (r: ImageData<T>)
        requires
            width * height * channels <= usize::MAX,
            width * height <= usize::MAX,
        ensures
            r.wf(),
            r.width == width,
            r.height == height,
            r.channels == channels,
    {
        let total: usize = width * height * channels;
        let mut data: Vec<T> = Vec::new();
        while data.len() < total
            invariant
                data@.len() <= total,
            decreases total - data@.len(),
        {
            data.push(T::default());
        }
        ImageData { width, height, channels, data }
    }
}

/// Builds a `String` from UTF-8 bytes.
///
/// Relies on `String::from_utf8`: for valid UTF-8 input it succeeds and
/// returns the string holding exactly those bytes.
#[verifier::external_body]
pub(crate) fn string_from_utf8(bytes: Vec<u8>) -> (r: String)
    requires
        vstd::utf8::valid_utf8(bytes@),
    ensures
        r@ == vstd::utf8::decode_utf8(bytes@),
{
    String::from_utf8(bytes).unwrap()
}

/// The PNG encoding of an RGBA image with 8-bit samples, as the `png` crate
/// produces it: a pure function of the dimensions and the sample buffer.
pub uninterp spec fn png_bytes(width: int, height: int, data: Seq<u8>) -> Seq<u8>;

impl ImageData<u8> {
    /// Encode this image as a PNG and return the bytes.
    ///
    /// Relies on `png::Encoder` with `ColorType::Rgba` and `BitDepth::Eight`:
    /// for a non-empty image whose buffer holds `width * height * 4` samples
    /// the encoder cannot fail, and its output depends on the dimensions and
    /// the samples alone.
    #[verifier::external_body]
    pub fn to_png(&self) -> (r: Vec<u8>)
        requires
            self.wf(),
            self.channels == 4,
            1 <= self.width <= u32::MAX,
            1 <= self.height <= u32::MAX,
        ensures
            r@ == png_bytes(self.width as int, self.height as int, self.data@),
    {
        let mut out_buf = Vec::new();
        {
            let w = std::io::BufWriter::new(&mut out_buf);
            let mut encoder = png::Encoder::new(w, self.width as u32, self.height as u32);
            encoder.set_color(png::ColorType::Rgba);
            encoder.set_depth(png::BitDepth::Eight);
            let mut writer = encoder.write_header().unwrap();
            writer.write_image_data(&self.data).unwrap();
        }
        out_buf
    }
}

} // verus!
