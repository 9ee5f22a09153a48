//! Loading an image from its encoded bytes: the decoded samples as they are,
//! and the 8-bit RGB view that is shown, grey images with corrected contrast.
use crate::contrast::{contrast_fixed, fix_image_contrast};
use crate::decode::Layout::{Luma, LumaAlpha, Rgb, Rgba};
use crate::decode::Samples::{Bytes16, Bytes8, Converted};
use image::DynamicImage::{
    ImageLuma16, ImageLuma8, ImageLumaA16, ImageLumaA8, ImageRgb16, ImageRgb8, ImageRgba16, ImageRgba8,
};
use image::{guess_format, load_from_memory_with_format, ImageBuffer};
use vstd::prelude::*;

verus! {

/// How the samples of one pixel are laid out.
#[derive(Debug, Clone, Copy, PartialEq, Eq)]
pub enum Layout {
    /// One grey sample.
    Luma,
    /// A grey sample and an alpha sample.
    LumaAlpha,
    /// Red, green and blue.
    Rgb,
    /// Red, green, blue and alpha.
    Rgba,
}

/// The number of samples of one pixel.
pub open spec fn channels(layout: Layout) -> nat {
    match layout {
        Layout::Luma => 1,
        Layout::LumaAlpha => 2,
        Layout::Rgb => 3,
        Layout::Rgba => 4,
    }
}

/// Where colour `c` (0, 1 or 2 for red, green and blue) of pixel `p` stands
/// among the samples: a grey pixel gives its grey sample to all three.
pub open spec fn source_index(layout: Layout, p: int, c: int) -> int {
    p * channels(layout) + match layout {
        Layout::Luma | Layout::LumaAlpha => 0,
        _ => c,
    }
}

/// The samples of a decoded image, row by row.
pub enum Samples {
    /// 8-bit samples.
    Bytes8(Layout, Vec<u8>),
    /// 16-bit samples.
    Bytes16(Layout, Vec<u16>),
    /// An image of floating-point samples, which this library does not hold,
    /// as the decoder converts it into 8-bit RGB.
    Converted(Vec<u8>),
}

/// What [`Samples`] holds.
pub enum SamplesView {
    Bytes8(Layout, Seq<u8>),
    Bytes16(Layout, Seq<u16>),
    Converted(Seq<u8>),
}

/// A decoded image: its size and its samples.
pub struct DecodedImage {
    pub width: u32,
    pub height: u32,
    pub samples: Samples,
}

/// What a [`DecodedImage`] holds.
pub struct DecodedView {
    pub width: u32,
    pub height: u32,
    pub samples: SamplesView,
}

impl View for DecodedImage {
    type V = DecodedView;

    open spec fn view(&self) -> DecodedView {
        DecodedView {
            width: self.width,
            height: self.height,
            samples: match self.samples {
                Samples::Bytes8(layout, s) => SamplesView::Bytes8(layout, s@),
                Samples::Bytes16(layout, s) => SamplesView::Bytes16(layout, s@),
                Samples::Converted(rgb) => SamplesView::Converted(rgb@),
            },
        }
    }
}

/// The samples hold every pixel of the image, and nothing more.
pub open spec fn holds_exactly(d: DecodedView) -> bool {
    let n = d.width * d.height;
    match d.samples {
        SamplesView::Bytes8(layout, s) => s.len() == channels(layout) * n,
        SamplesView::Bytes16(layout, s) => s.len() == channels(layout) * n,
        SamplesView::Converted(rgb) => rgb.len() == 3 * n,
    }
}

/// A 16-bit sample scaled to 8 bits, rounded to the nearest value.
pub open spec fn to_eight_bits(s: u16) -> u8 {
    ((s + 128) / 257) as u8
}

/// The 8-bit RGB samples of the image `d`: three per pixel, grey pixels
/// repeated, alpha left out, 16-bit samples scaled to 8 bits.
pub open spec fn rgb8_of(d: DecodedView) -> Seq<u8> {
    let n = d.width * d.height;
    match d.samples {
        SamplesView::Bytes8(layout, s) => Seq::new((3 * n) as nat, |k: int| s[source_index(layout, k / 3, k % 3)]),
        SamplesView::Bytes16(layout, s) => Seq::new(
            (3 * n) as nat,
            |k: int| to_eight_bits(s[source_index(layout, k / 3, k % 3)]),
        ),
        SamplesView::Converted(rgb) => rgb,
    }
}

/// The image that the `image` crate decodes `bytes` into, in the format that
/// its magic bytes show, if they are an image it reads.
pub uninterp spec fn decoded_image(bytes: Seq<u8>) -> Option<DecodedView>;

/// Guesses the format of `bytes` from their magic bytes with
/// `image::guess_format`, which reads the crate's own table of signatures
/// alone, and decodes them with `image::load_from_memory_with_format`, which
/// for a format so given runs the crate's own decoder: neither consults the
/// hooks that a process may register. The contract claims that the result is
/// a function of the bytes, named `decoded_image`, and that the samples hold
/// every pixel and nothing more, as the decoders fill them. Images of
/// floating-point samples come converted by `DynamicImage::to_rgb8`; the name
/// covers that conversion for them alone.
#[verifier::external_body]
fn decode_image(bytes: &[u8]) -> (r: Option<DecodedImage>)
    ensures
        r is Some <==> decoded_image(bytes@) is Some,
        r matches Some(d) ==> d@ == decoded_image(bytes@)->0 && holds_exactly(d@),
{
    let d = load_from_memory_with_format(bytes, guess_format(bytes).ok()?).ok()?;
    Some(DecodedImage { width: d.width(), height: d.height(), samples: match d {
        ImageLuma8(i) => Bytes8(Luma, i.into_raw()),
        ImageLumaA8(i) => Bytes8(LumaAlpha, i.into_raw()),
        ImageRgb8(i) => Bytes8(Rgb, i.into_raw()),
        ImageRgba8(i) => Bytes8(Rgba, i.into_raw()),
        ImageLuma16(i) => Bytes16(Luma, i.into_raw()),
        ImageLumaA16(i) => Bytes16(LumaAlpha, i.into_raw()),
        ImageRgb16(i) => Bytes16(Rgb, i.into_raw()),
        ImageRgba16(i) => Bytes16(Rgba, i.into_raw()),
        other => Converted(other.to_rgb8().into_raw()),
    } })
}

/// Converts an image of 8-bit samples into 8-bit RGB with
/// `DynamicImage::to_rgb8`. Its source copies RGB images, drops the alpha
/// sample of RGBA ones, and gives grey ones their grey value in all three
/// colours (through `f32`, scaling by 1/255 and back and rounding, which
/// gives each value back). The contract claims exactly `rgb8_of`.
#[verifier::external_body]
fn bytes8_to_rgb8(width: u32, height: u32, layout: Layout, samples: &Vec<u8>) -> (rgb: Vec<u8>)
    requires
        samples@.len() == channels(layout) * (width * height),
    ensures
        rgb@ == rgb8_of(DecodedView { width, height, samples: SamplesView::Bytes8(layout, samples@) }),
{
    let (w, h, s) = (width, height, samples.clone());
    let image = match layout {
        Luma => ImageLuma8(ImageBuffer::from_raw(w, h, s).unwrap()),
        LumaAlpha => ImageLumaA8(ImageBuffer::from_raw(w, h, s).unwrap()),
        Rgb => ImageRgb8(ImageBuffer::from_raw(w, h, s).unwrap()),
        Rgba => ImageRgba8(ImageBuffer::from_raw(w, h, s).unwrap()),
    };
    image.to_rgb8().into_raw()
}

/// Converts an image of 16-bit samples into 8-bit RGB with
/// `DynamicImage::to_rgb8`. Its source scales each sample `s` of an RGB or
/// RGBA image to `(s + 128) / 257` and drops alpha; a grey sample goes
/// through `f32` as `round(s / 65535 * 255)`, which is the same value, into
/// all three colours. The contract claims exactly `rgb8_of`.
#[verifier::external_body]
fn bytes16_to_rgb8(width: u32, height: u32, layout: Layout, samples: &Vec<u16>) -> (rgb: Vec<u8>)
    requires
        samples@.len() == channels(layout) * (width * height),
    ensures
        rgb@ == rgb8_of(DecodedView { width, height, samples: SamplesView::Bytes16(layout, samples@) }),
{
    let (w, h, s) = (width, height, samples.clone());
    let image = match layout {
        Luma => ImageLuma16(ImageBuffer::from_raw(w, h, s).unwrap()),
        LumaAlpha => ImageLumaA16(ImageBuffer::from_raw(w, h, s).unwrap()),
        Rgb => ImageRgb16(ImageBuffer::from_raw(w, h, s).unwrap()),
        Rgba => ImageRgba16(ImageBuffer::from_raw(w, h, s).unwrap()),
    };
    image.to_rgb8().into_raw()
}

/// The 8-bit values of `wide`, cut to their low byte.
pub open spec fn low_bytes(wide: Seq<u16>) -> Seq<u8> {
    Seq::new(wide.len(), |i: int| wide[i] as u8)
}

/// The 16-bit values of `narrow`.
pub open spec fn widened(narrow: Seq<u8>) -> Seq<u16> {
    Seq::new(narrow.len(), |i: int| narrow[i] as u16)
}

/// Why an image could not be loaded.
#[derive(Debug, Clone, Copy, PartialEq, Eq)]
pub enum LoadError {
    /// The bytes are no image that the decoder reads.
    Decode,
    /// The image has no columns.
    InvalidWidth,
    /// The image has no rows.
    InvalidHeight,
}

/// An image as loaded: its samples as decoded, and the 8-bit RGB samples of
/// the view shown.
pub struct LoadedImage {
    pub original: DecodedImage,
    pub width: u32,
    pub height: u32,
    pub adjust: Vec<u8>,
}

/// `d` with its samples replaced by `samples`.
pub open spec fn with_samples(d: DecodedView, samples: SamplesView) -> DecodedView {
    DecodedView { width: d.width, height: d.height, samples }
}

/// `r` is what loading the decoded image `d` gives: grey images are kept and
/// shown with corrected contrast (`stretch8` for 8-bit, `stretch16` for
/// 16-bit samples), 8-bit RGB images are kept and shown as they are, and any
/// other image is kept and shown in its 8-bit RGB conversion.
pub open spec fn loads_as<F8: Fn(u16, u16, u16) -> u16, F16: Fn(u16, u16, u16) -> u16>(
    d: DecodedView,
    r: LoadedImage,
    stretch8: F8,
    stretch16: F16,
) -> bool {
    &&& r.width == d.width
    &&& r.height == d.height
    &&& match d.samples {
        SamplesView::Bytes8(Layout::Luma, s) => {
            &&& r.original@ == d
            &&& exists|fixed: Seq<u16>| #[trigger] contrast_fixed(widened(s), fixed, stretch8)
                && r.adjust@ == rgb8_of(with_samples(d, SamplesView::Bytes8(Layout::Luma, low_bytes(fixed))))
        },
        SamplesView::Bytes16(Layout::Luma, s) => {
            &&& r.original@ == d
            &&& exists|fixed: Seq<u16>| #[trigger] contrast_fixed(s, fixed, stretch16)
                && r.adjust@ == rgb8_of(with_samples(d, SamplesView::Bytes16(Layout::Luma, fixed)))
        },
        SamplesView::Bytes8(Layout::Rgb, s) => r.original@ == d && r.adjust@ == rgb8_of(d),
        _ => r.original@ == with_samples(d, SamplesView::Bytes8(Layout::Rgb, rgb8_of(d))) && r.adjust@ == rgb8_of(d),
    }
}

fn widen(narrow: &Vec<u8>) -> (wide: Vec<u16>)
    ensures
        wide@ == widened(narrow@),
{
    let mut wide: Vec<u16> = Vec::new();
    let mut i: usize = 0;
    while i < narrow.len()
        invariant
            i <= narrow@.len(),
            wide@ == widened(narrow@.take(i as int)),
        decreases narrow@.len() - i,
    {
        wide.push(narrow[i] as u16);
        proof {
            assert(widened(narrow@.take(i + 1)) =~= widened(narrow@.take(i as int)).push(narrow@[i as int] as u16));
        }
        i = i + 1;
    }
    proof {
        assert(narrow@.take(i as int) =~= narrow@);
    }
    wide
}

fn narrow(wide: &Vec<u16>) -> (narrow: Vec<u8>)
    ensures
        narrow@ == low_bytes(wide@),
{
    let mut narrow: Vec<u8> = Vec::new();
    let mut i: usize = 0;
    while i < wide.len()
        invariant
            i <= wide@.len(),
            narrow@ == low_bytes(wide@.take(i as int)),
        decreases wide@.len() - i,
    {
        narrow.push(wide[i] as u8);
        proof {
            assert(low_bytes(wide@.take(i + 1)) =~= low_bytes(wide@.take(i as int)).push(wide@[i as int] as u8));
        }
        i = i + 1;
    }
    proof {
        assert(wide@.take(i as int) =~= wide@);
    }
    narrow
}

fn copy_bytes(v: &Vec<u8>) -> (out: Vec<u8>)
    ensures
        out@ == v@,
{
    let mut out: Vec<u8> = Vec::new();
    let mut i: usize = 0;
    while i < v.len()
        invariant
            i <= v@.len(),
            out@ == v@.take(i as int),
        decreases v@.len() - i,
    {
        out.push(v[i]);
        proof {
            assert(v@.take(i + 1) =~= v@.take(i as int).push(v@[i as int]));
        }
        i = i + 1;
    }
    proof {
        assert(v@.take(i as int) =~= v@);
    }
    out
}

proof fn lemma_some_pixel(len: int, c: int, width: u32, height: u32)
    requires
        len == c * (width * height),
        c >= 1,
        width >= 1,
        height >= 1,
    ensures
        len >= 1,
{
    assert(width * height >= 1) by (nonlinear_arith)
        requires
            width >= 1,
            height >= 1,
    ;
    assert(c * (width * height) >= 1) by (nonlinear_arith)
        requires
            c >= 1,
            width * height >= 1,
    ;
}

/// Loads a decoded image: fails where it has no columns or no rows, and
/// otherwise keeps it with the view that is shown, as `loads_as` states.
pub fn load_decoded<F8: Fn(u16, u16, u16) -> u16, F16: Fn(u16, u16, u16) -> u16>(
    decoded: DecodedImage,
    stretch8: F8,
    stretch16: F16,
) -> (r: Result<LoadedImage, LoadError>)
    requires
        holds_exactly(decoded@),
        forall|p: u16, lo: u16, hi: u16| lo < hi ==> call_requires(stretch8, (p, lo, hi)),
        forall|p: u16, lo: u16, hi: u16| lo < hi ==> call_requires(stretch16, (p, lo, hi)),
    ensures
        r == Err::<LoadedImage, LoadError>(LoadError::InvalidWidth) <==> decoded@.width == 0,
        r == Err::<LoadedImage, LoadError>(LoadError::InvalidHeight) <==> decoded@.width != 0 && decoded@.height == 0,
        r is Ok <==> decoded@.width != 0 && decoded@.height != 0,
        r matches Ok(x) ==> loads_as(decoded@, x, stretch8, stretch16),
{
    let ghost d = decoded@;
    let DecodedImage { width, height, samples } = decoded;
    if width == 0 {
        return Err(LoadError::InvalidWidth);
    }
    if height == 0 {
        return Err(LoadError::InvalidHeight);
    }
    match samples {
        Samples::Bytes8(Layout::Luma, s) => {
            proof {
                lemma_some_pixel(s@.len() as int, 1, width, height);
            }
            let wide = widen(&s);
            let fixed = fix_image_contrast(&wide, stretch8);
            let ghost fixed_view = fixed@;
            let grey = narrow(&fixed);
            let adjust = bytes8_to_rgb8(width, height, Layout::Luma, &grey);
            let r = LoadedImage { original: DecodedImage { width, height, samples: Samples::Bytes8(Layout::Luma, s) }, width, height, adjust };
            proof {
                assert(contrast_fixed(widened(s@), fixed_view, stretch8));
                assert(with_samples(d, SamplesView::Bytes8(Layout::Luma, low_bytes(fixed_view))) == DecodedView {
                    width,
                    height,
                    samples: SamplesView::Bytes8(Layout::Luma, grey@),
                });
            }
            Ok(r)
        },
        Samples::Bytes16(Layout::Luma, s) => {
            proof {
                lemma_some_pixel(s@.len() as int, 1, width, height);
            }
            let fixed = fix_image_contrast(&s, stretch16);
            let adjust = bytes16_to_rgb8(width, height, Layout::Luma, &fixed);
            let r = LoadedImage { original: DecodedImage { width, height, samples: Samples::Bytes16(Layout::Luma, s) }, width, height, adjust };
            proof {
                assert(contrast_fixed(s@, fixed@, stretch16));
            }
            Ok(r)
        },
        Samples::Bytes8(Layout::Rgb, s) => {
            let adjust = bytes8_to_rgb8(width, height, Layout::Rgb, &s);
            Ok(LoadedImage { original: DecodedImage { width, height, samples: Samples::Bytes8(Layout::Rgb, s) }, width, height, adjust })
        },
        Samples::Bytes8(layout, s) => {
            let rgb = bytes8_to_rgb8(width, height, layout, &s);
            let adjust = copy_bytes(&rgb);
            Ok(LoadedImage { original: DecodedImage { width, height, samples: Samples::Bytes8(Layout::Rgb, rgb) }, width, height, adjust })
        },
        Samples::Bytes16(layout, s) => {
            let rgb = bytes16_to_rgb8(width, height, layout, &s);
            let adjust = copy_bytes(&rgb);
            Ok(LoadedImage { original: DecodedImage { width, height, samples: Samples::Bytes8(Layout::Rgb, rgb) }, width, height, adjust })
        },
        Samples::Converted(rgb) => {
            let adjust = copy_bytes(&rgb);
            Ok(LoadedImage { original: DecodedImage { width, height, samples: Samples::Bytes8(Layout::Rgb, rgb) }, width, height, adjust })
        },
    }
}

/// Loads an image from its encoded bytes. Fails where the bytes are no image
/// the decoder reads, or where the image has no columns or no rows.
pub fn load_image<F8: Fn(u16, u16, u16) -> u16, F16: Fn(u16, u16, u16) -> u16>(
    bytes: &[u8],
    stretch8: F8,
    stretch16: F16,
) -> (r: Result<LoadedImage, LoadError>)
    requires
        forall|p: u16, lo: u16, hi: u16| lo < hi ==> call_requires(stretch8, (p, lo, hi)),
        forall|p: u16, lo: u16, hi: u16| lo < hi ==> call_requires(stretch16, (p, lo, hi)),
    ensures
        r == Err::<LoadedImage, LoadError>(LoadError::Decode) <==> decoded_image(bytes@) is None,
        r == Err::<LoadedImage, LoadError>(LoadError::InvalidWidth) <==> (decoded_image(bytes@) matches Some(d)
            && d.width == 0),
        r == Err::<LoadedImage, LoadError>(LoadError::InvalidHeight) <==> (decoded_image(bytes@) matches Some(d)
            && d.width != 0 && d.height == 0),
        r matches Ok(x) ==> decoded_image(bytes@) matches Some(d) && loads_as(d, x, stretch8, stretch16),
{
    match decode_image(bytes) {
        Some(decoded) => load_decoded(decoded, stretch8, stretch16),
        None => Err(LoadError::Decode),
    }
}


/// A grey image of 16-bit samples is shown with corrected contrast: there are
/// contrast-fixed samples `fixed` of its samples, and each pixel is shown in
/// all three colours as its fixed sample scaled to 8 bits.
pub proof fn lemma_grey16_shown_contrast_fixed<F8: Fn(u16, u16, u16) -> u16, F16: Fn(u16, u16, u16) -> u16>(
    d: DecodedView,
    r: LoadedImage,
    stretch8: F8,
    stretch16: F16,
    s: Seq<u16>,
)
    requires
        d.samples == SamplesView::Bytes16(Layout::Luma, s),
        holds_exactly(d),
        loads_as(d, r, stretch8, stretch16),
    ensures
        r.original@ == d,
        exists|fixed: Seq<u16>| #[trigger] contrast_fixed(s, fixed, stretch16)
            && fixed.len() == d.width * d.height
            && r.adjust@.len() == 3 * (d.width * d.height)
            && forall|k: int| 0 <= k < r.adjust@.len() ==> #[trigger] r.adjust@[k] == ((fixed[k / 3] + 128) / 257) as u8,
{
    let fixed = choose|fixed: Seq<u16>| #[trigger] contrast_fixed(s, fixed, stretch16)
        && r.adjust@ == rgb8_of(with_samples(d, SamplesView::Bytes16(Layout::Luma, fixed)));
    assert(fixed.len() == s.len());
    assert forall|k: int| 0 <= k < r.adjust@.len() implies #[trigger] r.adjust@[k] == ((fixed[k / 3] + 128) / 257) as u8 by {
        assert(source_index(Layout::Luma, k / 3, k % 3) == k / 3);
    }
}

/// A grey image of 8-bit samples is shown with corrected contrast: there are
/// contrast-fixed samples `fixed` of its samples, and each pixel is shown in
/// all three colours as its fixed sample.
pub proof fn lemma_grey8_shown_contrast_fixed<F8: Fn(u16, u16, u16) -> u16, F16: Fn(u16, u16, u16) -> u16>(
    d: DecodedView,
    r: LoadedImage,
    stretch8: F8,
    stretch16: F16,
    s: Seq<u8>,
)
    requires
        d.samples == SamplesView::Bytes8(Layout::Luma, s),
        holds_exactly(d),
        loads_as(d, r, stretch8, stretch16),
    ensures
        r.original@ == d,
        exists|fixed: Seq<u16>| #[trigger] contrast_fixed(widened(s), fixed, stretch8)
            && fixed.len() == d.width * d.height
            && r.adjust@.len() == 3 * (d.width * d.height)
            && forall|k: int| 0 <= k < r.adjust@.len() ==> #[trigger] r.adjust@[k] == fixed[k / 3] as u8,
{
    let fixed = choose|fixed: Seq<u16>| #[trigger] contrast_fixed(widened(s), fixed, stretch8)
        && r.adjust@ == rgb8_of(with_samples(d, SamplesView::Bytes8(Layout::Luma, low_bytes(fixed))));
    let n = d.width * d.height;
    assert(widened(s).len() == s.len());
    assert(fixed.len() == s.len());
    assert(channels(Layout::Luma) == 1);
    assert(s.len() == n);
    assert forall|k: int| 0 <= k < r.adjust@.len() implies #[trigger] r.adjust@[k] == fixed[k / 3] as u8 by {
        assert(source_index(Layout::Luma, k / 3, k % 3) == k / 3);
        assert(0 <= k / 3 < n) by (nonlinear_arith)
            requires
                0 <= k < 3 * n,
        ;
    }
}

/// An 8-bit RGB image is kept and shown as it is.
pub proof fn lemma_rgb8_shown_as_is<F8: Fn(u16, u16, u16) -> u16, F16: Fn(u16, u16, u16) -> u16>(
    d: DecodedView,
    r: LoadedImage,
    stretch8: F8,
    stretch16: F16,
    s: Seq<u8>,
)
    requires
        d.samples == SamplesView::Bytes8(Layout::Rgb, s),
        holds_exactly(d),
        loads_as(d, r, stretch8, stretch16),
    ensures
        r.original@ == d,
        r.adjust@ == s,
{
    assert forall|k: int| 0 <= k < s.len() implies #[trigger] rgb8_of(d)[k] == s[k] by {
        assert(source_index(Layout::Rgb, k / 3, k % 3) == (k / 3) * 3 + k % 3);
    }
    assert(rgb8_of(d) =~= s);
}


/// What an image that is neither grey nor 8-bit RGB is shown as: three
/// samples per pixel, red, green and blue, alpha dropped, a grey sample given
/// to all three colours, 16-bit samples scaled to the nearest 8-bit value; the
/// image is kept as those 8-bit RGB samples.
pub proof fn lemma_other_shown_in_rgb<F8: Fn(u16, u16, u16) -> u16, F16: Fn(u16, u16, u16) -> u16>(
    d: DecodedView,
    r: LoadedImage,
    stretch8: F8,
    stretch16: F16,
)
    requires
        !(d.samples matches SamplesView::Bytes8(Layout::Luma, _)),
        !(d.samples matches SamplesView::Bytes16(Layout::Luma, _)),
        !(d.samples matches SamplesView::Bytes8(Layout::Rgb, _)),
        holds_exactly(d),
        loads_as(d, r, stretch8, stretch16),
    ensures
        r.original@ == (DecodedView { width: d.width, height: d.height, samples: SamplesView::Bytes8(Layout::Rgb, r.adjust@) }),
        r.adjust@.len() == 3 * (d.width * d.height),
        forall|k: int| 0 <= k < r.adjust@.len() ==> match d.samples {
            SamplesView::Bytes8(Layout::Rgba, s) => #[trigger] r.adjust@[k] == s[(k / 3) * 4 + k % 3],
            SamplesView::Bytes8(Layout::LumaAlpha, s) => r.adjust@[k] == s[(k / 3) * 2],
            SamplesView::Bytes16(Layout::Rgb, s) => r.adjust@[k] == ((s[(k / 3) * 3 + k % 3] + 128) / 257) as u8,
            SamplesView::Bytes16(Layout::Rgba, s) => r.adjust@[k] == ((s[(k / 3) * 4 + k % 3] + 128) / 257) as u8,
            SamplesView::Bytes16(Layout::LumaAlpha, s) => r.adjust@[k] == ((s[(k / 3) * 2] + 128) / 257) as u8,
            SamplesView::Converted(rgb) => r.adjust@[k] == rgb[k],
            _ => false,
        },
{
}


/// A loaded image has the size of the decoded one, and so has the image it
/// keeps.
pub proof fn lemma_loaded_size<F8: Fn(u16, u16, u16) -> u16, F16: Fn(u16, u16, u16) -> u16>(
    d: DecodedView,
    r: LoadedImage,
    stretch8: F8,
    stretch16: F16,
)
    requires
        loads_as(d, r, stretch8, stretch16),
    ensures
        r.width == d.width,
        r.height == d.height,
        r.original@.width == d.width,
        r.original@.height == d.height,
{
}

} // verus!
