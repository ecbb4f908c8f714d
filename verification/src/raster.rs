//! Images as rows of RGBA pixels, and their files.
use crate::error::{outcome, Error, ErrorView, Fault};
use crate::payload::{Entry, FileEntry};
use crate::text::{chars_of, is_png};
use image::imageops::FilterType;
use image::{DynamicImage, ImageBuffer, ImageFormat, ImageReader};
use std::io::Cursor;
use std::path::Path;
use vstd::prelude::*;

verus! {

/// The mathematical view of an image: its size and its bytes, four to a pixel.
#[verifier::ext_equal]
pub struct Raster {
    pub width: u32,
    pub height: u32,
    pub data: Seq<u8>,
}

impl Raster {
    /// The number of pixels.
    pub open spec fn pixels(self) -> nat {
        self.width as nat * self.height as nat
    }

    /// The bytes are those of all pixels, and four times their number can be
    /// counted.
    pub open spec fn wf(self) -> bool {
        &&& self.data.len() == 4 * self.pixels()
        &&& 16 * self.pixels() <= usize::MAX
    }
}

/// An image of eight bit RGBA pixels.
#[derive(Debug)]
pub struct RgbaImage {
    width: u32,
    height: u32,
    data: Vec<u8>,
}

impl View for RgbaImage {
    type V = Raster;

    closed spec fn view(&self) -> Raster {
        Raster { width: self.width, height: self.height, data: self.data@ }
    }
}

impl RgbaImage {
    #[verifier::type_invariant]
    spec fn valid(self) -> bool {
        self@.wf()
    }

    /// The image of the given size and bytes, if they are an image's.
    pub fn from_raw(width: u32, height: u32, data: Vec<u8>) -> (out: Option<RgbaImage>)
        ensures
            out is Some <==> (Raster { width, height, data: data@ }).wf(),
            out matches Some(img) ==> img@ == (Raster { width, height, data: data@ }),
    {
        assert(width as int * height as int <= 0xffff_ffff * 0xffff_ffff) by (nonlinear_arith)
            requires
                width <= 0xffff_ffff,
                height <= 0xffff_ffff,
        ;
        let pixels: u128 = width as u128 * height as u128;
        assert(pixels == (Raster { width, height, data: data@ }).pixels());
        if pixels * 16 <= usize::MAX as u128 && pixels * 4 == data.len() as u128 {
            Some(RgbaImage { width, height, data })
        } else {
            None
        }
    }

    /// The width in pixels.
    pub fn width(&self) -> (out: u32)
        ensures
            out == self@.width,
            self@.wf(),
    {
        proof {
            use_type_invariant(self);
        }
        self.width
    }

    /// The height in pixels.
    pub fn height(&self) -> (out: u32)
        ensures
            out == self@.height,
            self@.wf(),
    {
        proof {
            use_type_invariant(self);
        }
        self.height
    }

    /// The bytes of the pixels.
    pub fn as_raw(&self) -> (out: &[u8])
        ensures
            out@ == self@.data,
            self@.wf(),
    {
        proof {
            use_type_invariant(self);
        }
        self.data.as_slice()
    }

    /// Takes the bytes of the pixels out of the image.
    pub fn into_raw(self) -> (out: Vec<u8>)
        ensures
            out@ == self@.data,
            self@.wf(),
    {
        proof {
            use_type_invariant(&self);
        }
        self.data
    }
}

/// What `image` decodes from the bytes of a file of the given name: width,
/// height and RGBA bytes, or the text of its error.
pub uninterp spec fn decoded_image(name: Seq<char>, bytes: Seq<u8>) -> Result<
    (u32, u32, Seq<u8>),
    Seq<char>,
>;

/// What `image` makes of a decoded file scaled to the given size: width, height
/// and RGBA bytes, or the text of its error.
pub uninterp spec fn resized_image(
    name: Seq<char>,
    bytes: Seq<u8>,
    width: u32,
    height: u32,
) -> Result<(u32, u32, Seq<u8>), Seq<char>>;

/// The bytes that `image` writes for RGBA pixels into a file of the given name,
/// or the text of its error.
pub uninterp spec fn encoded_image(
    name: Seq<char>,
    width: u32,
    height: u32,
    data: Seq<u8>,
) -> Result<Seq<u8>, Seq<char>>;

/// The bytes that `image` writes into a file of the name `out_name` for an image
/// that it decodes from another file, or the text of its error.
pub uninterp spec fn recoded_image(
    name: Seq<char>,
    bytes: Seq<u8>,
    out_name: Seq<char>,
) -> Result<Seq<u8>, Seq<char>>;

/// Whether a file name is a stem and the extension `png`, in letters of either
/// case.
pub open spec fn is_png_name(name: Seq<char>) -> bool {
    &&& name.len() >= 5
    &&& is_png(name.skip(name.len() - 3))
    &&& name[name.len() - 4] == '.'
    &&& name[name.len() - 5] != '/'
    &&& name[name.len() - 5] != '\\'
    &&& name[name.len() - 5] != ':'
}

/// The largest number of bytes that images decode to.
pub const MAX_DECODED: u64 = 536_870_912;

/// The widest rows that images are written with.
pub const MAX_WIDTH: u32 = 1_073_741_823;

/// Whether pixels that were written as PNG decode to the same.
pub open spec fn lossless(bytes: Seq<u8>, width: u32, height: u32, data: Seq<u8>) -> bool {
    forall|name: Seq<char>| #![trigger decoded_image(name, bytes)]
        is_png_name(name) ==> {
            &&& data.len() <= MAX_DECODED ==> decoded_image(name, bytes) is Ok
            &&& decoded_image(name, bytes) matches Ok(p) ==> p == (width, height, data)
        }
}

/// Pixels, or the text of an error, in their mathematical views.
pub open spec fn pixels_of(r: Result<(u32, u32, Vec<u8>), String>) -> Result<
    (u32, u32, Seq<u8>),
    Seq<char>,
> {
    match r {
        Ok(p) => Ok((p.0, p.1, p.2@)),
        Err(text) => Err(text@),
    }
}

/// Bytes, or the text of an error, in their mathematical views.
pub open spec fn bytes_of(r: Result<Vec<u8>, String>) -> Result<Seq<u8>, Seq<char>> {
    match r {
        Ok(bytes) => Ok(bytes@),
        Err(text) => Err(text@),
    }
}

/// Decodes with `image::ImageReader::decode`, in the format that
/// `ImageFormat::from_path` gives for the name. The result, errors as text, is a
/// function of the name and the bytes. An image has four bytes for each pixel. The
/// decoder's default memory limit, `MAX_DECODED` bytes, bounds the number of pixels,
/// which take at least a byte each before they are turned into RGBA.
#[verifier::external_body]
fn decode_rgba(name: &str, bytes: &[u8]) -> (out: Result<(u32, u32, Vec<u8>), String>)
    ensures
        pixels_of(out) == decoded_image(name@, bytes@),
        out is Ok ==> out->Ok_0.2@.len() == 4 * (out->Ok_0.0 as nat * out->Ok_0.1 as nat),
        out is Ok ==> out->Ok_0.2@.len() <= 4 * MAX_DECODED,
{
    let format = ImageFormat::from_path(Path::new(name)).map_err(|e| e.to_string())?;
    let reader = ImageReader::with_format(Cursor::new(bytes), format);
    let img = reader.decode().map_err(|e| e.to_string())?.to_rgba8();
    Ok((img.width(), img.height(), img.into_raw()))
}

/// Scales with `DynamicImage::resize_exact` and a triangle filter what decoding
/// the file gives. The file is one that decodes, so this gives an image: it has the
/// size that was asked for, and is a function of the arguments. The sizes are those
/// for which the intermediate image of `resize_exact`, four floats to a pixel, can
/// be allocated and its sampling positions, in single precision, are sure to be less
/// than a pixel away from the image. Their error is a few units in the last place of
/// the side that is scaled. At a pixel from the image all weights are 0, and
/// `resize_exact` panics.
#[verifier::external_body]
fn resize_rgba(name: &str, bytes: &[u8], width: u32, height: u32) -> (out: Result<
    (u32, u32, Vec<u8>),
    String,
>)
    requires
        decoded_image(name@, bytes@) matches Ok(p) && resizable(p.0, p.1, width, height),
    ensures
        pixels_of(out) == resized_image(name@, bytes@, width, height),
        out is Ok,
        out->Ok_0.0 == width && out->Ok_0.1 == height,
        out->Ok_0.2@.len() == 4 * (width as nat * height as nat),
{
    let format = ImageFormat::from_path(Path::new(name)).map_err(|e| e.to_string())?;
    let reader = ImageReader::with_format(Cursor::new(bytes), format);
    let img = reader.decode().map_err(|e| e.to_string())?;
    let scaled = img.resize_exact(width, height, FilterType::Triangle).to_rgba8();
    Ok((scaled.width(), scaled.height(), scaled.into_raw()))
}

/// Encodes with `DynamicImage::write_to`, in the format that
/// `ImageFormat::from_path` gives for the name. The result, errors as text, is a
/// function of the arguments. As PNG, rows of up to `MAX_WIDTH` pixels, whose runs
/// of zeros the compressor can count in 32 bits, can be written. PNG is lossless for
/// RGBA pixels: a file that was written as PNG decodes to the pixels that were
/// written, up to `MAX_DECODED` bytes, the default memory limit of the decoder, and
/// beyond it wherever it decodes.
#[verifier::external_body]
fn encode_rgba(name: &str, width: u32, height: u32, data: Vec<u8>) -> (out: Result<
    Vec<u8>,
    String,
>)
    requires
        0 < width <= MAX_WIDTH,
        height > 0,
        data@.len() == 4 * (width as nat * height as nat),
    ensures
        bytes_of(out) == encoded_image(name@, width, height, data@),
        is_png_name(name@) ==> out is Ok,
        out is Ok && is_png_name(name@) ==> lossless(out->Ok_0@, width, height, data@),
{
    let format = ImageFormat::from_path(Path::new(name)).map_err(|e| e.to_string())?;
    let buffer = ImageBuffer::from_raw(width, height, data).unwrap();
    let mut out: Vec<u8> = Vec::new();
    let img = DynamicImage::ImageRgba8(buffer);
    img.write_to(Cursor::new(&mut out), format).map_err(|e| e.to_string())?;
    Ok(out)
}

/// Encodes with `DynamicImage::write_to` what decoding a file gives, in its own
/// colour type, in the format that `ImageFormat::from_path` gives for `out_name`.
/// The result, errors as text, is a function of the arguments.
#[verifier::external_body]
fn recode(name: &str, bytes: &[u8], out_name: &str) -> (out: Result<Vec<u8>, String>)
    ensures
        bytes_of(out) == recoded_image(name@, bytes@, out_name@),
{
    let format = ImageFormat::from_path(Path::new(name)).map_err(|e| e.to_string())?;
    let reader = ImageReader::with_format(Cursor::new(bytes), format);
    let img = reader.decode().map_err(|e| e.to_string())?;
    let target = ImageFormat::from_path(Path::new(out_name)).map_err(|e| e.to_string())?;
    let mut out: Vec<u8> = Vec::new();
    img.write_to(Cursor::new(&mut out), target).map_err(|e| e.to_string())?;
    Ok(out)
}

/// The largest side that images are scaled from to any other.
pub const MAX_SCALED: u32 = 1_048_576;

/// The largest side that images are scaled from and to where one is larger than
/// `MAX_SCALED`.
pub const MAX_SIDE: u32 = 4_194_304;

/// Whether a side of an image can be scaled to another length.
pub open spec fn side_scales(side: u32, new_side: u32) -> bool {
    0 < new_side && (side <= MAX_SCALED || (side <= MAX_SIDE && new_side <= MAX_SIDE))
}

/// Whether an image of one size can be scaled to another: its sides can, and sixteen
/// bytes for each pixel on the way can be allocated.
pub open spec fn resizable(width: u32, height: u32, new_width: u32, new_height: u32) -> bool {
    let widest: int = if width > new_width {
        width as int
    } else {
        new_width as int
    };
    let highest: int = if height > new_height {
        height as int
    } else {
        new_height as int
    };
    &&& side_scales(width, new_width)
    &&& side_scales(height, new_height)
    &&& 16 * (widest * highest) <= usize::MAX / 2
}

/// Whether a side of an image can be scaled to another length.
fn can_scale(side: u32, new_side: u32) -> (out: bool)
    ensures
        out == side_scales(side, new_side),
{
    0 < new_side && (side <= MAX_SCALED || (side <= MAX_SIDE && new_side <= MAX_SIDE))
}

/// Whether an image of one size can be scaled to another.
fn can_resize(width: u32, height: u32, new_width: u32, new_height: u32) -> (out: bool)
    ensures
        out == resizable(width, height, new_width, new_height),
{
    let widest: u32 = if width > new_width {
        width
    } else {
        new_width
    };
    let highest: u32 = if height > new_height {
        height
    } else {
        new_height
    };
    assert(16 * (widest as int * highest as int) <= 16 * (0xffff_ffff * 0xffff_ffff)) by (nonlinear_arith)
        requires
            widest <= 0xffff_ffff,
            highest <= 0xffff_ffff,
    ;
    let pixels: u128 = widest as u128 * highest as u128;
    can_scale(width, new_width) && can_scale(height, new_height) && pixels * 16 <= (usize::MAX
        / 2) as u128
}

/// An image as it was opened: its file and its pixels.
#[verifier::ext_equal]
pub struct Opened {
    pub file: Entry,
    pub image: Raster,
}

impl Opened {
    /// The pixels are those that the file decodes to.
    pub open spec fn wf(self) -> bool {
        &&& self.image.wf()
        &&& self.image.data.len() <= 4 * MAX_DECODED
        &&& decoded_image(format_name(self.file.name), self.file.data) == Ok::<
            (u32, u32, Seq<u8>),
            Seq<char>,
        >((self.image.width, self.image.height, self.image.data))
    }
}

/// The image that pixels are, or why they are none.
pub open spec fn raster_of(p: Result<(u32, u32, Seq<u8>), Seq<char>>) -> Result<
    Raster,
    ErrorView,
> {
    match p {
        Ok(p) => {
            let img = Raster { width: p.0, height: p.1, data: p.2 };
            if img.wf() {
                Ok(img)
            } else {
                Err(Fault::OutputOverflow)
            }
        },
        Err(text) => Err(Fault::Image { text }),
    }
}

/// The name that tells the format of a file: one that ends in a dot tells none.
pub open spec fn format_name(name: Seq<char>) -> Seq<char> {
    if name.len() > 0 && name.last() == '.' {
        ""@
    } else {
        name
    }
}

/// The name that tells the format of a file.
fn name_for_format(name: &str) -> (out: &str)
    ensures
        out@ == format_name(name@),
{
    let chars: Vec<char> = chars_of(name);
    if chars.len() > 0 && chars[chars.len() - 1] == '.' {
        ""
    } else {
        name
    }
}

/// The image in a file, or why there is none.
pub open spec fn opened(file: Entry) -> Result<Opened, ErrorView> {
    match raster_of(decoded_image(format_name(file.name), file.data)) {
        Ok(image) => Ok(Opened { file, image }),
        Err(e) => Err(e),
    }
}

/// An opened image scaled to another size, or why it cannot be.
pub open spec fn resized(img: Opened, width: u32, height: u32) -> Result<Raster, ErrorView> {
    if resizable(img.image.width, img.image.height, width, height) {
        raster_of(resized_image(format_name(img.file.name), img.file.data, width, height))
    } else {
        Err(Fault::OutputOverflow)
    }
}

/// The file that an image is written to, or why it cannot be.
pub open spec fn saved(img: Raster, name: Seq<char>) -> Result<Seq<u8>, ErrorView> {
    if img.width == 0 || img.height == 0 || img.width > MAX_WIDTH {
        Err(Fault::OutputOverflow)
    } else {
        match encoded_image(name, img.width, img.height, img.data) {
            Ok(bytes) => Ok(bytes),
            Err(text) => Err(Fault::Image { text }),
        }
    }
}

/// An image with the file that it was opened from.
pub struct OpenedImage {
    file: FileEntry,
    image: RgbaImage,
}

impl View for OpenedImage {
    type V = Opened;

    closed spec fn view(&self) -> Opened {
        Opened { file: self.file@, image: self.image@ }
    }
}

/// Takes pixels as an image.
fn image_from(p: Result<(u32, u32, Vec<u8>), String>) -> (out: Result<RgbaImage, Error>)
    ensures
        outcome(out) == raster_of(pixels_of(p)),
        out matches Ok(img) ==> img@.wf() && p is Ok && img@.width == p->Ok_0.0 && img@.height
            == p->Ok_0.1,
{
    match p {
        Ok((width, height, data)) => match RgbaImage::from_raw(width, height, data) {
            Some(img) => {
                proof {
                    use_type_invariant(&img);
                }
                Ok(img)
            },
            None => Err(Fault::OutputOverflow),
        },
        Err(text) => Err(Fault::Image { text }),
    }
}

/// Opens the image in a file. Its format follows from the name.
pub fn open_image(file: FileEntry) -> (out: Result<OpenedImage, Error>)
    ensures
        outcome(out) == opened(file@),
{
    let decoded = decode_rgba(name_for_format(file.name.as_str()), file.data.as_slice());
    let image = image_from(decoded)?;
    proof {
        use_type_invariant(&image);
    }
    Ok(OpenedImage { file, image })
}

impl OpenedImage {
    #[verifier::type_invariant]
    spec fn valid(self) -> bool {
        self@.wf()
    }

    /// The pixels.
    pub fn image(&self) -> (out: &RgbaImage)
        ensures
            out@ == self@.image,
            self@.wf(),
    {
        proof {
            use_type_invariant(self);
        }
        &self.image
    }

    /// Takes the pixels out.
    pub fn into_image(self) -> (out: RgbaImage)
        ensures
            out@ == self@.image,
            self@.wf(),
    {
        proof {
            use_type_invariant(&self);
        }
        self.image
    }

    /// The image scaled to another size, where that can be done.
    pub fn resize(&self, width: u32, height: u32) -> (out: Result<RgbaImage, Error>)
        ensures
            outcome(out) == resized(self@, width, height),
            out is Ok <==> resizable(self@.image.width, self@.image.height, width, height),
            out matches Ok(img) ==> img@.width == width && img@.height == height,
    {
        proof {
            use_type_invariant(self);
        }
        if !can_resize(self.image.width, self.image.height, width, height) {
            return Err(Fault::OutputOverflow);
        }
        let name: &str = name_for_format(self.file.name.as_str());
        let out = image_from(resize_rgba(name, self.file.data.as_slice(), width, height));
        proof {
            let (w, h) = (width as int, height as int);
            let (wide, high) = (self@.image.width as int, self@.image.height as int);
            let widest = if wide > w { wide } else { w };
            let highest = if high > h { high } else { h };
            assert(w * h <= widest * highest) by (nonlinear_arith)
                requires
                    0 <= w <= widest,
                    0 <= h <= highest,
            ;
        }
        out
    }
}

/// Writes an image to a file of the given name. Its format follows from the
/// name. As PNG, an image that is neither empty nor too wide can be written, and
/// decodes to itself.
pub fn save_image(img: RgbaImage, name: &str) -> (out: Result<Vec<u8>, Error>)
    ensures
        outcome(out) == saved(img@, name@),
        is_png_name(name@) && 0 < img@.data.len() && img@.width <= MAX_WIDTH ==> out is Ok,
        out is Ok && is_png_name(name@) ==> lossless(
            out->Ok_0@,
            img@.width,
            img@.height,
            img@.data,
        ),
{
    proof {
        use_type_invariant(&img);
    }
    if img.width == 0 || img.height == 0 || img.width > MAX_WIDTH {
        assert(img@.width > MAX_WIDTH || img@.pixels() == 0) by (nonlinear_arith)
            requires
                img@.width == 0 || img@.height == 0 || img@.width > MAX_WIDTH,
                img@.pixels() == img@.width * img@.height,
        ;
        return Err(Fault::OutputOverflow);
    }
    match encode_rgba(name, img.width, img.height, img.data) {
        Ok(bytes) => Ok(bytes),
        Err(text) => Err(Fault::Image { text }),
    }
}

/// Writes the image of one file to a file of another name.
pub fn recode_image(file: &FileEntry, out_name: &str) -> (out: Result<Vec<u8>, Error>)
    ensures
        outcome(out) == (match recoded_image(format_name(file@.name), file@.data, out_name@) {
            Ok(bytes) => Ok::<Seq<u8>, ErrorView>(bytes),
            Err(text) => Err(Fault::Image { text }),
        }),
{
    match recode(name_for_format(file.name.as_str()), file.data.as_slice(), out_name) {
        Ok(bytes) => Ok(bytes),
        Err(text) => Err(Fault::Image { text }),
    }
}

/// A file opens exactly where the decoder takes its bytes under its very name, and
/// shows the pixels that come out; where the decoder fails, its text is the answer.
pub proof fn law_open_decodes(file: Entry)
    requires
        file.name.len() == 0 || file.name.last() != '.',
    ensures
        match decoded_image(file.name, file.data) {
            Ok((width, height, data)) => {
                let pixels = width as nat * height as nat;
                if data.len() == 4 * pixels && 16 * pixels <= usize::MAX {
                    opened(file) == Ok::<Opened, ErrorView>(
                        Opened { file, image: Raster { width, height, data } },
                    )
                } else {
                    opened(file) == Err::<Opened, ErrorView>(Fault::OutputOverflow)
                }
            },
            Err(text) => opened(file) == Err::<Opened, ErrorView>(Fault::Image { text }),
        },
{
}

/// A name that ends in a dot tells no format: the decoder is asked as for no name.
pub proof fn law_dot_tells_no_format(stem: Seq<char>, data: Seq<u8>)
    ensures
        match (
            opened(Entry { name: stem.push('.'), data }),
            opened(Entry { name: ""@, data }),
        ) {
            (Ok(a), Ok(b)) => a.image == b.image,
            (Err(a), Err(b)) => a == b,
            _ => false,
        },
{
    reveal_strlit("");
}

/// An image of sides up to 1048576, or to 4194304 where it stays within that, is scaled
/// to any size that can be allocated: the scaler's pixels are the image.
pub proof fn law_resize_scales(img: Opened, width: u32, height: u32)
    requires
        img.file.name.len() == 0 || img.file.name.last() != '.',
        0 < width,
        0 < height,
        img.image.width <= 1_048_576 || (img.image.width <= 4_194_304 && width <= 4_194_304),
        img.image.height <= 1_048_576 || (img.image.height <= 4_194_304 && height <= 4_194_304),
        forall|w: nat, h: nat|
            #![trigger w * h]
            (w == width || w == img.image.width) && (h == height || h == img.image.height) ==> 16
                * (w * h) <= usize::MAX / 2,
    ensures
        resizable(img.image.width, img.image.height, width, height),
        match resized_image(img.file.name, img.file.data, width, height) {
            Ok((w, h, data)) => data.len() == 4 * (w as nat * h as nat) && 16 * (w as nat
                * h as nat) <= usize::MAX ==> resized(img, width, height) == Ok::<
                Raster,
                ErrorView,
            >(Raster { width: w, height: h, data }),
            Err(text) => resized(img, width, height) == Err::<Raster, ErrorView>(
                Fault::Image { text },
            ),
        },
{
    let (w, h) = (img.image.width as nat, img.image.height as nat);
    let widest = if w > width {
        w
    } else {
        width as nat
    };
    let highest = if h > height {
        h
    } else {
        height as nat
    };
    assert(16 * (widest * highest) <= usize::MAX / 2);
}

/// No image is scaled to nothing.
pub proof fn law_resize_to_nothing(img: Opened, width: u32, height: u32)
    requires
        width == 0 || height == 0,
    ensures
        resized(img, width, height) == Err::<Raster, ErrorView>(Fault::OutputOverflow),
{
}

/// An image that is neither empty nor wider than 1073741823 is written as the encoder
/// writes its pixels under the name of the file; another is not written.
pub proof fn law_save_encodes(img: Raster, name: Seq<char>)
    ensures
        0 < img.width <= 1_073_741_823 && 0 < img.height ==> match encoded_image(
            name,
            img.width,
            img.height,
            img.data,
        ) {
            Ok(bytes) => saved(img, name) == Ok::<Seq<u8>, ErrorView>(bytes),
            Err(text) => saved(img, name) == Err::<Seq<u8>, ErrorView>(Fault::Image { text }),
        },
        img.width == 0 || img.width > 1_073_741_823 || img.height == 0 ==> saved(img, name) == Err::<
            Seq<u8>,
            ErrorView,
        >(Fault::OutputOverflow),
{
}

/// A name is that of a PNG exactly where it is a stem, a dot and `png` in letters of
/// either case.
pub proof fn law_png_names(stem: Seq<char>, extension: Seq<char>)
    requires
        stem.len() > 0,
        stem.last() != '/',
        stem.last() != '\\',
        stem.last() != ':',
        extension.len() == 3,
    ensures
        is_png_name(stem + seq!['.'] + extension) <==> (extension[0] == 'p' || extension[0] == 'P')
            && (extension[1] == 'n' || extension[1] == 'N') && (extension[2] == 'g' || extension[2]
            == 'G'),
        is_png_name(stem + ".png"@),
{
    reveal_strlit(".png");
    let name = stem + seq!['.'] + extension;
    assert(name.skip(name.len() - 3) =~= extension);
    let png = stem + ".png"@;
    let small = png.skip(png.len() - 3);
    assert(small[0] == 'p' && small[1] == 'n' && small[2] == 'g');
    assert(png[png.len() - 5] == stem.last());
}

/// Pixels of up to 536870912 bytes that were written as PNG are decoded under every
/// name of a PNG, and come back as they were.
pub proof fn law_png_is_lossless(
    bytes: Seq<u8>,
    width: u32,
    height: u32,
    data: Seq<u8>,
    stem: Seq<char>,
)
    requires
        lossless(bytes, width, height, data),
        stem.len() > 0,
        stem.last() != '/',
        stem.last() != '\\',
        stem.last() != ':',
    ensures
        data.len() <= 536_870_912 ==> decoded_image(stem + ".png"@, bytes) == Ok::<
            (u32, u32, Seq<u8>),
            Seq<char>,
        >((width, height, data)),
        decoded_image(stem + ".png"@, bytes) matches Ok(p) ==> p == (width, height, data),
{
    law_png_names(stem, seq!['p', 'n', 'g']);
}

/// An image has four bytes to a pixel.
pub proof fn law_image_bytes(img: Raster)
    requires
        img.wf(),
    ensures
        img.pixels() == img.width as nat * img.height as nat,
        img.data.len() == 4 * (img.width as nat * img.height as nat),
{
}

} // verus!
