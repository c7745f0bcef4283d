//! Building blocks of the satellite-style SVG: layer options, embedded raster
//! images as data URLs, and text escaping.
use vstd::prelude::*;
use base64::Engine;
use image::ImageEncoder;

verus! {

/// Which overlay layers the satellite SVG draws.
#[derive(Clone, Copy, Debug)]
pub struct SatelliteSvgLayers {
    pub slope: bool,
    pub river: bool,
    pub contour: bool,
    pub border: bool,
    pub city: bool,
    pub town: bool,
    pub label: bool,
}

/// Size and quality of the raster images embedded in the satellite SVG.
#[derive(Clone, Copy, Debug)]
pub struct SatelliteSvgOptions {
    /// Longest edge of an embedded image, in pixels (at least 256 is used).
    pub max_embedded_image_size: u32,
    /// JPEG quality of the embedded images (clamped to 1..=100).
    pub jpeg_quality: u8,
}

impl Default for SatelliteSvgOptions {
    /// Images of at most 1600 pixels at JPEG quality 82.
    fn default() -> (o: Self)
        ensures
            o.max_embedded_image_size == 1600,
            o.jpeg_quality == 82,
    {
        SatelliteSvgOptions { max_embedded_image_size: 1600, jpeg_quality: 82 }
    }
}

/// The RGB bytes of an RGBA buffer: each complete group of four bytes gives
/// its first three; a trailing partial group is dropped.
pub open spec fn rgb_of_rgba(rgba: Seq<u8>) -> Seq<u8> {
    Seq::new((rgba.len() / 4 * 3) as nat, |i: int| rgba[(i / 3) * 4 + i % 3])
}

/// Drops the alpha channel of an RGBA buffer.
pub fn rgba_to_rgb(rgba: &[u8]) -> (rgb: Vec<u8>)
    ensures
        rgb@ == rgb_of_rgba(rgba@),
{
    let mut rgb: Vec<u8> = Vec::new();
    let n = rgba.len();
    let groups = n / 4;
    let mut g: usize = 0;
    while g < groups
        invariant
            n == rgba@.len(),
            groups == rgba@.len() / 4,
            g <= groups,
            rgb@.len() == g * 3,
            forall|i: int| 0 <= i < g * 3 ==> rgb@[i] == rgba@[(i / 3) * 4 + i % 3],
        decreases groups - g,
    {
        assert(g * 4 + 4 <= rgba@.len()) by (nonlinear_arith)
            requires
                g < groups,
                groups == rgba@.len() / 4,
        ;
        let base = g * 4;
        rgb.push(rgba[base]);
        rgb.push(rgba[base + 1]);
        rgb.push(rgba[base + 2]);
        proof {
            assert forall|i: int| 0 <= i < (g + 1) * 3 implies rgb@[i] == rgba@[(i / 3) * 4 + i % 3] by {
                if i >= g * 3 {
                    assert(i / 3 == g);
                }
            }
        }
        g = g + 1;
    }
    assert(rgb@ =~= rgb_of_rgba(rgba@));
    rgb
}

/// The base64 digit for a six-bit value, in the standard alphabet.
pub open spec fn base64_digit(v: int) -> char {
    if v < 26 {
        (65 + v) as char
    } else if v < 52 {
        (97 + v - 26) as char
    } else if v < 62 {
        (48 + v - 52) as char
    } else if v == 62 {
        '+'
    } else {
        '/'
    }
}

/// Standard base64 (RFC 4648 alphabet, `=` padding) of a byte sequence.
pub open spec fn base64_of(b: Seq<u8>) -> Seq<char>
    decreases b.len(),
{
    let b0 = b[0] as int;
    let b1 = b[1] as int;
    let b2 = b[2] as int;
    if b.len() == 0 {
        Seq::empty()
    } else if b.len() == 1 {
        seq![base64_digit(b0 / 4), base64_digit((b0 % 4) * 16), '=', '=']
    } else if b.len() == 2 {
        seq![
            base64_digit(b0 / 4),
            base64_digit((b0 % 4) * 16 + b1 / 16),
            base64_digit((b1 % 16) * 4),
            '=',
        ]
    } else {
        seq![
            base64_digit(b0 / 4),
            base64_digit((b0 % 4) * 16 + b1 / 16),
            base64_digit((b1 % 16) * 4 + b2 / 64),
            base64_digit(b2 % 64),
        ] + base64_of(b.subrange(3, b.len() as int))
    }
}

/// `base64::engine::general_purpose::STANDARD.encode`: standard base64 with
/// padding.  The contract claims the output is exactly `base64_of` the input.
/// The encoder panics only when the output length overflows `usize`, which
/// the bound on the input rules out.
#[verifier::external_body]
fn base64_encode(bytes: &[u8]) -> (r: String)
    requires
        bytes@.len() <= isize::MAX,
    ensures
        r@ == base64_of(bytes@),
{
    base64::engine::general_purpose::STANDARD.encode(bytes)
}

/// What `image`'s PNG encoder writes for an RGBA8 image of the given size, or
/// the text of the error it reports.
pub uninterp spec fn png_rgba8_encoding(rgba: Seq<u8>, width: u32, height: u32) -> Result<
    Seq<u8>,
    Seq<char>,
>;

/// What `image`'s JPEG encoder writes at the given quality for an RGB8 image
/// of the given size, or the text of the error it reports.
pub uninterp spec fn jpeg_rgb8_encoding(rgb: Seq<u8>, width: u32, height: u32, quality: u8) -> Result<
    Seq<u8>,
    Seq<char>,
>;

/// `image::codecs::png::PngEncoder::write_image` on an RGBA8 buffer into a
/// `Vec`.  The contract claims only that the outcome (bytes, or the error's
/// text) is a function of the pixels and the size, named
/// `png_rgba8_encoding`.  The encoder panics unless the buffer holds exactly
/// `width * height * 4` bytes.  That the bytes number at most `isize::MAX`
/// is what `Vec` guarantees of any vector of bytes.
#[verifier::external_body]
fn png_encode(rgba: &[u8], width: u32, height: u32) -> (r: Result<Vec<u8>, String>)
    requires
        rgba@.len() == width as int * height as int * 4,
    ensures
        match r {
            Ok(bytes) => png_rgba8_encoding(rgba@, width, height) == Ok::<Seq<u8>, Seq<char>>(bytes@) && bytes@.len() <= isize::MAX,
            Err(msg) => png_rgba8_encoding(rgba@, width, height) == Err::<Seq<u8>, Seq<char>>(msg@),
        },
{
    let mut bytes = Vec::new();
    match image::codecs::png::PngEncoder::new(&mut bytes).write_image(
        rgba,
        width,
        height,
        image::ColorType::Rgba8.into(),
    ) {
        Ok(()) => Ok(bytes),
        Err(err) => Err(err.to_string()),
    }
}

/// `image::codecs::jpeg::JpegEncoder::new_with_quality(..).encode` on an RGB8
/// buffer into a `Vec`.  The contract claims only that the outcome (bytes, or
/// the error's text) is a function of the pixels, the size and the quality,
/// named `jpeg_rgb8_encoding`.  The encoder panics unless the buffer holds
/// exactly `width * height * 3` bytes.  That the bytes number at most
/// `isize::MAX` is what `Vec` guarantees of any vector of bytes.
#[verifier::external_body]
fn jpeg_encode(rgb: &[u8], width: u32, height: u32, quality: u8) -> (r: Result<Vec<u8>, String>)
    requires
        rgb@.len() == width as int * height as int * 3,
    ensures
        match r {
            Ok(bytes) => jpeg_rgb8_encoding(rgb@, width, height, quality) == Ok::<
                Seq<u8>,
                Seq<char>,
            >(bytes@) && bytes@.len() <= isize::MAX,
            Err(msg) => jpeg_rgb8_encoding(rgb@, width, height, quality) == Err::<
                Seq<u8>,
                Seq<char>,
            >(msg@),
        },
{
    let mut bytes = Vec::new();
    match image::codecs::jpeg::JpegEncoder::new_with_quality(&mut bytes, quality).encode(
        rgb,
        width,
        height,
        image::ColorType::Rgb8.into(),
    ) {
        Ok(()) => Ok(bytes),
        Err(err) => Err(err.to_string()),
    }
}

/// The result of wrapping an encoder outcome into a data URL: the prefix
/// followed by the base64 of the bytes, or the error text after `failure`.
pub open spec fn data_url_of(
    outcome: Result<Seq<u8>, Seq<char>>,
    prefix: Seq<char>,
    failure: Seq<char>,
) -> Result<Seq<char>, Seq<char>> {
    match outcome {
        Ok(bytes) => Ok(prefix + base64_of(bytes)),
        Err(msg) => Err(failure + msg),
    }
}

/// The view of a `Result<String, String>`.
pub open spec fn text_result(r: Result<String, String>) -> Result<Seq<char>, Seq<char>> {
    match r {
        Ok(s) => Ok(s@),
        Err(e) => Err(e@),
    }
}

/// An RGBA image as a `data:image/png;base64,` URL, or
/// `Failed to encode PNG: ` and the encoder's error.
pub fn encode_png_data_url(width: u32, height: u32, rgba: &[u8]) -> (r: Result<String, String>)
    requires
        rgba@.len() == width as int * height as int * 4,
    ensures
        text_result(r) == data_url_of(
            png_rgba8_encoding(rgba@, width, height),
            "data:image/png;base64,"@,
            "Failed to encode PNG: "@,
        ),
{
    match png_encode(rgba, width, height) {
        Ok(bytes) => {
            let mut url = String::from_str("data:image/png;base64,");
            let encoded = base64_encode(bytes.as_slice());
            url.append(encoded.as_str());
            Ok(url)
        },
        Err(err) => {
            let mut msg = String::from_str("Failed to encode PNG: ");
            msg.append(err.as_str());
            Err(msg)
        },
    }
}

/// An RGBA image as a `data:image/jpeg;base64,` URL of its RGB channels at
/// the given quality (clamped to 1..=100), or `Failed to encode JPEG: ` and
/// the encoder's error.
pub fn encode_jpeg_data_url(width: u32, height: u32, rgba: &[u8], quality: u8) -> (r: Result<
    String,
    String,
>)
    requires
        rgba@.len() == width as int * height as int * 4,
    ensures
        text_result(r) == data_url_of(
            jpeg_rgb8_encoding(
                rgb_of_rgba(rgba@),
                width,
                height,
                if quality < 1 {
                    1u8
                } else if quality > 100 {
                    100u8
                } else {
                    quality
                },
            ),
            "data:image/jpeg;base64,"@,
            "Failed to encode JPEG: "@,
        ),
{
    let rgb = rgba_to_rgb(rgba);
    let q = if quality < 1 {
        1u8
    } else if quality > 100 {
        100u8
    } else {
        quality
    };
    match jpeg_encode(rgb.as_slice(), width, height, q) {
        Ok(bytes) => {
            let mut url = String::from_str("data:image/jpeg;base64,");
            let encoded = base64_encode(bytes.as_slice());
            url.append(encoded.as_str());
            Ok(url)
        },
        Err(err) => {
            let mut msg = String::from_str("Failed to encode JPEG: ");
            msg.append(err.as_str());
            Err(msg)
        },
    }
}

/// The opening of the SVG `<defs>` block with the shadow and glow filters
/// the satellite style uses.
pub const DEFS_START: &'static str = "<defs><filter id=\"terrain-shadow\" x=\"-50%\" y=\"-50%\" width=\"200%\" height=\"200%\"><feGaussianBlur in=\"SourceAlpha\" stdDeviation=\"2\" result=\"blur\"/><feOffset in=\"blur\" dx=\"1\" dy=\"1\" result=\"offsetBlur\"/><feComposite in=\"SourceGraphic\" in2=\"offsetBlur\" operator=\"over\"/></filter><filter id=\"river-glow\"><feGaussianBlur stdDeviation=\"1.8\" result=\"coloredBlur\"/><feMerge><feMergeNode in=\"coloredBlur\"/><feMergeNode in=\"SourceGraphic\"/></feMerge></filter><filter id=\"border-shadow\"><feDropShadow dx=\"0.4\" dy=\"0.4\" stdDeviation=\"0.9\" flood-opacity=\"0.22\"/></filter><filter id=\"coast-line-glow\"><feGaussianBlur stdDeviation=\"2.1\" result=\"blur\"/><feMerge><feMergeNode in=\"blur\"/><feMergeNode in=\"SourceGraphic\"/></feMerge></filter>";

/// The opening of the `<defs>` block, up to and including the filters.
pub fn generate_defs_start() -> (r: &'static str)
    ensures
        r@ == DEFS_START@,
{
    DEFS_START
}

/// What one character becomes in XML text: `&`, `<` and `>` become entity
/// references, anything else stays.
pub open spec fn xml_escaped_char(c: char) -> Seq<char> {
    if c == '&' {
        seq!['&', 'a', 'm', 'p', ';']
    } else if c == '<' {
        seq!['&', 'l', 't', ';']
    } else if c == '>' {
        seq!['&', 'g', 't', ';']
    } else {
        seq![c]
    }
}

/// A text with `&`, `<` and `>` replaced by their entity references.
pub open spec fn xml_escaped(s: Seq<char>) -> Seq<char>
    decreases s.len(),
{
    if s.len() == 0 {
        Seq::empty()
    } else {
        xml_escaped(s.drop_last()) + xml_escaped_char(s.last())
    }
}

/// Escaped text holds no `<` or `>`: markup characters never survive
/// escaping.
pub proof fn lemma_escaped_has_no_markup(s: Seq<char>)
    ensures
        forall|i: int| 0 <= i < xml_escaped(s).len() ==> {
            &&& #[trigger] xml_escaped(s)[i] != '<'
            &&& xml_escaped(s)[i] != '>'
        },
    decreases s.len(),
{
    if s.len() > 0 {
        lemma_escaped_has_no_markup(s.drop_last());
        let a = xml_escaped(s.drop_last());
        let b = xml_escaped_char(s.last());
        assert forall|i: int| 0 <= i < xml_escaped(s).len() implies {
            &&& #[trigger] xml_escaped(s)[i] != '<'
            &&& xml_escaped(s)[i] != '>'
        } by {
            if i < a.len() {
                assert(xml_escaped(s)[i] == a[i]);
            } else {
                assert(xml_escaped(s)[i] == b[i - a.len()]);
            }
        }
    }
}

/// Text without `&`, `<` and `>` is left as it is by escaping.
pub proof fn lemma_plain_text_unchanged(s: Seq<char>)
    requires
        forall|i: int| 0 <= i < s.len() ==> #[trigger] s[i] != '&' && s[i] != '<' && s[i] != '>',
    ensures
        xml_escaped(s) == s,
    decreases s.len(),
{
    if s.len() > 0 {
        lemma_plain_text_unchanged(s.drop_last());
        assert(s.drop_last().push(s.last()) =~= s);
        assert(xml_escaped_char(s.last()) =~= seq![s.last()]);
        assert(xml_escaped(s) =~= s);
    }
}

/// Appends the escaped form of `text` to `out`.
pub fn push_xml_escaped(out: &mut String, text: &str)
    ensures
        final(out)@ == old(out)@ + xml_escaped(text@),
{
    let n = text.unicode_len();
    let mut i: usize = 0;
    while i < n
        invariant
            n == text@.len(),
            i <= n,
            out@ == old(out)@ + xml_escaped(text@.subrange(0, i as int)),
        decreases n - i,
    {
        let c = text.get_char(i);
        proof {
            reveal_strlit("&amp;");
            reveal_strlit("&lt;");
            reveal_strlit("&gt;");
            assert(text@.subrange(0, (i + 1) as int).drop_last() =~= text@.subrange(0, i as int));
        }
        if c == '&' {
            out.append("&amp;");
        } else if c == '<' {
            out.append("&lt;");
        } else if c == '>' {
            out.append("&gt;");
        } else {
            out.append(text.substring_char(i, i + 1));
        }
        assert(out@ =~= old(out)@ + xml_escaped(text@.subrange(0, (i + 1) as int)));
        i = i + 1;
    }
    assert(text@.subrange(0, n as int) =~= text@);
}

/// `text` with `&`, `<` and `>` replaced by `&amp;`, `&lt;` and `&gt;`.
pub fn escape_xml(text: &str) -> (r: String)
    ensures
        r@ == xml_escaped(text@),
{
    let mut out = String::new();
    push_xml_escaped(&mut out, text);
    out
}

} // verus!
