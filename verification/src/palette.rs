//! Palettes: loading the colours from a hex text or from an image.

use vstd::prelude::*;
use vstd::utf8::{decode_utf8, valid_utf8};
use std::collections::HashSet;
use crate::color_space::str_equal;
use crate::hex::{HexFault, hex_text_outcome, read_hex_text};
use crate::text::decode_text;

verus! {

broadcast use vstd::std_specs::hash::group_hash_axioms;

/// A name for the pixels of the image that the bytes hold, as
/// `image::guess_format` (by the built-in magic bytes) and
/// `image::load_from_memory_with_format` decode it, read out with
/// `GenericImageView::pixels` (row by row, as RGBA): `None` where the format
/// is not recognised or decoding fails.
pub uninterp spec fn decoded_pixels(bytes: Seq<u8>) -> Option<Seq<[u8; 4]>>;

/// `image::guess_format`, then `image::load_from_memory_with_format` with
/// that format, then the image's pixels in row-major order as RGBA; `None`
/// where either call fails. Neither call consults the crate's registered
/// hooks, so the result is [`decoded_pixels`] of the bytes.
#[verifier::external_body]
fn decode_image_pixels(bytes: &[u8]) -> (r: Option<Vec<[u8; 4]>>)
    ensures
        match r {
            Some(v) => decoded_pixels(bytes@) == Some(v@),
            None => decoded_pixels(bytes@) is None,
        },
{
    let format = match image::guess_format(bytes) {
        Ok(f) => f,
        Err(_) => return None,
    };
    match image::load_from_memory_with_format(bytes, format) {
        Ok(img) => Some(image::GenericImageView::pixels(&img).map(|(_, _, p)| p.0).collect()),
        Err(_) => None,
    }
}

/// The colours of `s` in order of first occurrence, each once.
pub open spec fn first_occurrences(s: Seq<[u8; 4]>) -> Seq<[u8; 4]>
    decreases s.len(),
{
    if s.len() == 0 {
        Seq::empty()
    } else {
        let d = first_occurrences(s.drop_last());
        if d.contains(s.last()) {
            d
        } else {
            d.push(s.last())
        }
    }
}

/// A colour packed into one integer, red in the highest byte.
pub open spec fn packed(c: [u8; 4]) -> u32 {
    (c[0] as u32 * 16777216 + c[1] as u32 * 65536 + c[2] as u32 * 256 + c[3] as u32) as u32
}

fn pack(c: &[u8; 4]) -> (r: u32)
    ensures
        r == packed(*c),
{
    (c[0] as u32) * 16777216 + (c[1] as u32) * 65536 + (c[2] as u32) * 256 + (c[3] as u32)
}

proof fn lemma_packed_injective(a: [u8; 4], b: [u8; 4])
    requires
        packed(a) == packed(b),
    ensures
        a == b,
{
    let (a0, a1, a2, a3) = (a[0], a[1], a[2], a[3]);
    let (b0, b1, b2, b3) = (b[0], b[1], b[2], b[3]);
    assert(a0 == b0 && a1 == b1 && a2 == b2 && a3 == b3) by (bit_vector)
        requires
            (a0 as u32 * 16777216 + a1 as u32 * 65536 + a2 as u32 * 256 + a3 as u32) as u32 == (
            b0 as u32 * 16777216 + b1 as u32 * 65536 + b2 as u32 * 256 + b3 as u32) as u32,
    ;
    assert(a =~= b);
}

/// The colours of the pixels, in order of first occurrence, each once.
pub fn unique_colors(pixels: &Vec<[u8; 4]>) -> (r: Vec<[u8; 4]>)
    ensures
        r@ == first_occurrences(pixels@),
{
    let mut seen: HashSet<u32> = HashSet::new();
    let mut r: Vec<[u8; 4]> = Vec::new();
    let n = pixels.len();
    let mut i: usize = 0;
    while i < n
        invariant
            i <= n,
            n == pixels@.len(),
            r@ == first_occurrences(pixels@.subrange(0, i as int)),
            forall|k: u32| #[trigger]
                seen@.contains(k) <==> exists|j: int| 0 <= j < r@.len() && packed(r@[j]) == k,
        decreases n - i,
    {
        let c = pixels[i];
        let key = pack(&c);
        proof {
            assert(pixels@.subrange(0, i + 1).drop_last() =~= pixels@.subrange(0, i as int));
            if r@.contains(c) {
                let j = choose|j: int| 0 <= j < r@.len() && r@[j] == c;
                assert(packed(r@[j]) == key);
            }
            if seen@.contains(key) {
                let j = choose|j: int| 0 <= j < r@.len() && packed(r@[j]) == key;
                lemma_packed_injective(r@[j], c);
                assert(r@.contains(c));
            }
        }
        let ghost old_r = r@;
        let ghost old_seen = seen@;
        if seen.insert(key) {
            r.push(c);
            proof {
                assert forall|k: u32| #[trigger]
                    seen@.contains(k) implies exists|j: int|
                    0 <= j < r@.len() && packed(r@[j]) == k by {
                    if k == key {
                        assert(packed(r@[r@.len() - 1]) == k);
                    } else {
                        assert(old_seen.contains(k));
                        let j = choose|j: int| 0 <= j < old_r.len() && packed(old_r[j]) == k;
                        assert(r@[j] == old_r[j]);
                    }
                }
                assert forall|k: u32|
                    (exists|j: int| 0 <= j < r@.len() && packed(r@[j]) == k) implies #[trigger]
                    seen@.contains(k) by {
                    let j = choose|j: int| 0 <= j < r@.len() && packed(r@[j]) == k;
                    if j < r@.len() - 1 {
                        assert(old_r[j] == r@[j]);
                        assert(old_seen.contains(k));
                    }
                }
            }
        }
        i += 1;
    }
    proof {
        assert(pixels@.subrange(0, n as int) =~= pixels@);
    }
    r
}

/// Why a palette is rejected, apart from a failed read.
#[derive(Clone, Copy, Debug, PartialEq, Eq, Structural)]
pub enum PaletteFault {
    NotUtf8,
    InvalidHexColor,
    SplitCharacter,
    Undecodable,
    UnsupportedFormat,
    NoColors,
}

/// The error of loading a palette.
#[derive(Debug)]
pub enum PaletteError {
    /// The source could not be read; the text says why.
    Read(String),
    /// A hex palette is not valid UTF-8.
    NotUtf8,
    /// A hex palette holds a colour with a pair that is no hexadecimal number.
    InvalidHexColor,
    /// A hex palette holds a colour whose pairs would split a multi-byte
    /// character.
    SplitCharacter,
    /// An image palette could not be decoded.
    Undecodable,
    /// The extension names no palette format; it is held here.
    UnsupportedFormat(String),
    /// The palette holds no colour.
    NoColors,
}

impl PaletteError {
    /// The text of the error.
    pub fn message(&self) -> (r: String)
        ensures
            match self {
                PaletteError::Read(m) => r@ == m@,
                PaletteError::NotUtf8 => r@ == "Palette text is not valid UTF-8"@,
                PaletteError::InvalidHexColor => r@ == "Invalid hex color"@,
                PaletteError::SplitCharacter => r@ == "Hex color splits a multi-byte character"@,
                PaletteError::Undecodable => r@ == "Failed to decode palette image"@,
                PaletteError::UnsupportedFormat(ext) => r@ == "Unsupported palette file format: "@
                    + ext@,
                PaletteError::NoColors => r@ == "Palette contains no colors"@,
            },
    {
        match self {
            PaletteError::Read(m) => m.clone(),
            PaletteError::NotUtf8 => String::from_str("Palette text is not valid UTF-8"),
            PaletteError::InvalidHexColor => String::from_str("Invalid hex color"),
            PaletteError::SplitCharacter => String::from_str("Hex color splits a multi-byte character"),
            PaletteError::Undecodable => String::from_str("Failed to decode palette image"),
            PaletteError::UnsupportedFormat(ext) => {
                let mut r = String::from_str("Unsupported palette file format: ");
                r.append(ext.as_str());
                r
            },
            PaletteError::NoColors => String::from_str("Palette contains no colors"),
        }
    }
}

/// Whether the error is the fault `f` (for an unsupported format, with the
/// extension `ext`).
pub open spec fn error_is(e: PaletteError, f: PaletteFault, ext: Seq<char>) -> bool {
    match (e, f) {
        (PaletteError::NotUtf8, PaletteFault::NotUtf8) => true,
        (PaletteError::InvalidHexColor, PaletteFault::InvalidHexColor) => true,
        (PaletteError::SplitCharacter, PaletteFault::SplitCharacter) => true,
        (PaletteError::Undecodable, PaletteFault::Undecodable) => true,
        (PaletteError::UnsupportedFormat(s), PaletteFault::UnsupportedFormat) => s@ == ext,
        (PaletteError::NoColors, PaletteFault::NoColors) => true,
        _ => false,
    }
}

/// An extension of a hex palette text.
pub open spec fn is_text_format(ext: Seq<char>) -> bool {
    ext == "txt"@ || ext == "hex"@
}

/// An extension of an image palette.
pub open spec fn is_image_format(ext: Seq<char>) -> bool {
    ext == "png"@ || ext == "jpg"@ || ext == "jpeg"@ || ext == "bmp"@ || ext == "gif"@
}

/// The colours of a hex palette text given as bytes.
pub open spec fn hex_bytes_outcome(bytes: Seq<u8>) -> Result<Seq<[u8; 4]>, PaletteFault> {
    if !valid_utf8(bytes) {
        Err(PaletteFault::NotUtf8)
    } else {
        match hex_text_outcome(decode_utf8(bytes)) {
            Ok(cs) => Ok(cs),
            Err(HexFault::InvalidColor) => Err(PaletteFault::InvalidHexColor),
            Err(HexFault::SplitCharacter) => Err(PaletteFault::SplitCharacter),
        }
    }
}

/// The colours of an image palette given as bytes: its distinct pixel
/// colours in order of first occurrence.
pub open spec fn image_bytes_outcome(bytes: Seq<u8>) -> Result<Seq<[u8; 4]>, PaletteFault> {
    match decoded_pixels(bytes) {
        Some(p) => Ok(first_occurrences(p)),
        None => Err(PaletteFault::Undecodable),
    }
}

/// What a palette file with the extension `ext` and the content `bytes`
/// loads as.
pub open spec fn palette_outcome(ext: Seq<char>, bytes: Seq<u8>) -> Result<Seq<[u8; 4]>, PaletteFault> {
    let parsed = if is_text_format(ext) {
        hex_bytes_outcome(bytes)
    } else if is_image_format(ext) {
        image_bytes_outcome(bytes)
    } else {
        Err(PaletteFault::UnsupportedFormat)
    };
    match parsed {
        Ok(cs) => if cs.len() == 0 {
            Err(PaletteFault::NoColors)
        } else {
            Ok(cs)
        },
        Err(f) => Err(f),
    }
}

/// The colours of a hex palette text given as bytes (see
/// [`hex_bytes_outcome`]).
pub fn parse_hex_text(bytes: &[u8]) -> (r: Result<Vec<[u8; 4]>, PaletteError>)
    ensures
        match r {
            Ok(cs) => hex_bytes_outcome(bytes@) == Ok::<Seq<[u8; 4]>, PaletteFault>(cs@),
            Err(e) => exists|f: PaletteFault|
                hex_bytes_outcome(bytes@) == Err::<Seq<[u8; 4]>, PaletteFault>(f) && #[trigger] error_is(
                    e,
                    f,
                    Seq::empty(),
                ),
        },
{
    match decode_text(bytes) {
        None => {
            assert(error_is(PaletteError::NotUtf8, PaletteFault::NotUtf8, Seq::empty()));
            Err(PaletteError::NotUtf8)
        },
        Some(text) => match read_hex_text(&text) {
            Ok(cs) => Ok(cs),
            Err(HexFault::InvalidColor) => {
                assert(error_is(
                    PaletteError::InvalidHexColor,
                    PaletteFault::InvalidHexColor,
                    Seq::empty(),
                ));
                Err(PaletteError::InvalidHexColor)
            },
            Err(HexFault::SplitCharacter) => {
                assert(error_is(
                    PaletteError::SplitCharacter,
                    PaletteFault::SplitCharacter,
                    Seq::empty(),
                ));
                Err(PaletteError::SplitCharacter)
            },
        },
    }
}

/// The colours of an image palette given as bytes (see
/// [`image_bytes_outcome`]).
pub fn parse_image_bytes(bytes: &[u8]) -> (r: Result<Vec<[u8; 4]>, PaletteError>)
    ensures
        match r {
            Ok(cs) => image_bytes_outcome(bytes@) == Ok::<Seq<[u8; 4]>, PaletteFault>(cs@),
            Err(e) => e is Undecodable && image_bytes_outcome(bytes@) == Err::<
                Seq<[u8; 4]>,
                PaletteFault,
            >(PaletteFault::Undecodable),
        },
{
    match decode_image_pixels(bytes) {
        Some(pixels) => Ok(unique_colors(&pixels)),
        None => Err(PaletteError::Undecodable),
    }
}

/// Where the palette's colours come from: a name's extension and bytes.
pub trait PaletteSource {
    /// The extension that names the palette's format; it depends on the
    /// source alone. An implementation outside verified code gives it the
    /// body `self.extension()`.
    spec fn extension_of(&self) -> &str;

    /// The extension that names the palette's format (see
    /// [`PaletteSource::extension_of`]).
    fn extension(&self) -> (r: &str)
        ensures
            r@ == self.extension_of()@,
    ;

    /// The palette's bytes, or the text of why they could not be read.
    fn read_bytes(&self) -> Result<Vec<u8>, String>;
}

/// A non-empty list of RGBA colours.
#[derive(Debug)]
pub struct Palette(Vec<[u8; 4]>);

impl View for Palette {
    type V = Seq<[u8; 4]>;

    closed spec fn view(&self) -> Seq<[u8; 4]> {
        self.0@
    }
}

/// Whether a load result is the outcome `o` of a palette with extension
/// `ext`.
pub open spec fn result_is(r: Result<Palette, PaletteError>, ext: Seq<char>, o: Result<Seq<[u8; 4]>, PaletteFault>) -> bool {
    match (r, o) {
        (Ok(p), Ok(cs)) => p@ == cs,
        (Err(e), Err(f)) => error_is(e, f, ext),
        _ => false,
    }
}

impl Palette {
    #[verifier::type_invariant]
    spec fn inv(self) -> bool {
        self.0@.len() > 0
    }

    /// The palette of a file with the extension `extension` and the content
    /// `bytes` (see [`palette_outcome`]); where a hex colour's pairs would
    /// split a multi-byte character, the result is `SplitCharacter`.
    pub fn from_bytes(extension: &str, bytes: &[u8]) -> (r: Result<Palette, PaletteError>)
        ensures
            result_is(r, extension@, palette_outcome(extension@, bytes@)),
    {
        let parsed = if str_equal(extension, "txt") || str_equal(extension, "hex") {
            parse_hex_text(bytes)
        } else if str_equal(extension, "png") || str_equal(extension, "jpg") || str_equal(
            extension,
            "jpeg",
        ) || str_equal(extension, "bmp") || str_equal(extension, "gif") {
            parse_image_bytes(bytes)
        } else {
            return Err(PaletteError::UnsupportedFormat(String::from_str(extension)));
        };
        match parsed {
            Ok(colors) => {
                if colors.len() == 0 {
                    Err(PaletteError::NoColors)
                } else {
                    Ok(Palette(colors))
                }
            },
            Err(e) => Err(e),
        }
    }

    /// Reads the source and loads its palette. A failed read gives `Read`
    /// with the source's text; otherwise the result is the outcome of the
    /// source's extension and the bytes read (see [`palette_outcome`]).
    pub fn load<S: PaletteSource + ?Sized>(source: &S) -> (r: Result<Palette, PaletteError>)
        ensures
            match r {
                Err(PaletteError::Read(m)) => call_ensures(
                    S::read_bytes,
                    (source,),
                    Err::<Vec<u8>, String>(m),
                ),
                _ => exists|bytes: Vec<u8>|
                    #[trigger] call_ensures(S::read_bytes, (source,), Ok::<Vec<u8>, String>(bytes))
                        && result_is(
                        r,
                        source.extension_of()@,
                        palette_outcome(source.extension_of()@, bytes@),
                    ),
            },
    {
        let read = S::read_bytes;
        let read_result = read(source);
        let bytes = match read_result {
            Ok(b) => b,
            Err(m) => return Err(PaletteError::Read(m)),
        };
        let r = Palette::from_bytes(source.extension(), bytes.as_slice());
        r
    }

    /// The colours, in order.
    pub fn colors(&self) -> (r: &[[u8; 4]])
        ensures
            r@ == self@,
            r@.len() > 0,
    {
        proof {
            use_type_invariant(self);
        }
        self.0.as_slice()
    }

    /// The number of colours; never zero.
    pub fn len(&self) -> (r: usize)
        ensures
            r == self@.len(),
            r > 0,
    {
        proof {
            use_type_invariant(self);
        }
        self.0.len()
    }
}

/// The colours of an image palette are its distinct pixel colours: each
/// once, none that is not a pixel's, and every pixel's among them.
pub proof fn lemma_first_occurrences(s: Seq<[u8; 4]>)
    ensures
        forall|i: int, j: int|
            0 <= i < j < first_occurrences(s).len() ==> #[trigger] first_occurrences(s)[i]
                != #[trigger] first_occurrences(s)[j],
        forall|c: [u8; 4]| #[trigger] first_occurrences(s).contains(c) <==> s.contains(c),
    decreases s.len(),
{
    if s.len() > 0 {
        let p = s.drop_last();
        lemma_first_occurrences(p);
        let d = first_occurrences(p);
        assert forall|c: [u8; 4]| #[trigger] first_occurrences(s).contains(c) <==> s.contains(c) by {
            if s.contains(c) && c != s.last() {
                let k = choose|k: int| 0 <= k < s.len() && s[k] == c;
                assert(p[k] == c);
                assert(p.contains(c));
            }
            if p.contains(c) {
                let k = choose|k: int| 0 <= k < p.len() && p[k] == c;
                assert(s[k] == c);
            }
            if !d.contains(s.last()) {
                assert(d.push(s.last())[d.len() as int] == s.last());
                if d.push(s.last()).contains(c) && c != s.last() {
                    let k = choose|k: int| 0 <= k < d.len() + 1 && d.push(s.last())[k] == c;
                    assert(d[k] == c);
                }
                if d.contains(c) {
                    let k = choose|k: int| 0 <= k < d.len() && d[k] == c;
                    assert(d.push(s.last())[k] == c);
                }
            }
            assert(s[s.len() - 1] == s.last());
        }
        if !d.contains(s.last()) {
            assert forall|i: int, j: int|
                0 <= i < j < d.len() + 1 implies #[trigger] d.push(s.last())[i]
                != #[trigger] d.push(s.last())[j] by {
                if j == d.len() {
                    assert(d[i] == d.push(s.last())[i]);
                }
            }
        }
    }
}

/// A palette that loads holds at least one colour.
pub proof fn lemma_loaded_palette_nonempty(ext: Seq<char>, bytes: Seq<u8>)
    ensures
        palette_outcome(ext, bytes) matches Ok(cs) ==> cs.len() > 0,
{
}

/// The extensions that name image palettes.
pub open spec fn image_extensions() -> Seq<Seq<char>> {
    seq![seq!['p', 'n', 'g'], seq!['j', 'p', 'g'], seq!['j', 'p', 'e', 'g'], seq!['b', 'm', 'p'], seq!['g', 'i', 'f']]
}

/// The extensions that name hex palette texts.
pub open spec fn text_extensions() -> Seq<Seq<char>> {
    seq![seq!['t', 'x', 't'], seq!['h', 'e', 'x']]
}

proof fn lemma_reveal_extension_literals()
    ensures
        "txt"@ == text_extensions()[0],
        "hex"@ == text_extensions()[1],
        "png"@ == image_extensions()[0],
        "jpg"@ == image_extensions()[1],
        "jpeg"@ == image_extensions()[2],
        "bmp"@ == image_extensions()[3],
        "gif"@ == image_extensions()[4],
{
    reveal_strlit("txt");
    reveal_strlit("hex");
    reveal_strlit("png");
    reveal_strlit("jpg");
    reveal_strlit("jpeg");
    reveal_strlit("bmp");
    reveal_strlit("gif");
    assert("txt"@ =~= text_extensions()[0]);
    assert("hex"@ =~= text_extensions()[1]);
    assert("png"@ =~= image_extensions()[0]);
    assert("jpg"@ =~= image_extensions()[1]);
    assert("jpeg"@ =~= image_extensions()[2]);
    assert("bmp"@ =~= image_extensions()[3]);
    assert("gif"@ =~= image_extensions()[4]);
}

/// Which extension loads which format. `png`, `jpg`, `jpeg`, `bmp` and
/// `gif` load the distinct colours of the decoded image (an image that does
/// not decode is `Undecodable`); `txt` and `hex` load the colours of the
/// UTF-8 text (bytes that are not UTF-8 are `NotUtf8`); every other
/// extension, compared case-sensitively, is an unsupported format.
pub proof fn lemma_palette_formats(ext: Seq<char>, bytes: Seq<u8>)
    ensures
        image_extensions().contains(ext) ==> match decoded_pixels(bytes) {
            Some(p) => p.len() > 0 ==> palette_outcome(ext, bytes) == Ok::<
                Seq<[u8; 4]>,
                PaletteFault,
            >(first_occurrences(p)),
            None => palette_outcome(ext, bytes) == Err::<Seq<[u8; 4]>, PaletteFault>(
                PaletteFault::Undecodable,
            ),
        },
        text_extensions().contains(ext) ==> {
            &&& !valid_utf8(bytes) ==> palette_outcome(ext, bytes) == Err::<
                Seq<[u8; 4]>,
                PaletteFault,
            >(PaletteFault::NotUtf8)
            &&& valid_utf8(bytes) ==> match hex_text_outcome(decode_utf8(bytes)) {
                Ok(cs) => cs.len() > 0 ==> palette_outcome(ext, bytes) == Ok::<
                    Seq<[u8; 4]>,
                    PaletteFault,
                >(cs),
                Err(_) => palette_outcome(ext, bytes) is Err,
            }
        },
        !image_extensions().contains(ext) && !text_extensions().contains(ext) ==> palette_outcome(
            ext,
            bytes,
        ) == Err::<Seq<[u8; 4]>, PaletteFault>(PaletteFault::UnsupportedFormat),
{
    lemma_reveal_extension_literals();
    let im = image_extensions();
    let tx = text_extensions();
    assert(im[0][0] != tx[0][0] && im[0][0] != tx[1][0]);
    assert(im[1][0] != tx[0][0] && im[1][0] != tx[1][0]);
    assert(im[2][0] != tx[0][0] && im[2][0] != tx[1][0]);
    assert(im[3][0] != tx[0][0] && im[3][0] != tx[1][0]);
    assert(im[4][0] != tx[0][0] && im[4][0] != tx[1][0]);
    if im.contains(ext) {
        let k = choose|k: int| 0 <= k < im.len() && im[k] == ext;
        assert(k == 0 || k == 1 || k == 2 || k == 3 || k == 4);
        assert(!is_text_format(ext));
        assert(is_image_format(ext));
        if let Some(p) = decoded_pixels(bytes) {
            lemma_first_occurrences(p);
            if p.len() > 0 {
                assert(p.contains(p[0]));
                assert(first_occurrences(p).contains(p[0]));
            }
        }
    }
    if tx.contains(ext) {
        let k = choose|k: int| 0 <= k < tx.len() && tx[k] == ext;
        assert(k == 0 || k == 1);
        assert(is_text_format(ext));
    }
    if !im.contains(ext) && !tx.contains(ext) {
        assert(ext != im[0] && ext != im[1] && ext != im[2] && ext != im[3] && ext != im[4]);
        assert(ext != tx[0] && ext != tx[1]);
    }
}

} // verus!
