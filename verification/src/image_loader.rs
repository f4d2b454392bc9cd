//! Which files are pictures, how large a picture may be, and what becomes of
//! an attempt to decode one.

use crate::paths::{
    chars_of, extension_of, find_extension, lemma_filter_members, lemma_filter_next, names,
};
use crate::{OVERSIZED_MAX_PIXELS, OVERSIZED_MAX_SIDE};
use vstd::prelude::*;

verus! {

/// The extensions of the files that are shown, in lower case.
pub const SUPPORTED_EXTS: [&'static str; 6] = ["jpg", "jpeg", "png", "gif", "bmp", "webp"];

/// `egui::ColorImage`, a picture in main memory.
#[verifier::external_type_specification]
#[verifier::external_body]
pub struct ExColorImage(egui::ColorImage);

/// The pixels of an image, row by row, as red, green, blue and alpha with the
/// colours multiplied by alpha.
pub uninterp spec fn color_pixels(image: egui::ColorImage) -> Seq<(u8, u8, u8, u8)>;

/// The width and the height of an image.
pub uninterp spec fn color_size(image: egui::ColorImage) -> (nat, nat);

/// A decoded picture that has not been uploaded. Its sizes agree.
pub struct DecodedImage {
    width: u32,
    height: u32,
    color: egui::ColorImage,
    /// Bytes of the picture at four per pixel.
    rgba_bytes: usize,
}

/// What a [`DecodedImage`] holds.
pub struct Picture {
    pub width: u32,
    pub height: u32,
    pub color: egui::ColorImage,
    pub bytes: nat,
}

impl Picture {
    /// The sizes that the fields give agree.
    pub open spec fn wf(self) -> bool {
        &&& self.bytes == self.width * self.height * 4
        &&& self.bytes <= usize::MAX
        &&& color_size(self.color) == (self.width as nat, self.height as nat)
        &&& color_pixels(self.color).len() == self.width * self.height
    }
}

impl View for DecodedImage {
    type V = Picture;

    closed spec fn view(&self) -> Picture {
        Picture {
            width: self.width,
            height: self.height,
            color: self.color,
            bytes: self.rgba_bytes as nat,
        }
    }
}

impl DecodedImage {
    #[verifier::type_invariant]
    spec fn sizes_agree(self) -> bool {
        self@.wf()
    }

    pub fn width(&self) -> (width: u32)
        ensures
            width == self@.width,
            self@.wf(),
    {
        proof {
            use_type_invariant(self);
        }
        self.width
    }

    pub fn height(&self) -> (height: u32)
        ensures
            height == self@.height,
            self@.wf(),
    {
        proof {
            use_type_invariant(self);
        }
        self.height
    }

    pub fn rgba_bytes(&self) -> (bytes: usize)
        ensures
            bytes == self@.bytes,
            self@.wf(),
    {
        proof {
            use_type_invariant(self);
        }
        self.rgba_bytes
    }

    /// The picture itself.
    pub fn into_color(self) -> (color: egui::ColorImage)
        ensures
            color == self@.color,
    {
        self.color
    }
}

/// Pixels as a decoder hands them over: red, green, blue and alpha of each,
/// row by row.
pub struct RgbaPixels {
    pub width: u32,
    pub height: u32,
    pub bytes: Vec<u8>,
}

impl RgbaPixels {
    /// There are four bytes for each pixel.
    pub open spec fn wf(self) -> bool {
        self.bytes.len() == self.width * self.height * 4
    }
}

/// The bytes, width and height of pixels.
pub open spec fn pixels_of(pixels: Option<RgbaPixels>) -> Option<(Seq<u8>, u32, u32)> {
    match pixels {
        Some(pixels) => Some((pixels.bytes@, pixels.width, pixels.height)),
        None => None,
    }
}

/// Why a picture could not be decoded.
#[derive(Debug, Clone, Copy, PartialEq, Eq, Structural)]
pub enum DecodeError {
    /// The file was not there.
    Missing,
    /// The file was there and could not be read as a picture.
    Failed,
    /// The picture is larger than the limits.
    Oversized { w: u32, h: u32 },
}

/// What is remembered of a file to notice that another has taken its place.
#[derive(Debug, Clone, Copy, PartialEq, Eq, Structural)]
pub struct FileFingerprint {
    pub len: u64,
    /// Time of last change, in nanoseconds from the Unix epoch.
    pub modified: Option<i128>,
}

/// Whether two looks at a file found the same.
pub fn same_fingerprint(a: &Option<FileFingerprint>, b: &Option<FileFingerprint>) -> (same: bool)
    ensures
        same == (*a == *b),
{
    match (a, b) {
        (None, None) => true,
        (Some(x), Some(y)) => x.len == y.len && match (x.modified, y.modified) {
            (None, None) => true,
            (Some(s), Some(t)) => s == t,
            _ => false,
        },
        _ => false,
    }
}

/// A character with `A` to `Z` turned into `a` to `z`.
pub open spec fn lower(c: char) -> char {
    if 'A' <= c && c <= 'Z' {
        ((c as u8) + 32) as char
    } else {
        c
    }
}

/// A text with `A` to `Z` turned into `a` to `z`.
pub open spec fn lowered(text: Seq<char>) -> Seq<char> {
    Seq::new(text.len(), |i: int| lower(text[i]))
}

/// The extension is one of [`SUPPORTED_EXTS`], whatever the case of its
/// letters.
pub open spec fn known_extension(extension: Seq<char>) -> bool {
    exists|k: int|
        0 <= k < SUPPORTED_EXTS@.len() && #[trigger] SUPPORTED_EXTS@[k]@ == lowered(extension)
}

/// The file name has one of the known extensions.
pub open spec fn supported(file_name: Seq<char>) -> bool {
    match extension_of(file_name) {
        Some(extension) => known_extension(extension),
        None => false,
    }
}

fn lower_char(c: char) -> (l: char)
    ensures
        l == lower(c),
{
    if 'A' <= c && c <= 'Z' {
        ((c as u8) + 32) as char
    } else {
        c
    }
}

fn same_chars(a: &Vec<char>, b: &Vec<char>) -> (same: bool)
    ensures
        same == (a@ == b@),
{
    if a.len() != b.len() {
        return false;
    }
    let mut i: usize = 0;
    while i < a.len()
        invariant
            i <= a.len() == b.len(),
            forall|j: int| 0 <= j < i ==> a@[j] == b@[j],
        decreases a.len() - i,
    {
        if a[i] != b[i] {
            return false;
        }
        i = i + 1;
    }
    assert(a@ =~= b@);
    true
}

/// Whether a file has the extension of a picture. `file_name` is the name alone,
/// without its folder.
pub fn is_supported(file_name: &str) -> (yes: bool)
    ensures
        yes == supported(file_name@),
{
    let extension = match find_extension(file_name) {
        Some(extension) => chars_of(extension.as_str()),
        None => return false,
    };
    let ghost target = lowered(extension@);
    let mut low: Vec<char> = Vec::new();
    let mut i: usize = 0;
    while i < extension.len()
        invariant
            i <= extension.len(),
            low@ =~= lowered(extension@.take(i as int)),
        decreases extension.len() - i,
    {
        low.push(lower_char(extension[i]));
        i = i + 1;
    }
    assert(extension@.take(extension.len() as int) =~= extension@);
    let mut k: usize = 0;
    while k < SUPPORTED_EXTS.len()
        invariant
            k <= SUPPORTED_EXTS@.len(),
            low@ == target,
            target == lowered(extension@),
            supported(file_name@) == known_extension(extension@),
            forall|j: int| 0 <= j < k ==> #[trigger] SUPPORTED_EXTS@[j]@ != target,
        decreases SUPPORTED_EXTS@.len() - k,
    {
        if same_chars(&low, &chars_of(SUPPORTED_EXTS[k])) {
            assert(SUPPORTED_EXTS@[k as int]@ == target);
            return true;
        }
        k = k + 1;
    }
    false
}

/// One entry of a folder.
pub struct FolderEntry {
    pub path: String,
    /// The entry's own name, the last component of `path`.
    pub file_name: String,
    pub is_file: bool,
}

/// The entry is a file with the extension of a picture.
pub open spec fn shown_entry(entry: FolderEntry) -> bool {
    entry.is_file && supported(entry.file_name@)
}

/// The paths of the pictures among the entries of a folder, in the order of the
/// entries.
pub open spec fn listed(entries: Seq<FolderEntry>) -> Seq<Seq<char>> {
    entries.filter(|e: FolderEntry| shown_entry(e)).map_values(|e: FolderEntry| e.path@)
}

/// The pictures among the entries of a folder, in the order of the entries.
pub fn scan_dir(entries: Vec<FolderEntry>) -> (paths: Vec<String>)
    ensures
        names(paths@) == listed(entries@),
{
    let mut paths: Vec<String> = Vec::new();
    let ghost keep = |e: FolderEntry| shown_entry(e);
    let ghost path_of = |e: FolderEntry| e.path@;
    let mut i: usize = 0;
    assert(entries@.take(0).filter(keep) =~= Seq::empty()) by {
        reveal(Seq::filter);
    }
    while i < entries.len()
        invariant
            i <= entries.len(),
            keep == (|e: FolderEntry| shown_entry(e)),
            path_of == (|e: FolderEntry| e.path@),
            names(paths@) =~= entries@.take(i as int).filter(keep).map_values(path_of),
        decreases entries.len() - i,
    {
        proof {
            lemma_filter_next(entries@, keep, i as int);
            assert(keep(entries@[i as int]) == shown_entry(entries@[i as int]));
        }
        let ghost kept = entries@.take(i as int).filter(keep);
        let ghost before = paths@;
        if entries[i].is_file && is_supported(entries[i].file_name.as_str()) {
            paths.push(entries[i].path.clone());
            assert(kept.push(entries@[i as int]).map_values(path_of) =~= kept.map_values(
                path_of,
            ).push(entries@[i as int].path@));
            assert(names(paths@) =~= names(before).push(entries@[i as int].path@));
        }
        i = i + 1;
    }
    assert(entries@.take(i as int) =~= entries@);
    paths
}

/// A folder that has no entry twice gives no picture twice.
pub proof fn law_scan_lists_no_picture_twice(entries: Seq<FolderEntry>)
    requires
        entries.map_values(|e: FolderEntry| e.path@).no_duplicates(),
    ensures
        listed(entries).no_duplicates(),
{
    let paths = entries.map_values(|e: FolderEntry| e.path@);
    let keep = |e: FolderEntry| shown_entry(e);
    let kept = entries.filter(keep);
    let shown = kept.map_values(|e: FolderEntry| e.path@);
    assert(entries.no_duplicates()) by {
        assert forall|i: int, j: int|
            0 <= i < entries.len() && 0 <= j < entries.len() && i != j implies entries[i]
            != entries[j] by {
            assert(paths[i] != paths[j]);
        }
    }
    lemma_filter_members(entries, keep);
    assert forall|i: int, j: int|
        0 <= i < shown.len() && 0 <= j < shown.len() && i != j implies shown[i] != shown[j] by {
        assert(kept.contains(kept[i]) && kept.contains(kept[j]));
        let a = choose|a: int| 0 <= a < entries.len() && entries[a] == kept[i];
        let b = choose|b: int| 0 <= b < entries.len() && entries[b] == kept[j];
        assert(kept[i] != kept[j]);
        assert(paths[a] != paths[b]);
    }
}

/// Bytes of texture memory that a picture takes.
pub fn vram_size(width: u32, height: u32) -> (bytes: usize)
    requires
        width * height * 4 <= usize::MAX,
    ensures
        bytes == width * height * 4,
{
    assert(width as usize * height as usize <= width * height * 4) by (nonlinear_arith);
    (width as usize) * (height as usize) * 4
}

/// The picture has too many pixels or too long a side.
pub open spec fn oversized(width: u32, height: u32) -> bool {
    width * height > OVERSIZED_MAX_PIXELS || width > OVERSIZED_MAX_SIDE || height
        > OVERSIZED_MAX_SIDE
}

/// Whether a picture of this size is set aside instead of shown.
pub fn is_oversized(width: u32, height: u32) -> (yes: bool)
    ensures
        yes == oversized(width, height),
{
    assert(width as u64 * height as u64 <= 0xffff_ffff * 0xffff_ffff) by (nonlinear_arith)
        requires
            width <= 0xffff_ffff,
            height <= 0xffff_ffff,
    ;
    let pixels: u64 = (width as u64) * (height as u64);
    let longest: u32 = if width > height {
        width
    } else {
        height
    };
    pixels > OVERSIZED_MAX_PIXELS || longest > OVERSIZED_MAX_SIDE
}

/// What is known of a pixel `p` of an image made from a colour by itself: alpha
/// is kept, an opaque colour is kept, and a fully transparent one is all 0.
pub open spec fn multiplied(p: (u8, u8, u8, u8), r: u8, g: u8, b: u8, a: u8) -> bool {
    &&& p.3 == a
    &&& a == 255 ==> p == (r, g, b, a)
    &&& a == 0 ==> p == (0u8, 0u8, 0u8, 0u8)
}

/// Red, green and blue of every pixel come from the table `t`, by their value
/// and alpha. The table keeps 0.
pub open spec fn one_table(
    pixels: Seq<(u8, u8, u8, u8)>,
    rgba: Seq<u8>,
    t: spec_fn(u8, u8) -> u8,
) -> bool {
    &&& forall|a: u8| #[trigger] t(0, a) == 0
    &&& forall|i: int|
        0 <= i < pixels.len() ==> {
            &&& (#[trigger] pixels[i]).0 == t(rgba[4 * i], rgba[4 * i + 3])
            &&& pixels[i].1 == t(rgba[4 * i + 1], rgba[4 * i + 3])
            &&& pixels[i].2 == t(rgba[4 * i + 2], rgba[4 * i + 3])
        }
}

/// `egui::ColorImage::from_rgba_unmultiplied` may give these pixels for these
/// bytes.
pub uninterp spec fn multiplies_to(rgba: Seq<u8>, pixels: Seq<(u8, u8, u8, u8)>) -> bool;

/// The image shows the pixels of `rgba`.
pub open spec fn shows(image: egui::ColorImage, width: u32, height: u32, rgba: Seq<u8>) -> bool {
    &&& color_size(image) == (width as nat, height as nat)
    &&& color_pixels(image).len() == width * height
    &&& forall|i: int|
        0 <= i < width * height ==> multiplied(
            #[trigger] color_pixels(image)[i],
            rgba[4 * i],
            rgba[4 * i + 1],
            rgba[4 * i + 2],
            rgba[4 * i + 3],
        )
    &&& exists|t: spec_fn(u8, u8) -> u8| #[trigger] one_table(color_pixels(image), rgba, t)
    &&& multiplies_to(rgba, color_pixels(image))
}

/// `egui::ColorImage::from_rgba_unmultiplied`, which panics unless there are
/// four bytes for each pixel. The image has the given size and one pixel for
/// each four bytes, in order: pixels that the call may give for just these
/// bytes. Opaque and fully transparent pixels are stated exactly. The colours of
/// the others come, all three, from one table by value and alpha, and alpha is
/// kept; which numbers the table holds is not said, since it is computed with a
/// power in floating point.
#[verifier::external_body]
fn color_from_rgba(width: u32, height: u32, rgba: &Vec<u8>) -> (image: egui::ColorImage)
    requires
        rgba.len() == width * height * 4,
    ensures
        color_size(image) == (width as nat, height as nat),
        color_pixels(image).len() == width * height,
        forall|i: int|
            0 <= i < width * height ==> multiplied(
                #[trigger] color_pixels(image)[i],
                rgba@[4 * i],
                rgba@[4 * i + 1],
                rgba@[4 * i + 2],
                rgba@[4 * i + 3],
            ),
        exists|t: spec_fn(u8, u8) -> u8| #[trigger] one_table(color_pixels(image), rgba@, t),
        multiplies_to(rgba@, color_pixels(image)),
{
    egui::ColorImage::from_rgba_unmultiplied([width as usize, height as usize], rgba)
}

/// The error for a file that could not be read as a picture.
pub open spec fn unreadable(exists: bool) -> DecodeError {
    if exists {
        DecodeError::Failed
    } else {
        DecodeError::Missing
    }
}

/// The error that the looks at a file lead to, if they lead to one:
/// `dimensions` from its header, whether it could be `opened` as a picture,
/// and whether it `exists`.
pub open spec fn decode_error(
    dimensions: Option<(u32, u32)>,
    opened: bool,
    exists: bool,
) -> Option<DecodeError> {
    match dimensions {
        None => Some(unreadable(exists)),
        Some((w, h)) => if oversized(w, h) {
            Some(DecodeError::Oversized { w, h })
        } else if !opened {
            Some(unreadable(exists))
        } else {
            None
        },
    }
}

/// The outcome is the one that the looks at a file lead to, where `opened`
/// holds its pixels, width and height if it could be opened as a picture.
pub open spec fn judged(
    dimensions: Option<(u32, u32)>,
    opened: Option<(Seq<u8>, u32, u32)>,
    exists: bool,
    outcome: Result<DecodedImage, DecodeError>,
) -> bool {
    match outcome {
        Err(e) => decode_error(dimensions, opened is Some, exists) == Some(e),
        Ok(image) => {
            &&& decode_error(dimensions, opened is Some, exists) is None
            &&& image@.wf()
            &&& opened matches Some((rgba, width, height)) && image@.width == width
                && image@.height == height && shows(image@.color, width, height, rgba)
        },
    }
}

/// Judges an attempt to decode a picture: the size comes from the header, and
/// a picture above the limits is refused whether or not it was opened.
pub fn judge_attempt(
    dimensions: Option<(u32, u32)>,
    opened: Option<RgbaPixels>,
    exists: bool,
) -> (outcome: Result<DecodedImage, DecodeError>)
    requires
        opened matches Some(pixels) ==> pixels.wf(),
    ensures
        judged(dimensions, pixels_of(opened), exists, outcome),
{
    let missing = if exists {
        DecodeError::Failed
    } else {
        DecodeError::Missing
    };
    match dimensions {
        Some((w, h)) => {
            if is_oversized(w, h) {
                return Err(DecodeError::Oversized { w, h });
            }
        },
        None => return Err(missing),
    }
    match opened {
        None => Err(missing),
        Some(pixels) => Ok(
            DecodedImage {
                width: pixels.width,
                height: pixels.height,
                rgba_bytes: pixels.bytes.len(),
                color: color_from_rgba(pixels.width, pixels.height, &pixels.bytes),
            },
        ),
    }
}

/// What a file with an extension shows: its pixels, width and height, or
/// nothing where it cannot be decoded.
pub uninterp spec fn file_pixels(extension: Seq<char>, bytes: Seq<u8>) -> Option<
    (Seq<u8>, u32, u32),
>;

/// `image::load_from_memory_with_format`, for the format that
/// `image::ImageFormat::from_extension` gives, with the picture turned into
/// pixels by `to_rgba8`. There are four bytes for each pixel. What comes out
/// depends on the extension and the bytes alone; where the JPEG decoder has
/// routines of its own for a processor, they give bit for bit what its plain
/// ones give.
#[verifier::external_body]
fn load_rgba_as(extension: &str, bytes: &[u8]) -> (decoded: Option<RgbaPixels>)
    ensures
        decoded matches Some(pixels) ==> pixels.wf(),
        pixels_of(decoded) == file_pixels(extension@, bytes@),
{
    let format = image::ImageFormat::from_extension(extension)?;
    let picture = image::load_from_memory_with_format(bytes, format).ok()?.to_rgba8();
    let (width, height) = picture.dimensions();
    Some(RgbaPixels { width, height, bytes: picture.into_raw() })
}

/// What opening a file of that name and with that content gives.
pub open spec fn opened_as(file_name: Seq<char>, contents: Option<Vec<u8>>) -> Option<
    (Seq<u8>, u32, u32),
> {
    match (extension_of(file_name), contents) {
        (Some(extension), Some(bytes)) => file_pixels(extension, bytes@),
        _ => None,
    }
}

/// Decodes a picture. `dimensions` are those in the header of the file,
/// `contents` its bytes where it could be read, and `exists` whether it is
/// there. A picture above the limits is not decoded.
pub fn decode_color(
    file_name: &str,
    dimensions: Option<(u32, u32)>,
    contents: Option<Vec<u8>>,
    exists: bool,
) -> (outcome: Result<DecodedImage, DecodeError>)
    ensures
        judged(dimensions, opened_as(file_name@, contents), exists, outcome),
{
    let refused = match dimensions {
        Some((w, h)) => is_oversized(w, h),
        None => true,
    };
    if refused {
        return judge_attempt(dimensions, None, exists);
    }
    let opened = match (find_extension(file_name), &contents) {
        (Some(extension), Some(bytes)) => load_rgba_as(extension.as_str(), bytes.as_slice()),
        _ => None,
    };
    judge_attempt(dimensions, opened, exists)
}

/// The eight bytes with which a PNG file begins.
pub open spec fn is_png(bytes: Seq<u8>) -> bool {
    bytes.len() >= 8 && bytes.take(8) == seq![
        0x89u8,
        0x50u8,
        0x4eu8,
        0x47u8,
        0x0du8,
        0x0au8,
        0x1au8,
        0x0au8,
    ]
}

/// The extension of the format that the bytes of a file look like, if there is
/// one.
pub uninterp spec fn guessed(bytes: Seq<u8>) -> Option<Seq<char>>;

/// The text of an extension, if there is one.
pub open spec fn text_of(extension: Option<&'static str>) -> Option<Seq<char>> {
    match extension {
        Some(text) => Some(text@),
        None => None,
    }
}

/// `image::guess_format`, with the format turned into the first extension that
/// `extensions_str` has for it. It goes by the first bytes alone; the eight
/// bytes of a PNG file make it a PNG file.
#[verifier::external_body]
fn guess_extension(bytes: &[u8]) -> (extension: Option<&'static str>)
    ensures
        text_of(extension) == guessed(bytes@),
        is_png(bytes@) ==> text_of(extension) == Some("png"@),
{
    image::guess_format(bytes).ok()?.extensions_str().first().copied()
}

/// What the file of an icon shows.
pub open spec fn icon_pixels(bytes: Seq<u8>) -> Option<(Seq<u8>, u32, u32)> {
    match guessed(bytes) {
        Some(extension) => file_pixels(extension, bytes),
        None => None,
    }
}

/// The icon of the window, from the bytes of its file.
pub fn app_icon(bytes: &[u8]) -> (icon: Option<RgbaPixels>)
    ensures
        icon matches Some(pixels) ==> pixels.wf(),
        pixels_of(icon) == icon_pixels(bytes@),
        is_png(bytes@) ==> pixels_of(icon) == file_pixels("png"@, bytes@),
{
    match guess_extension(bytes) {
        Some(extension) => load_rgba_as(extension, bytes),
        None => None,
    }
}

} // verus!
