//! Which files are pictures, which pictures are too large, and what an attempt
//! to decode one comes to.

use crate::image_loader::{
    file_pixels, guessed, icon_pixels, judged, known_extension, listed, lowered, opened_as,
    oversized, shown_entry, shows, supported, DecodeError, DecodedImage, FolderEntry,
    SUPPORTED_EXTS,
};
use crate::paths::{extension_of, last_dot, lemma_filter_members};
use crate::{OVERSIZED_MAX_PIXELS, OVERSIZED_MAX_SIDE};
use vstd::prelude::*;

verus! {

/// A picture is too large if and only if it has too many pixels or a side that
/// is too long, whatever the rest of it is like.
pub proof fn law_limits_decide(width: u32, height: u32)
    ensures
        width * height > OVERSIZED_MAX_PIXELS ==> oversized(width, height),
        width > OVERSIZED_MAX_SIDE ==> oversized(width, height),
        height > OVERSIZED_MAX_SIDE ==> oversized(width, height),
        width * height <= OVERSIZED_MAX_PIXELS && width <= OVERSIZED_MAX_SIDE && height
            <= OVERSIZED_MAX_SIDE ==> !oversized(width, height),
        OVERSIZED_MAX_PIXELS == 32_000_000,
        OVERSIZED_MAX_SIDE == 10_000,
{
}

/// A picture that is turned is as large as it was.
pub proof fn law_turning_keeps_the_size(width: u32, height: u32)
    ensures
        oversized(width, height) == oversized(height, width),
{
    assert(width * height == height * width) by (nonlinear_arith);
}

/// What is at least as wide and as high as a picture that is too large is too
/// large.
pub proof fn law_larger_is_too_large(width: u32, height: u32, wider: u32, higher: u32)
    requires
        oversized(width, height),
        width <= wider,
        height <= higher,
    ensures
        oversized(wider, higher),
{
    assert(width * height <= wider * higher) by (nonlinear_arith)
        requires
            width <= wider,
            height <= higher,
    ;
}

/// What is decoded was within the limits by its header and could be opened, and
/// is what the file shows, in its own width and height.
pub proof fn law_decoded_is_within_limits(
    dimensions: Option<(u32, u32)>,
    opened: Option<(Seq<u8>, u32, u32)>,
    exists: bool,
    outcome: Result<DecodedImage, DecodeError>,
)
    requires
        judged(dimensions, opened, exists, outcome),
        outcome is Ok,
    ensures
        dimensions is Some,
        ({
            let (w, h) = dimensions->0;
            w * h <= OVERSIZED_MAX_PIXELS && w <= OVERSIZED_MAX_SIDE && h <= OVERSIZED_MAX_SIDE
        }),
        opened is Some,
        ({
            let (rgba, width, height) = opened->0;
            let picture = outcome->Ok_0@;
            &&& picture.width == width
            &&& picture.height == height
            &&& picture.bytes == width * height * 4
            &&& shows(picture.color, width, height, rgba)
        }),
{
}

/// A picture within the limits that can be opened is decoded.
pub proof fn law_readable_picture_is_decoded(
    width: u32,
    height: u32,
    opened: (Seq<u8>, u32, u32),
    exists: bool,
    outcome: Result<DecodedImage, DecodeError>,
)
    requires
        judged(Some((width, height)), Some(opened), exists, outcome),
        width * height <= OVERSIZED_MAX_PIXELS,
        width <= OVERSIZED_MAX_SIDE,
        height <= OVERSIZED_MAX_SIDE,
    ensures
        outcome is Ok,
{
}

/// Why a picture was not decoded: it is too large, as its header says, whether
/// or not it could be opened; else it is there and cannot be read, or it is not
/// there.
pub proof fn law_errors_tell_why(
    dimensions: Option<(u32, u32)>,
    opened: Option<(Seq<u8>, u32, u32)>,
    exists: bool,
    outcome: Result<DecodedImage, DecodeError>,
)
    requires
        judged(dimensions, opened, exists, outcome),
        outcome is Err,
    ensures
        match outcome->Err_0 {
            DecodeError::Oversized { w, h } => dimensions == Some((w, h)) && (w * h
                > OVERSIZED_MAX_PIXELS || w > OVERSIZED_MAX_SIDE || h > OVERSIZED_MAX_SIDE),
            DecodeError::Failed => exists && (dimensions is None || opened is None),
            DecodeError::Missing => !exists && (dimensions is None || opened is None),
        },
        dimensions matches Some((w, h)) ==> (w * h > OVERSIZED_MAX_PIXELS || w
            > OVERSIZED_MAX_SIDE || h > OVERSIZED_MAX_SIDE) ==> outcome->Err_0
            == (DecodeError::Oversized { w, h }),
{
}

/// A file is opened by its own extension and its own bytes.
pub proof fn law_file_is_opened_by_its_extension(
    stem: Seq<char>,
    extension: Seq<char>,
    bytes: Vec<u8>,
)
    requires
        stem.len() > 0,
        !extension.contains('.'),
    ensures
        opened_as(stem + seq!['.'] + extension, Some(bytes)) == file_pixels(extension, bytes@),
        opened_as(stem + seq!['.'] + extension, None) is None,
{
    lemma_extension(stem, extension);
}

/// The extension is what stands behind the last dot.
pub proof fn lemma_extension(stem: Seq<char>, extension: Seq<char>)
    requires
        stem.len() > 0,
        !extension.contains('.'),
    ensures
        extension_of(stem + seq!['.'] + extension) == Some(extension),
        last_dot(stem + seq!['.'] + extension) == stem.len(),
{
    let name = stem + seq!['.'] + extension;
    lemma_last_dot(stem, extension);
    assert(name.skip(stem.len() as int + 1) =~= extension);
}

proof fn lemma_last_dot(stem: Seq<char>, extension: Seq<char>)
    requires
        !extension.contains('.'),
    ensures
        last_dot(stem + seq!['.'] + extension) == stem.len(),
    decreases extension.len(),
{
    let name = stem + seq!['.'] + extension;
    if extension.len() > 0 {
        let rest = extension.drop_last();
        assert(extension.contains(extension.last()));
        assert(!rest.contains('.')) by {
            if rest.contains('.') {
                let k = choose|k: int| 0 <= k < rest.len() && rest[k] == '.';
                assert(extension[k] == '.');
            }
        }
        lemma_last_dot(stem, rest);
        assert(name.drop_last() =~= stem + seq!['.'] + rest);
        assert(name.last() == extension.last());
    } else {
        assert(name.last() == '.');
    }
}

/// A name without a dot is not that of a picture, nor is one whose only dot
/// comes first.
pub proof fn law_name_without_extension_is_no_picture(name: Seq<char>)
    requires
        forall|i: int| 0 < i < name.len() ==> name[i] != '.',
    ensures
        !supported(name),
{
    lemma_no_dot(name);
}

pub proof fn lemma_no_dot(name: Seq<char>)
    requires
        forall|i: int| 0 < i < name.len() ==> name[i] != '.',
    ensures
        last_dot(name) <= 0,
    decreases name.len(),
{
    if name.len() > 0 {
        lemma_no_dot(name.drop_last());
    }
}

/// `a` and `b` are the same letter, one of them perhaps a capital.
pub open spec fn same_letter(a: char, b: char) -> bool {
    ||| a == b
    ||| 'A' <= a <= 'Z' && b as int == a as int + 32
    ||| 'A' <= b <= 'Z' && a as int == b as int + 32
}

/// Pictures are the files with an extension of six, in capitals or not.
pub proof fn law_six_extensions_are_pictures(
    stem: Seq<char>,
    extension: Seq<char>,
    small: Seq<char>,
)
    requires
        stem.len() > 0,
        !extension.contains('.'),
        extension.len() == small.len(),
        forall|i: int|
            0 <= i < small.len() ==> !('A' <= #[trigger] small[i] <= 'Z') && same_letter(
                extension[i],
                small[i],
            ),
    ensures
        supported(stem + seq!['.'] + extension) <==> (small == "jpg"@ || small == "jpeg"@ || small
            == "png"@ || small == "gif"@ || small == "bmp"@ || small == "webp"@),
{
    lemma_extension(stem, extension);
    assert forall|i: int| 0 <= i < small.len() implies lowered(extension)[i]
        == #[trigger] small[i] by {
        assert(same_letter(extension[i], small[i]));
    }
    assert(lowered(extension) =~= small);
    lemma_known_extensions(extension);
}

/// The known extensions are six.
proof fn lemma_known_extensions(extension: Seq<char>)
    ensures
        ({
            let small = lowered(extension);
            known_extension(extension) <==> (small == "jpg"@ || small == "jpeg"@ || small
                == "png"@ || small == "gif"@ || small == "bmp"@ || small == "webp"@)
        }),
{
    let exts = SUPPORTED_EXTS@;
    let small = lowered(extension);
    assert(exts.len() == 6);
    assert(exts[0]@ == "jpg"@);
    assert(exts[1]@ == "jpeg"@);
    assert(exts[2]@ == "png"@);
    assert(exts[3]@ == "gif"@);
    assert(exts[4]@ == "bmp"@);
    assert(exts[5]@ == "webp"@);
    if known_extension(extension) {
        let k = choose|k: int| 0 <= k < exts.len() && #[trigger] exts[k]@ == small;
        assert(k == 0 || k == 1 || k == 2 || k == 3 || k == 4 || k == 5);
    }
}

/// A path is listed if and only if a file of a picture's name has it.
pub proof fn law_scan_lists_the_pictures(entries: Seq<FolderEntry>, path: Seq<char>)
    ensures
        listed(entries).contains(path) <==> exists|i: int|
            0 <= i < entries.len() && #[trigger] entries[i].path@ == path && entries[i].is_file
                && supported(entries[i].file_name@),
{
    let keep = |e: FolderEntry| shown_entry(e);
    let kept = entries.filter(keep);
    let paths = kept.map_values(|e: FolderEntry| e.path@);
    lemma_filter_members(entries, keep);
    if paths.contains(path) {
        let k = choose|k: int| 0 <= k < paths.len() && paths[k] == path;
        assert(kept.contains(kept[k]));
        let i = choose|i: int| 0 <= i < entries.len() && entries[i] == kept[k];
        assert(entries[i].path@ == path);
    }
    if exists|i: int|
        0 <= i < entries.len() && #[trigger] entries[i].path@ == path && entries[i].is_file
            && supported(entries[i].file_name@) {
        let i = choose|i: int|
            0 <= i < entries.len() && #[trigger] entries[i].path@ == path && entries[i].is_file
                && supported(entries[i].file_name@);
        assert(entries.contains(entries[i]));
        assert(kept.contains(entries[i]));
        let k = choose|k: int| 0 <= k < kept.len() && kept[k] == entries[i];
        assert(paths[k] == path);
    }
}

/// The pictures are listed in the order of the entries: what comes first in the
/// folder comes first in the list.
pub proof fn law_scan_keeps_the_order(first: Seq<FolderEntry>, rest: Seq<FolderEntry>)
    ensures
        listed(first + rest) == listed(first) + listed(rest),
{
    let keep = |e: FolderEntry| shown_entry(e);
    let path_of = |e: FolderEntry| e.path@;
    Seq::filter_distributes_over_add(first, rest, keep);
    assert((first.filter(keep) + rest.filter(keep)).map_values(path_of) =~= first.filter(
        keep,
    ).map_values(path_of) + rest.filter(keep).map_values(path_of));
}

/// The icon is opened as the format that its bytes look like, and not at all
/// where they look like none.
pub proof fn law_icon_is_opened_by_its_bytes(bytes: Seq<u8>)
    ensures
        guessed(bytes) matches Some(extension) ==> icon_pixels(bytes) == file_pixels(
            extension,
            bytes,
        ),
        guessed(bytes) is None ==> icon_pixels(bytes) is None,
{
}

} // verus!
