//! Finding and extracting the cover art of an MP4/M4A file.

use vstd::prelude::*;
use vstd::slice::slice_to_vec;
use crate::atom::{scan_atom, scan_for_atom, COVR, DATA};
use crate::error::{ArtworkError, AudioFormat};

verus! {

/// The image data begins with the PNG signature (and is longer than it).
pub open spec fn looks_like_png(a: Seq<u8>) -> bool {
    a.len() > 4 && a[0] == 0x89 && a[1] == 0x50 && a[2] == 0x4e && a[3] == 0x47
}

/// The MIME type given to extracted artwork: PNG when it begins with the
/// PNG signature, JPEG otherwise.
pub open spec fn sniffed_mime(a: Seq<u8>) -> Seq<char> {
    if looks_like_png(a) {
        seq!['i', 'm', 'a', 'g', 'e', '/', 'p', 'n', 'g']
    } else {
        seq!['i', 'm', 'a', 'g', 'e', '/', 'j', 'p', 'e', 'g']
    }
}

/// Names the MIME type of artwork by its first bytes.
pub fn sniff_mime(artwork: &[u8]) -> (r: String)
    ensures
        r@ == sniffed_mime(artwork@),
{
    proof {
        reveal_strlit("image/png");
        reveal_strlit("image/jpeg");
    }
    if artwork.len() > 4 && artwork[0] == 0x89 && artwork[1] == 0x50 && artwork[2] == 0x4e
        && artwork[3] == 0x47 {
        String::from_str("image/png")
    } else {
        String::from_str("image/jpeg")
    }
}

/// Where the `data` atom of the cover art stands in `s`, with its size: the
/// first `covr` atom found byte by byte in `s`, then the first `data` atom
/// found byte by byte within that atom's payload.
pub open spec fn cover_data_atom(s: Seq<u8>) -> Option<(int, int)> {
    match scan_for_atom(s, COVR) {
        Some((c, n)) => match scan_for_atom(s.subrange(c + 8, c + n), DATA) {
            Some((d, m)) => Some((c + 8 + d, m)),
            None => None,
        },
        None => None,
    }
}

/// The cover's `data` atom, where there is one, is long enough to hold the
/// 16 bytes that precede the image (header, flags and type code).
pub open spec fn cover_data_readable(s: Seq<u8>) -> bool {
    cover_data_atom(s) matches Some((d, m)) ==> m >= 16
}

/// The image bytes of the cover: the `data` atom's payload after its type
/// and flag words.
pub open spec fn cover_image(s: Seq<u8>) -> Option<Seq<u8>> {
    match cover_data_atom(s) {
        Some((d, m)) => Some(s.subrange(d + 16, d + m)),
        None => None,
    }
}

/// Tells whether the cover's `data` atom, if any, can be read: `false`
/// exactly when it is shorter than the 16 bytes before the image.
pub fn cover_data_is_readable(data: &[u8]) -> (r: bool)
    ensures
        r == cover_data_readable(data@),
{
    assert(data@.len() == data.len());
    match scan_atom(data, COVR) {
        Some((start, size)) => {
            let atom_data = &data[start + 8..start + size];
            match scan_atom(atom_data, DATA) {
                Some((_data_start, data_size)) => data_size >= 16,
                None => true,
            }
        },
        None => true,
    }
}

/// Extracts the cover art of an MP4/M4A file from its bytes, with a MIME
/// type told by the image's first bytes.
///
/// The `covr` atom is the first found when every byte offset is tried in
/// turn, and within it so is its `data` atom; when there is none the file
/// has no artwork.
pub fn parse_m4a_artwork_manual(data: &[u8]) -> (r: Result<(Vec<u8>, String), ArtworkError>)
    requires
        cover_data_readable(data@),
    ensures
        match cover_image(data@) {
            Some(image) => r matches Ok((a, mime)) && a@ == image && mime@ == sniffed_mime(image),
            None => r matches Err(ArtworkError::NoArtwork(AudioFormat::M4a)),
        },
{
    assert(data@.len() == data.len());
    if let Some((start, size)) = scan_atom(data, COVR) {
        let atom_data = &data[start + 8..start + size];
        if let Some((data_start, data_size)) = scan_atom(atom_data, DATA) {
            let artwork = &atom_data[data_start + 16..data_start + data_size];
            let mime = sniff_mime(artwork);
            assert(artwork@ =~= data@.subrange(
                start + 8 + data_start + 16,
                start + 8 + data_start + data_size,
            ));
            return Ok((slice_to_vec(artwork), mime));
        }
    }
    Err(ArtworkError::NoArtwork(AudioFormat::M4a))
}

} // verus!
