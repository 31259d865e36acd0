//! The front cover of an ID3 tag (MP3 files), through the `id3` crate.

use vstd::prelude::*;
use id3::TagLike;
use crate::error::{ArtworkError, AudioFormat};
use crate::format::{guess_mime_type, guessed_mime_type};

verus! {

/// An ID3 tag of the `id3` crate, carried through opaquely.
#[verifier::external_type_specification]
#[verifier::external_body]
pub struct ExId3Tag(id3::Tag);

/// A picture of an ID3 tag: its picture-type code, MIME type, description
/// and image data.
pub type Id3Picture = (u8, Seq<char>, Seq<char>, Seq<u8>);

/// A frame of an ID3 tag: its id, whether that id is a valid ID3v2.3/v2.4
/// id, the kind of its comparison key (0: compared by the key's byte
/// strings, 1: equal to every key of kind 1, 2: equal to none), the key's
/// byte strings, and the picture it holds, if it is a picture frame.
pub type Id3Frame = (Seq<char>, bool, u8, Seq<Seq<u8>>, Option<Id3Picture>);

/// The frames of an ID3 tag, in the order `id3::Tag::frames` yields them.
pub uninterp spec fn id3_frames(tag: id3::Tag) -> Seq<Id3Frame>;

/// The pictures held by `frames`, in order: what `id3::Tag::pictures`
/// yields.
pub open spec fn pictures_of(frames: Seq<Id3Frame>) -> Seq<Id3Picture>
    decreases frames.len(),
{
    if frames.len() == 0 {
        seq![]
    } else {
        match frames.last().4 {
            Some(p) => pictures_of(frames.drop_last()).push(p),
            None => pictures_of(frames.drop_last()),
        }
    }
}

/// The frame id of attached pictures.
pub open spec fn apic_id() -> Seq<char> {
    seq!['A', 'P', 'I', 'C']
}

/// The comparison key of a front-cover picture: the bytes of its type's
/// name, `Front cover`.
pub open spec fn front_cover_key() -> Seq<Seq<u8>> {
    seq![seq![0x46u8, 0x72, 0x6f, 0x6e, 0x74, 0x20, 0x63, 0x6f, 0x76, 0x65, 0x72]]
}

/// The frame that a front-cover picture `p` makes.
pub open spec fn front_cover_frame(p: Id3Picture) -> Id3Frame {
    (apic_id(), true, 0u8, front_cover_key(), Some(p))
}

/// The frame `f` conflicts with a new front-cover picture frame: it has
/// the valid id `APIC` and the comparison key of a front cover.
pub open spec fn conflicts_with_front_cover(f: Id3Frame) -> bool {
    f.0 == apic_id() && f.1 && f.2 == 0 && f.3 == front_cover_key()
}

/// `frames` without its first frame that conflicts with a new front-cover
/// picture frame (unchanged when there is none).
pub open spec fn without_first_front_cover(frames: Seq<Id3Frame>) -> Seq<Id3Frame>
    decreases frames.len(),
{
    if frames.len() == 0 {
        frames
    } else if conflicts_with_front_cover(frames[0]) {
        frames.drop_first()
    } else {
        seq![frames[0]] + without_first_front_cover(frames.drop_first())
    }
}

/// The first picture that `id3::Tag::pictures` yields, as its image data
/// and MIME type; `None` when the tag holds no picture.
#[verifier::external_body]
fn id3_first_picture(tag: &id3::Tag) -> (r: Option<(Vec<u8>, String)>)
    ensures
        r is None <==> pictures_of(id3_frames(*tag)).len() == 0,
        r matches Some((data, mime)) ==> data@ == pictures_of(id3_frames(*tag))[0].3 && mime@
            == pictures_of(id3_frames(*tag))[0].1,
{
    tag.pictures().next().map(|p| (p.data.clone(), p.mime_type.clone()))
}

/// Adds a front-cover picture frame (`APIC`, type 3) to the tag with
/// `id3::TagLike::add_frame`: the first frame that conflicts with it (same
/// id, same comparison key, the new frame having no encoding set) is
/// removed, and the new frame is appended last.
#[verifier::external_body]
fn id3_add_front_cover(tag: &mut id3::Tag, mime_type: String, description: String, data: Vec<u8>)
    ensures
        id3_frames(*final(tag)) == without_first_front_cover(id3_frames(*old(tag))).push(
            front_cover_frame((3u8, mime_type@, description@, data@)),
        ),
{
    tag.add_frame(id3::frame::Picture {
        mime_type,
        picture_type: id3::frame::PictureType::CoverFront,
        description,
        data,
    });
}

/// Extracts the artwork of an MP3 file from its ID3 tag: the first picture,
/// as image data and MIME type.
pub fn extract_mp3_artwork(tag: &id3::Tag) -> (r: Result<(Vec<u8>, String), ArtworkError>)
    ensures
        pictures_of(id3_frames(*tag)).len() == 0 ==> r matches Err(
            ArtworkError::NoArtwork(AudioFormat::Mp3),
        ),
        pictures_of(id3_frames(*tag)).len() > 0 ==> (r matches Ok((data, mime)) && data@
            == pictures_of(id3_frames(*tag))[0].3 && mime@ == pictures_of(id3_frames(*tag))[0].1),
{
    match id3_first_picture(tag) {
        Some(picture) => Ok(picture),
        None => Err(ArtworkError::NoArtwork(AudioFormat::Mp3)),
    }
}

/// Writes `image_data` into the ID3 tag as its front cover, with no
/// description and the MIME type that `mime_guess` tells by `image_path`:
/// the first frame that holds a front cover (an `APIC` frame keyed
/// `Front cover`) is removed, and the new front-cover frame is appended.
pub fn write_mp3_artwork(tag: &mut id3::Tag, image_data: Vec<u8>, image_path: &str)
    ensures
        id3_frames(*final(tag)) == without_first_front_cover(id3_frames(*old(tag))).push(
            front_cover_frame((3u8, guessed_mime_type(image_path@), Seq::empty(), image_data@)),
        ),
{
    let mime = guess_mime_type(image_path);
    id3_add_front_cover(tag, mime, String::new(), image_data);
}

} // verus!
