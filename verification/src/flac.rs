//! The front cover of a FLAC file's metadata, through the `metaflac` crate.

use vstd::prelude::*;
use crate::error::{ArtworkError, AudioFormat};
use crate::format::{guess_mime_type, guessed_mime_type};

verus! {

/// The metadata blocks of a FLAC file, as the `metaflac` crate holds them,
/// carried through opaquely.
#[verifier::external_type_specification]
#[verifier::external_body]
pub struct ExFlacTag(metaflac::Tag);

/// A picture of a FLAC tag: its picture-type code, MIME type, description
/// and image data.
pub type FlacPicture = (u8, Seq<char>, Seq<char>, Seq<u8>);

/// A metadata block of a FLAC tag: its block-type code (0 stream info,
/// 1 padding, 2 application, 3 seek table, 4 comments, 5 cue sheet,
/// 6 picture, the read code for an unknown block), the encoded bytes of its
/// contents when it is not a picture (empty for a picture), and the picture
/// it holds, if it is a picture block.
pub type FlacBlock = (u8, Seq<u8>, Option<FlacPicture>);

/// The metadata blocks of a FLAC tag, in the order `metaflac::Tag::blocks`
/// yields them.
pub uninterp spec fn flac_blocks(tag: metaflac::Tag) -> Seq<FlacBlock>;

/// The pictures held by `blocks`, in order.
pub open spec fn pictures_in(blocks: Seq<FlacBlock>) -> Seq<FlacPicture>
    decreases blocks.len(),
{
    if blocks.len() == 0 {
        seq![]
    } else {
        match blocks.last().2 {
            Some(p) => pictures_in(blocks.drop_last()).push(p),
            None => pictures_in(blocks.drop_last()),
        }
    }
}

/// The blocks of `blocks` that are not pictures, in order, each as its
/// block-type code and the encoded bytes of its contents.
pub open spec fn other_blocks_in(blocks: Seq<FlacBlock>) -> Seq<(u8, Seq<u8>)>
    decreases blocks.len(),
{
    if blocks.len() == 0 {
        seq![]
    } else if blocks.last().2 is Some {
        other_blocks_in(blocks.drop_last())
    } else {
        other_blocks_in(blocks.drop_last()).push((blocks.last().0, blocks.last().1))
    }
}

/// The pictures of a FLAC tag, in the order of its picture blocks: what
/// `metaflac::Tag::pictures` yields.
pub open spec fn flac_pictures(tag: metaflac::Tag) -> Seq<FlacPicture> {
    pictures_in(flac_blocks(tag))
}

/// The blocks of a FLAC tag that are not pictures, in order.
pub open spec fn flac_other_blocks(tag: metaflac::Tag) -> Seq<(u8, Seq<u8>)> {
    other_blocks_in(flac_blocks(tag))
}

/// The block holds a front cover (a picture of type code 3).
pub open spec fn is_front_cover_block(b: FlacBlock) -> bool {
    b.2 matches Some(p) && p.0 == 3
}

/// `blocks` without its front-cover picture blocks, the others kept in
/// order.
pub open spec fn without_front_cover_blocks(blocks: Seq<FlacBlock>) -> Seq<FlacBlock>
    decreases blocks.len(),
{
    if blocks.len() == 0 {
        blocks
    } else if is_front_cover_block(blocks.last()) {
        without_front_cover_blocks(blocks.drop_last())
    } else {
        without_front_cover_blocks(blocks.drop_last()).push(blocks.last())
    }
}

/// The picture block that a new front cover of MIME type `mime` and image
/// `data` makes, with an empty description.
pub open spec fn front_cover_block(mime: Seq<char>, data: Seq<u8>) -> FlacBlock {
    (6u8, Seq::empty(), Some((3u8, mime, Seq::empty(), data)))
}

/// The pictures of `pics` that are not front covers (type code 3).
pub open spec fn without_front_covers(pics: Seq<FlacPicture>) -> Seq<FlacPicture> {
    pics.filter(|p: FlacPicture| p.0 != 3)
}

/// The first picture that `metaflac::Tag::pictures` yields, as its image
/// data and MIME type; `None` when the tag holds no picture.
#[verifier::external_body]
fn flac_first_picture(tag: &metaflac::Tag) -> (r: Option<(Vec<u8>, String)>)
    ensures
        r is None <==> flac_pictures(*tag).len() == 0,
        r matches Some((data, mime)) ==> data@ == flac_pictures(*tag)[0].3 && mime@
            == flac_pictures(*tag)[0].1,
{
    tag.pictures().next().map(|p| (p.data.clone(), p.mime_type.clone()))
}

/// Removes every front-cover picture block with
/// `metaflac::Tag::remove_picture_type`; the other blocks, pictures or
/// not, are kept in their order.
#[verifier::external_body]
fn flac_remove_front_covers(tag: &mut metaflac::Tag)
    ensures
        flac_blocks(*final(tag)) == without_front_cover_blocks(flac_blocks(*old(tag))),
{
    tag.remove_picture_type(metaflac::block::PictureType::CoverFront);
}

/// Adds a front-cover picture block with `metaflac::Tag::add_picture`,
/// which first removes every front-cover picture block (keeping the other
/// blocks in their order) and then appends the new one through
/// `push_block`, with an empty description.
#[verifier::external_body]
fn flac_add_front_cover(tag: &mut metaflac::Tag, mime_type: String, data: Vec<u8>)
    ensures
        flac_blocks(*final(tag)) == without_front_cover_blocks(flac_blocks(*old(tag))).push(
            front_cover_block(mime_type@, data@),
        ),
{
    tag.add_picture(mime_type, metaflac::block::PictureType::CoverFront, data);
}

/// Extracts the artwork of a FLAC file from its metadata: the first
/// picture, as image data and MIME type.
pub fn extract_flac_artwork(tag: &metaflac::Tag) -> (r: Result<(Vec<u8>, String), ArtworkError>)
    ensures
        flac_pictures(*tag).len() == 0 ==> r matches Err(
            ArtworkError::NoArtwork(AudioFormat::Flac),
        ),
        flac_pictures(*tag).len() > 0 ==> (r matches Ok((data, mime)) && data@ == flac_pictures(
            *tag,
        )[0].3 && mime@ == flac_pictures(*tag)[0].1),
{
    match flac_first_picture(tag) {
        Some(picture) => Ok(picture),
        None => Err(ArtworkError::NoArtwork(AudioFormat::Flac)),
    }
}

/// Dropping the front-cover blocks twice drops no more than once.
pub proof fn lemma_without_front_cover_blocks_idempotent(blocks: Seq<FlacBlock>)
    ensures
        without_front_cover_blocks(without_front_cover_blocks(blocks))
            == without_front_cover_blocks(blocks),
    decreases blocks.len(),
{
    if blocks.len() > 0 {
        lemma_without_front_cover_blocks_idempotent(blocks.drop_last());
        let rest = without_front_cover_blocks(blocks.drop_last());
        if !is_front_cover_block(blocks.last()) {
            assert(rest.push(blocks.last()).drop_last() =~= rest);
        }
    }
}

/// Dropping the front-cover blocks drops the front covers among the
/// pictures and keeps the blocks that are not pictures.
pub proof fn lemma_without_front_cover_blocks_contents(blocks: Seq<FlacBlock>)
    ensures
        pictures_in(without_front_cover_blocks(blocks)) == without_front_covers(
            pictures_in(blocks),
        ),
        other_blocks_in(without_front_cover_blocks(blocks)) == other_blocks_in(blocks),
    decreases blocks.len(),
{
    reveal(Seq::filter);
    if blocks.len() > 0 {
        let b = blocks.last();
        let rest = without_front_cover_blocks(blocks.drop_last());
        lemma_without_front_cover_blocks_contents(blocks.drop_last());
        if !is_front_cover_block(b) {
            assert(rest.push(b).drop_last() =~= rest);
        }
        if let Some(p) = b.2 {
            assert(pictures_in(blocks) == pictures_in(blocks.drop_last()).push(p));
            assert(pictures_in(blocks).drop_last() =~= pictures_in(blocks.drop_last()));
        } else {
            assert(pictures_in(blocks) == pictures_in(blocks.drop_last()));
        }
    }
}

/// Appending a new front-cover block appends its picture, and leaves the
/// blocks that are not pictures as they were.
pub proof fn lemma_front_cover_block_pushed(blocks: Seq<FlacBlock>, mime: Seq<char>, data: Seq<u8>)
    ensures
        pictures_in(blocks.push(front_cover_block(mime, data))) == pictures_in(blocks).push(
            (3u8, mime, Seq::empty(), data),
        ),
        other_blocks_in(blocks.push(front_cover_block(mime, data))) == other_blocks_in(blocks),
{
    assert(blocks.push(front_cover_block(mime, data)).drop_last() =~= blocks);
}

/// Writes `image_data` into the FLAC tag as its only front cover, with the
/// MIME type that `mime_guess` tells by `image_path`: every front-cover
/// block is removed, the other blocks (pictures or not) are kept in order,
/// and the new picture block comes last. So the other pictures keep their
/// order with the new one after them, and the blocks that are not pictures
/// are kept as they were.
pub fn write_flac_artwork(tag: &mut metaflac::Tag, image_data: Vec<u8>, image_path: &str)
    ensures
        flac_blocks(*final(tag)) == without_front_cover_blocks(flac_blocks(*old(tag))).push(
            front_cover_block(guessed_mime_type(image_path@), image_data@),
        ),
        flac_pictures(*final(tag)) == without_front_covers(flac_pictures(*old(tag))).push(
            (3u8, guessed_mime_type(image_path@), Seq::empty(), image_data@),
        ),
        flac_other_blocks(*final(tag)) == flac_other_blocks(*old(tag)),
{
    let mime = guess_mime_type(image_path);
    let ghost before = flac_blocks(*tag);
    proof {
        lemma_without_front_cover_blocks_idempotent(before);
        lemma_without_front_cover_blocks_contents(before);
        lemma_front_cover_block_pushed(
            without_front_cover_blocks(before),
            guessed_mime_type(image_path@),
            image_data@,
        );
    }
    flac_remove_front_covers(tag);
    flac_add_front_cover(tag, mime, image_data);
}

} // verus!
