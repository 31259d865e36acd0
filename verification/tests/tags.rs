use id3::TagLike;
use mtag::error::{ArtworkError, AudioFormat};
use mtag::flac::{extract_flac_artwork, write_flac_artwork};
use mtag::mp3::{extract_mp3_artwork, write_mp3_artwork};

#[test]
fn mp3_without_pictures_has_no_artwork() {
    let tag = id3::Tag::new();
    assert!(matches!(extract_mp3_artwork(&tag), Err(ArtworkError::NoArtwork(AudioFormat::Mp3))));
}

#[test]
fn mp3_cover_reads_back_and_replaces() {
    let mut tag = id3::Tag::new();
    write_mp3_artwork(&mut tag, vec![1, 2, 3], "front.png");
    let (data, mime) = extract_mp3_artwork(&tag).unwrap();
    assert_eq!(data, vec![1, 2, 3]);
    assert_eq!(mime, "image/png");
    write_mp3_artwork(&mut tag, vec![4, 5], "front.jpg");
    assert_eq!(tag.pictures().count(), 1);
    let (data, mime) = extract_mp3_artwork(&tag).unwrap();
    assert_eq!(data, vec![4, 5]);
    assert_eq!(mime, "image/jpeg");
    let p = tag.pictures().next().unwrap();
    assert_eq!(p.picture_type, id3::frame::PictureType::CoverFront);
    assert_eq!(p.description, "");
}

#[test]
fn mp3_unknown_image_type_is_octet_stream() {
    let mut tag = id3::Tag::new();
    write_mp3_artwork(&mut tag, vec![7], "picture");
    let (_, mime) = extract_mp3_artwork(&tag).unwrap();
    assert_eq!(mime, "application/octet-stream");
}

#[test]
fn flac_without_pictures_has_no_artwork() {
    let tag = metaflac::Tag::new();
    assert!(matches!(extract_flac_artwork(&tag), Err(ArtworkError::NoArtwork(AudioFormat::Flac))));
}

#[test]
fn flac_cover_replaces_front_covers_only() {
    let mut tag = metaflac::Tag::new();
    tag.add_picture("image/gif", metaflac::block::PictureType::Other, vec![9]);
    tag.add_picture("image/gif", metaflac::block::PictureType::CoverFront, vec![8]);
    write_flac_artwork(&mut tag, vec![1, 2], "art.png");
    let pics: Vec<_> = tag.pictures().collect();
    assert_eq!(pics.len(), 2);
    assert_eq!(pics[0].data, vec![9]);
    assert_eq!(pics[1].data, vec![1, 2]);
    assert_eq!(pics[1].mime_type, "image/png");
    assert_eq!(pics[1].picture_type, metaflac::block::PictureType::CoverFront);
    let (data, mime) = extract_flac_artwork(&tag).unwrap();
    assert_eq!(data, vec![9]);
    assert_eq!(mime, "image/gif");
}

#[test]
fn flac_cover_reads_back() {
    let mut tag = metaflac::Tag::new();
    write_flac_artwork(&mut tag, vec![3, 4, 5], "art.jpeg");
    let (data, mime) = extract_flac_artwork(&tag).unwrap();
    assert_eq!(data, vec![3, 4, 5]);
    assert_eq!(mime, "image/jpeg");
}

#[test]
fn mp3_cover_write_keeps_other_frames_and_appends_last() {
    let mut tag = id3::Tag::new();
    tag.set_title("Song");
    tag.add_frame(id3::frame::Picture {
        mime_type: "image/gif".to_string(),
        picture_type: id3::frame::PictureType::CoverBack,
        description: String::new(),
        data: vec![9],
    });
    tag.add_frame(id3::frame::Picture {
        mime_type: "image/gif".to_string(),
        picture_type: id3::frame::PictureType::CoverFront,
        description: "old".to_string(),
        data: vec![8],
    });
    tag.set_artist("Band");
    write_mp3_artwork(&mut tag, vec![1, 2], "new.png");
    let ids: Vec<&str> = tag.frames().map(|f| f.id()).collect();
    assert_eq!(ids, vec!["TIT2", "APIC", "TPE1", "APIC"]);
    assert_eq!(tag.title(), Some("Song"));
    assert_eq!(tag.artist(), Some("Band"));
    let pics: Vec<_> = tag.pictures().collect();
    assert_eq!(pics.len(), 2);
    assert_eq!(pics[0].data, vec![9]);
    assert_eq!(pics[0].picture_type, id3::frame::PictureType::CoverBack);
    assert_eq!(pics[1].data, vec![1, 2]);
    assert_eq!(pics[1].mime_type, "image/png");
    assert_eq!(pics[1].picture_type, id3::frame::PictureType::CoverFront);
}

#[test]
fn flac_cover_write_keeps_other_blocks() {
    let mut tag = metaflac::Tag::new();
    tag.set_vorbis("TITLE", vec!["Song"]);
    tag.push_block(metaflac::Block::Padding(16));
    tag.add_picture("image/gif", metaflac::block::PictureType::CoverFront, vec![8]);
    write_flac_artwork(&mut tag, vec![1, 2], "art.png");
    let kinds: Vec<metaflac::BlockType> = tag.blocks().map(|b| b.block_type()).collect();
    assert_eq!(
        kinds,
        vec![metaflac::BlockType::VorbisComment, metaflac::BlockType::Padding, metaflac::BlockType::Picture]
    );
    assert_eq!(tag.get_vorbis("TITLE").unwrap().collect::<Vec<_>>(), vec!["Song"]);
    assert!(matches!(tag.blocks().nth(1), Some(metaflac::Block::Padding(16))));
    let pics: Vec<_> = tag.pictures().collect();
    assert_eq!(pics.len(), 1);
    assert_eq!(pics[0].data, vec![1, 2]);
}
