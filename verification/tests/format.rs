use mtag::error::{ArtworkError, AudioFormat};
use mtag::format::{artwork_file_extension, artwork_file_name, audio_format, contains_png};

#[test]
fn formats_by_extension() {
    assert_eq!(audio_format(Some("mp3")).unwrap(), AudioFormat::Mp3);
    assert_eq!(audio_format(Some("MP3")).unwrap(), AudioFormat::Mp3);
    assert_eq!(audio_format(Some("m4a")).unwrap(), AudioFormat::M4a);
    assert_eq!(audio_format(Some("Mp4")).unwrap(), AudioFormat::M4a);
    assert_eq!(audio_format(Some("FLAC")).unwrap(), AudioFormat::Flac);
}

#[test]
fn unknown_or_missing_extension_is_an_error() {
    match audio_format(Some("WAV")) {
        Err(ArtworkError::UnsupportedFormat(e)) => assert_eq!(e, "wav"),
        other => panic!("unexpected {:?}", other),
    }
    assert!(matches!(audio_format(None), Err(ArtworkError::NoExtension)));
    match audio_format(Some("")) {
        Err(ArtworkError::UnsupportedFormat(e)) => assert_eq!(e, ""),
        other => panic!("unexpected {:?}", other),
    }
}

#[test]
fn names_extracted_artwork() {
    assert_eq!(artwork_file_extension("image/png"), "png");
    assert_eq!(artwork_file_extension("image/jpeg"), "jpg");
    assert_eq!(artwork_file_extension("application/octet-stream"), "jpg");
    assert_eq!(artwork_file_name("song", "image/png"), "song.png");
    assert_eq!(artwork_file_name("my.song", "image/jpeg"), "my.song.jpg");
    assert!(contains_png("xpng"));
    assert!(!contains_png("pn"));
    assert!(!contains_png("PNG"));
}

#[test]
fn error_messages() {
    assert_eq!(ArtworkError::NoExtension.message(), "Cannot determine file extension");
    assert_eq!(
        ArtworkError::UnsupportedFormat("ogg".to_string()).message(),
        "Unsupported format: ogg"
    );
    assert_eq!(ArtworkError::NoArtwork(AudioFormat::Mp3).message(), "No artwork found in MP3");
    assert_eq!(ArtworkError::NoArtwork(AudioFormat::M4a).message(), "No artwork found in M4A");
    assert_eq!(ArtworkError::NoArtwork(AudioFormat::Flac).message(), "No artwork found in FLAC");
    assert_eq!(ArtworkError::MoovNotFound.message(), "moov atom not found");
}
