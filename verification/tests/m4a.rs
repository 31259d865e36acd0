use mtag::atom::{read_be32, read_be64, scan_atom, walk_atom, CO64, COVR, DATA, MOOV, STCO, TRAK};
use mtag::chunk_offsets::{
    find_atom_in_data, find_stco_in_atom, nested_search_is_sound, shift_co64_entries,
    shift_stco_entries, update_chunk_offsets,
};
use mtag::error::{ArtworkError, AudioFormat};
use mtag::m4a_read::{cover_data_is_readable, parse_m4a_artwork_manual, sniff_mime};
use mtag::m4a_write::{
    build_covr_atom, cover_insertion_is_sound, insert_covr_into_ilst, m4a_with_cover,
    rebuild_ilst_with_cover, rebuild_m4a_with_size_diff, rebuild_udta_with_meta,
    write_m4a_artwork,
};

fn atom(name: &[u8; 4], payload: &[u8]) -> Vec<u8> {
    let mut v = Vec::new();
    v.extend_from_slice(&((payload.len() + 8) as u32).to_be_bytes());
    v.extend_from_slice(name);
    v.extend_from_slice(payload);
    v
}

fn data_atom(code: u32, image: &[u8]) -> Vec<u8> {
    let mut payload = Vec::new();
    payload.extend_from_slice(&0u32.to_be_bytes());
    payload.extend_from_slice(&code.to_be_bytes());
    payload.extend_from_slice(image);
    atom(b"data", &payload)
}

const PNG: [u8; 6] = [0x89, 0x50, 0x4e, 0x47, 0x0d, 0x0a];
const JPEG: [u8; 5] = [0xff, 0xd8, 0xff, 0xe0, 0x00];

fn sample_file() -> Vec<u8> {
    let mut f = atom(b"ftyp", b"M4A \x00\x00\x00\x00");
    let mvhd = atom(b"mvhd", &[1, 2, 3, 4]);
    f.extend(atom(b"moov", &mvhd));
    f.extend(atom(b"mdat", &[9, 9, 9]));
    f
}

fn expected_udta(covr: &[u8]) -> Vec<u8> {
    let ilst = atom(b"ilst", covr);
    let mut hdlr_payload = Vec::new();
    hdlr_payload.extend_from_slice(&[0, 0, 0, 0, 0, 0, 0, 0]);
    hdlr_payload.extend_from_slice(b"mdir");
    hdlr_payload.extend_from_slice(&[0; 12]);
    hdlr_payload.push(0);
    let hdlr = atom(b"hdlr", &hdlr_payload);
    assert_eq!(hdlr.len(), 33);
    let mut meta_payload = vec![0, 0, 0, 0];
    meta_payload.extend(hdlr);
    meta_payload.extend(ilst);
    let meta = atom(b"meta", &meta_payload);
    atom(b"udta", &meta)
}

#[test]
fn reads_be_fields() {
    let d = [0x12, 0x34, 0x56, 0x78, 0x9a, 0xbc, 0xde, 0xf0, 0x11];
    assert_eq!(read_be32(&d, 0), 0x12345678);
    assert_eq!(read_be32(&d, 5), 0xbcdef011);
    assert_eq!(read_be64(&d, 0), 0x123456789abcdef0);
    assert_eq!(MOOV, u32::from_be_bytes(*b"moov"));
    assert_eq!(COVR, u32::from_be_bytes(*b"covr"));
}

#[test]
fn parses_png_cover() {
    let covr = atom(b"covr", &data_atom(14, &PNG));
    let mut f = sample_file();
    f.extend(covr);
    let (art, mime) = parse_m4a_artwork_manual(&f).unwrap();
    assert_eq!(art, PNG.to_vec());
    assert_eq!(mime, "image/png");
}

#[test]
fn parses_jpeg_cover_at_odd_offset() {
    let mut f = vec![0xaa];
    f.extend(atom(b"covr", &data_atom(13, &JPEG)));
    let (art, mime) = parse_m4a_artwork_manual(&f).unwrap();
    assert_eq!(art, JPEG.to_vec());
    assert_eq!(mime, "image/jpeg");
}

#[test]
fn short_png_signature_counts_as_jpeg() {
    assert_eq!(sniff_mime(&PNG[0..4]), "image/jpeg");
    assert_eq!(sniff_mime(&PNG[0..5]), "image/png");
    assert_eq!(sniff_mime(&[]), "image/jpeg");
}

#[test]
fn missing_cover_is_an_error() {
    let f = sample_file();
    assert!(matches!(
        parse_m4a_artwork_manual(&f),
        Err(ArtworkError::NoArtwork(AudioFormat::M4a))
    ));
    let covr_without_data = atom(b"covr", &atom(b"free", &[0; 4]));
    assert!(matches!(
        parse_m4a_artwork_manual(&covr_without_data),
        Err(ArtworkError::NoArtwork(AudioFormat::M4a))
    ));
}

#[test]
fn short_data_atom_is_not_readable() {
    let covr = atom(b"covr", &atom(b"data", &[0, 0, 0, 0]));
    assert!(!cover_data_is_readable(&covr));
    let good = atom(b"covr", &data_atom(13, &JPEG));
    assert!(cover_data_is_readable(&good));
    assert!(cover_data_is_readable(&sample_file()));
}

#[test]
fn builds_covr_atom_bytes() {
    let covr = build_covr_atom(&PNG, "image/png");
    assert_eq!(covr, atom(b"covr", &data_atom(14, &PNG)));
    let covr = build_covr_atom(&JPEG, "image/jpeg");
    assert_eq!(covr, atom(b"covr", &data_atom(13, &JPEG)));
    assert_eq!(covr.len(), 24 + JPEG.len());
}

#[test]
fn scans_and_walks() {
    let f = sample_file();
    assert_eq!(walk_atom(&f, MOOV), Some((16, 20)));
    assert_eq!(walk_atom(&f, COVR), None);
    assert_eq!(scan_atom(&f, MOOV), Some((16, 20)));
    let mut g = vec![0, 0, 0, 9];
    g.extend(atom(b"covr", &[1]));
    assert_eq!(walk_atom(&g, COVR), None);
    assert_eq!(scan_atom(&g, COVR), Some((4, 9)));
    assert_eq!(scan_atom(&g, DATA), None);
}

#[test]
fn inserts_cover_into_new_udta() {
    let f = sample_file();
    let covr = build_covr_atom(&PNG, "image/png");
    let out = insert_covr_into_ilst(&f, &covr).unwrap();
    let udta = expected_udta(&covr);
    assert_eq!(udta.len(), 61 + covr.len());
    let mut expected = f[0..16].to_vec();
    expected.extend_from_slice(&((20 + udta.len()) as u32).to_be_bytes());
    expected.extend_from_slice(b"moov");
    expected.extend_from_slice(&f[24..36]);
    expected.extend(udta);
    expected.extend_from_slice(&f[36..]);
    assert_eq!(out, expected);
}

#[test]
fn existing_udta_is_not_reused() {
    let mut f = atom(b"ftyp", b"M4A ");
    let old_udta = atom(b"udta", &atom(b"name", b"x"));
    f.extend(atom(b"moov", &old_udta));
    let covr = build_covr_atom(&JPEG, "image/jpeg");
    let out = insert_covr_into_ilst(&f, &covr).unwrap();
    let udta = expected_udta(&covr);
    assert_eq!(out.len(), f.len() + udta.len());
    assert_eq!(&out[16..20], b"moov");
    assert_eq!(&out[20..20 + old_udta.len()], &old_udta[..]);
    assert_eq!(&out[20 + old_udta.len()..], &udta[..]);
}

#[test]
fn missing_moov_is_an_error() {
    let f = atom(b"ftyp", b"M4A ");
    let covr = build_covr_atom(&PNG, "image/png");
    assert!(matches!(insert_covr_into_ilst(&f, &covr), Err(ArtworkError::MoovNotFound)));
    assert!(matches!(m4a_with_cover(&f, &PNG, "image/png"), Some(Err(ArtworkError::MoovNotFound))));
}

#[test]
fn written_cover_reads_back() {
    let f = sample_file();
    let out = m4a_with_cover(&f, &PNG, "image/png").unwrap().unwrap();
    let (art, mime) = parse_m4a_artwork_manual(&out).unwrap();
    assert_eq!(art, PNG.to_vec());
    assert_eq!(mime, "image/png");
}

#[test]
fn write_guesses_mime_from_image_path() {
    let f = sample_file();
    let out = write_m4a_artwork(&f, &JPEG, "Cover.PNG").unwrap().unwrap();
    let covr = atom(b"covr", &data_atom(14, &JPEG));
    assert!(out.windows(covr.len()).any(|w| w == &covr[..]));
    let out = write_m4a_artwork(&f, &JPEG, "cover.jpg").unwrap().unwrap();
    let covr = atom(b"covr", &data_atom(13, &JPEG));
    assert!(out.windows(covr.len()).any(|w| w == &covr[..]));
    let (art, mime) = parse_m4a_artwork_manual(&out).unwrap();
    assert_eq!(art, JPEG.to_vec());
    assert_eq!(mime, "image/jpeg");
}

fn file_with_tables() -> Vec<u8> {
    let mut stco_payload = vec![0, 0, 0, 0, 0, 0, 0, 2];
    stco_payload.extend_from_slice(&100u32.to_be_bytes());
    stco_payload.extend_from_slice(&200u32.to_be_bytes());
    let stco = atom(b"stco", &stco_payload);
    let stbl = atom(b"stbl", &stco);
    let minf = atom(b"minf", &stbl);
    let mdia = atom(b"mdia", &minf);
    let trak = atom(b"trak", &mdia);
    let mut f = atom(b"ftyp", b"M4A ");
    f.extend(atom(b"moov", &trak));
    f
}

#[test]
fn chunk_offset_pass_leaves_file_as_is() {
    let f = file_with_tables();
    let mut g = f.clone();
    update_chunk_offsets(&mut g, 1000);
    assert_eq!(g, f);
    let mut h = f.clone();
    update_chunk_offsets(&mut h, -7);
    assert_eq!(h, f);
}

#[test]
fn finds_tables_and_moov() {
    let f = file_with_tables();
    assert_eq!(find_atom_in_data(&f, MOOV), Some((12, f.len() - 12)));
    let trak_start = 20;
    let stco_at = find_stco_in_atom(&f[trak_start..]).unwrap();
    assert_eq!(read_be32(&f, trak_start + stco_at.0 + 4), STCO);
    assert_eq!(stco_at.1, 24);
    assert_eq!(find_stco_in_atom(&f[12..]), None);
    // The search inside a container leaves out its last 8 bytes, so a
    // `trak` that fills the whole `moov` payload is not seen ...
    assert_eq!(find_atom_in_data(&f, TRAK), None);
    // ... while one followed by 8 more bytes is.
    let trak = f[20..].to_vec();
    let mut payload = trak.clone();
    payload.extend(atom(b"free", &[]));
    let mut g = atom(b"ftyp", b"M4A ");
    g.extend(atom(b"moov", &payload));
    assert_eq!(find_atom_in_data(&g, TRAK), Some((20, trak.len())));
}

#[test]
fn shifts_stco_entries() {
    let mut payload = vec![0, 0, 0, 0, 0, 0, 0, 3];
    payload.extend_from_slice(&100u32.to_be_bytes());
    payload.extend_from_slice(&0xffff_fff0u32.to_be_bytes());
    payload.extend_from_slice(&[1, 2]);
    let mut t = atom(b"stco", &payload);
    shift_stco_entries(&mut t, 0, 0x20);
    assert_eq!(read_be32(&t, 16), 0x84);
    assert_eq!(read_be32(&t, 20), 0x10);
    assert_eq!(&t[24..], &[1, 2]);
    shift_stco_entries(&mut t, 0, -4);
    assert_eq!(read_be32(&t, 16), 0x80);
    assert_eq!(read_be32(&t, 20), 0x0c);
}

#[test]
fn shifts_co64_entries() {
    let mut payload = vec![0, 0, 0, 0, 0, 0, 0, 2];
    payload.extend_from_slice(&5u64.to_be_bytes());
    payload.extend_from_slice(&u64::MAX.to_be_bytes());
    let mut t = atom(b"co64", &payload);
    shift_co64_entries(&mut t, 0, 3);
    assert_eq!(read_be64(&t, 16), 8);
    assert_eq!(read_be64(&t, 24), 2);
    assert_eq!(read_be32(&t, 4), CO64);
}

#[test]
fn short_container_makes_the_search_unsound() {
    let mut f = atom(b"trak", &[0, 0, 0, 0]);
    f.extend(atom(b"moov", &[]));
    assert!(!nested_search_is_sound(&f, MOOV));
    assert!(nested_search_is_sound(&file_with_tables(), MOOV));
    let covr = build_covr_atom(&PNG, "image/png");
    assert!(!cover_insertion_is_sound(&f, &covr));
    assert!(m4a_with_cover(&f, &PNG, "image/png").is_none());
}

#[test]
fn rebuilds_ilst_without_old_covers() {
    let name = atom(b"\xa9nam", b"title");
    let old = atom(b"covr", &data_atom(13, &JPEG));
    let mut payload = name.clone();
    payload.extend(old);
    let ilst = atom(b"ilst", &payload);
    let covr = build_covr_atom(&PNG, "image/png");
    let mut body = name.clone();
    body.extend(covr.clone());
    assert_eq!(rebuild_ilst_with_cover(&ilst, &covr), atom(b"ilst", &body));
}

#[test]
fn rebuilds_udta_with_meta() {
    let child = atom(b"name", b"abc");
    let udta = atom(b"udta", &child);
    let meta = atom(b"meta", &[0, 0, 0, 0]);
    let mut body = child.clone();
    body.extend(meta.clone());
    assert_eq!(rebuild_udta_with_meta(&udta, &meta), atom(b"udta", &body));
}

#[test]
fn rebuilds_moov_around_replacement() {
    let a = atom(b"aaaa", &[1]);
    let b = atom(b"bbbb", &[2, 2]);
    let c = atom(b"cccc", &[3]);
    let mut content = a.clone();
    content.extend(b.clone());
    content.extend(c.clone());
    let mut f = atom(b"ftyp", &[]);
    f.extend(atom(b"moov", &content));
    f.extend(atom(b"mdat", &[7]));
    let replacement = atom(b"bbbb", &[5, 5, 5, 5]);
    let diff = replacement.len() as i64 - b.len() as i64;
    let out = rebuild_m4a_with_size_diff(&f, 8, 8 + content.len(), 8 + a.len(), &replacement, diff);
    let mut new_content = a.clone();
    new_content.extend(replacement);
    new_content.extend(c);
    let mut expected = atom(b"ftyp", &[]);
    expected.extend(atom(b"moov", &new_content));
    expected.extend(atom(b"mdat", &[7]));
    assert_eq!(out, expected);
}

#[test]
fn earlier_cover_is_read_before_a_written_one() {
    let old = atom(b"covr", &data_atom(13, &JPEG));
    let ilst = atom(b"ilst", &old);
    let mut f = atom(b"ftyp", b"M4A ");
    f.extend(atom(b"moov", &atom(b"udta", &atom(b"meta", &ilst))));
    let out = m4a_with_cover(&f, &PNG, "image/png").unwrap().unwrap();
    let (art, mime) = parse_m4a_artwork_manual(&out).unwrap();
    assert_eq!(art, JPEG.to_vec());
    assert_eq!(mime, "image/jpeg");
}

#[test]
fn written_file_can_be_written_again() {
    let f = sample_file();
    let once = m4a_with_cover(&f, &PNG, "image/png").unwrap().unwrap();
    let grow = 24 + PNG.len() + 61;
    assert_eq!(walk_atom(&once, MOOV), Some((16, 20 + grow)));
    let twice = m4a_with_cover(&once, &JPEG, "image/jpeg").unwrap().unwrap();
    let grow2 = 24 + JPEG.len() + 61;
    assert_eq!(walk_atom(&twice, MOOV), Some((16, 20 + grow + grow2)));
    assert_eq!(twice.len(), f.len() + grow + grow2);
    let (art, _) = parse_m4a_artwork_manual(&twice).unwrap();
    assert_eq!(art, PNG.to_vec());
}

#[test]
fn written_atoms_are_sized_by_their_extent() {
    let f = sample_file();
    let out = m4a_with_cover(&f, &JPEG, "image/jpeg").unwrap().unwrap();
    let (ms, msz) = walk_atom(&out, MOOV).unwrap();
    assert_eq!((ms, msz), (16, 20 + JPEG.len() + 85));
    let e = ms + 20;
    let n = JPEG.len() as u32;
    let expect: [(usize, &[u8; 4], u32); 6] = [
        (0, b"udta", n + 85),
        (8, b"meta", n + 77),
        (20, b"hdlr", 33),
        (53, b"ilst", n + 32),
        (61, b"covr", n + 24),
        (69, b"data", n + 16),
    ];
    for (at, name, size) in expect {
        assert_eq!(read_be32(&out, e + at), size);
        assert_eq!(&out[e + at + 4..e + at + 8], &name[..]);
    }
    assert_eq!(e + (n as usize) + 85, ms + msz);
}

fn stco_table() -> Vec<u8> {
    let mut payload = vec![0, 0, 0, 0, 0, 0, 0, 3];
    payload.extend_from_slice(&100u32.to_be_bytes());
    payload.extend_from_slice(&0xffff_fff0u32.to_be_bytes());
    payload.extend_from_slice(&[1, 2]);
    atom(b"stco", &payload)
}

fn co64_table() -> Vec<u8> {
    let mut payload = vec![0, 0, 0, 0, 0, 0, 0, 2];
    payload.extend_from_slice(&5u64.to_be_bytes());
    payload.extend_from_slice(&u64::MAX.to_be_bytes());
    atom(b"co64", &payload)
}

#[test]
fn stco_shift_back_and_compose() {
    let t0 = stco_table();
    let mut t = t0.clone();
    shift_stco_entries(&mut t, 0, 0);
    assert_eq!(t, t0);
    shift_stco_entries(&mut t, 0, 0x20);
    shift_stco_entries(&mut t, 0, -0x20);
    assert_eq!(t, t0);
    let mut two = t0.clone();
    shift_stco_entries(&mut two, 0, 7);
    shift_stco_entries(&mut two, 0, 9);
    let mut one = t0.clone();
    shift_stco_entries(&mut one, 0, 16);
    assert_eq!(two, one);
    assert_eq!(read_be32(&one, 20), 0);
}

#[test]
fn co64_shift_back_and_compose() {
    let t0 = co64_table();
    let mut t = t0.clone();
    shift_co64_entries(&mut t, 0, 0);
    assert_eq!(t, t0);
    shift_co64_entries(&mut t, 0, 3);
    shift_co64_entries(&mut t, 0, -3);
    assert_eq!(t, t0);
    let mut two = t0.clone();
    shift_co64_entries(&mut two, 0, 2);
    shift_co64_entries(&mut two, 0, 5);
    let mut one = t0.clone();
    shift_co64_entries(&mut one, 0, 7);
    assert_eq!(two, one);
    assert_eq!(read_be64(&one, 16), 12);
}

#[test]
fn any_cover_atom_is_placed_sized_and_read_back() {
    let f = sample_file();
    let covr = atom(b"covr", &data_atom(21, &JPEG));
    let out = insert_covr_into_ilst(&f, &covr).unwrap();
    let (ms, msz) = walk_atom(&out, MOOV).unwrap();
    let e = ms + 20;
    assert_eq!(read_be32(&out, e + 53), covr.len() as u32 + 8);
    assert_eq!(&out[e + 57..e + 61], b"ilst");
    assert_eq!(&out[e + 61..e + 61 + covr.len()], &covr[..]);
    assert_eq!(e + 61 + covr.len(), ms + msz);
    let (art, mime) = parse_m4a_artwork_manual(&out).unwrap();
    assert_eq!(art, JPEG.to_vec());
    assert_eq!(mime, "image/jpeg");
    let other = atom(b"name", b"xyz");
    let out = insert_covr_into_ilst(&f, &other).unwrap();
    assert_eq!(&out[e + 61..e + 61 + other.len()], &other[..]);
    assert_eq!(read_be32(&out, e), other.len() as u32 + 61);
}
