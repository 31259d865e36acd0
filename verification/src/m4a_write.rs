//! Writing cover art into an MP4/M4A file: the `covr` item, and the
//! `udta`/`meta`/`ilst` atoms that carry it into the `moov` atom.

use vstd::prelude::*;
use crate::atom::{
    be32_at, be32_bytes, lemma_walk_own_atom, push_be32, read_be32, walk_atom, walk_for_atom,
    whole_atom_at, write_be32, COVR, DATA, HDLR, ILST, MDIR, META, MOOV, UDTA,
};
use crate::chunk_offsets::{nested_search_is_sound, nested_search_sound, update_chunk_offsets};
use crate::format::{contains_png, guess_mime_type, guessed_mime_type, mentions_png};
use crate::error::ArtworkError;

verus! {

/// The type code of a cover's `data` atom: 14 (PNG) when the MIME type
/// mentions `png`, 13 (JPEG) otherwise.
pub open spec fn cover_type_code(mime: Seq<char>) -> u32 {
    if mentions_png(mime) {
        14
    } else {
        13
    }
}

/// The `covr` atom holding `image` with type code `code`: its header, then a
/// `data` atom made of a header, a zero flags word, the type code and the
/// image.
pub open spec fn cover_atom(code: u32, image: Seq<u8>) -> Seq<u8> {
    be32_bytes((24 + image.len()) as u32) + be32_bytes(COVR) + be32_bytes(
        (16 + image.len()) as u32,
    ) + be32_bytes(DATA) + be32_bytes(0) + be32_bytes(code) + image
}

/// The `covr` atom holding `image`, typed by the MIME type `mime`.
pub open spec fn covr_item(image: Seq<u8>, mime: Seq<char>) -> Seq<u8> {
    cover_atom(cover_type_code(mime), image)
}

/// Builds the `covr` atom that carries `image_data`, typed by `mime`.
pub fn build_covr_atom(image_data: &[u8], mime: &str) -> (r: Vec<u8>)
    requires
        image_data@.len() + 24 <= usize::MAX,
    ensures
        r@ == covr_item(image_data@, mime@),
{
    let mime_code: u32 = if contains_png(mime) {
        14
    } else {
        13
    };
    let data_atom_size = 8 + 4 + 4 + image_data.len();
    let mut data_atom: Vec<u8> = Vec::with_capacity(data_atom_size);
    push_be32(&mut data_atom, #[verifier::truncate] (data_atom_size as u32));
    push_be32(&mut data_atom, DATA);
    push_be32(&mut data_atom, 0);
    push_be32(&mut data_atom, mime_code);
    data_atom.extend_from_slice(image_data);
    let covr_size = 8 + data_atom.len();
    let mut covr_atom: Vec<u8> = Vec::with_capacity(covr_size);
    push_be32(&mut covr_atom, #[verifier::truncate] (covr_size as u32));
    push_be32(&mut covr_atom, COVR);
    covr_atom.extend_from_slice(data_atom.as_slice());
    assert(covr_atom@ =~= covr_item(image_data@, mime@));
    covr_atom
}

/// The `hdlr` atom of iTunes-style metadata: version and flags, a zero
/// pre-defined word, handler type `mdir`, three reserved words and an empty
/// name.
pub open spec fn hdlr_atom() -> Seq<u8> {
    be32_bytes(33) + be32_bytes(HDLR) + be32_bytes(0) + be32_bytes(0) + be32_bytes(MDIR)
        + be32_bytes(0) + be32_bytes(0) + be32_bytes(0) + seq![0u8]
}

/// An `ilst` atom holding `covr`.
pub open spec fn ilst_atom(covr: Seq<u8>) -> Seq<u8> {
    be32_bytes((8 + covr.len()) as u32) + be32_bytes(ILST) + covr
}

/// A `meta` atom (with its version and flags word) holding the handler and
/// an `ilst` atom that holds `covr`.
pub open spec fn meta_atom(covr: Seq<u8>) -> Seq<u8> {
    be32_bytes((12 + hdlr_atom().len() + ilst_atom(covr).len()) as u32) + be32_bytes(META)
        + be32_bytes(0) + hdlr_atom() + ilst_atom(covr)
}

/// A `udta` atom holding a `meta` atom that carries `covr`.
pub open spec fn udta_atom(covr: Seq<u8>) -> Seq<u8> {
    be32_bytes((8 + meta_atom(covr).len()) as u32) + be32_bytes(UDTA) + meta_atom(covr)
}

/// `data` with `child` appended at the end of the payload of the `moov`
/// atom that starts at `ms` with size `msz`, whose size field grows by the
/// child's length (modulo 2^32); everything before and after the `moov`
/// atom is kept.
pub open spec fn moov_with_child(data: Seq<u8>, ms: int, msz: int, child: Seq<u8>) -> Seq<u8> {
    data.subrange(0, ms) + be32_bytes((msz + child.len()) as u32) + be32_bytes(MOOV)
        + data.subrange(ms + 8, ms + msz) + child + data.subrange(ms + msz, data.len() as int)
}

/// `data` with the `moov` atom at `ms` (size `msz`) rebuilt: its size field
/// moved by `diff` (modulo 2^32), and within its payload the bytes from
/// `rel - 8` on, as many as `replace` is long less `diff`, replaced by
/// `replace`.
pub open spec fn moov_with_replaced_child(
    data: Seq<u8>,
    ms: int,
    msz: int,
    rel: int,
    replace: Seq<u8>,
    diff: int,
) -> Seq<u8> {
    let content = data.subrange(ms + 8, ms + msz);
    let rs = rel - 8;
    data.subrange(0, ms) + be32_bytes((msz + diff) as u32) + be32_bytes(MOOV) + content.subrange(
        0,
        rs,
    ) + replace + content.subrange(rs + (replace.len() - diff), content.len() as int)
        + data.subrange(ms + msz, data.len() as int)
}

/// The item atoms of an `ilst` payload from `pos` on, each copied whole,
/// except the `covr` items; the walk ends at the end of `s`, at a size
/// below 8, or at an item that runs past the end.
pub open spec fn ilst_items_kept(s: Seq<u8>, pos: int) -> Seq<u8>
    decreases s.len() - pos,
{
    if pos < 0 || pos >= s.len() || be32_at(s, pos) < 8 || pos + be32_at(s, pos) > s.len() {
        seq![]
    } else if be32_at(s, pos + 4) == COVR {
        ilst_items_kept(s, pos + be32_at(s, pos))
    } else {
        s.subrange(pos, pos + be32_at(s, pos)) + ilst_items_kept(s, pos + be32_at(s, pos))
    }
}

/// The walk of `ilst_items_kept` reads only bytes within `s`: each item it
/// meets has its size and name within `s`, and each item it copies ends
/// within `s`.
pub open spec fn ilst_items_sound(s: Seq<u8>, pos: int) -> bool
    decreases s.len() - pos,
{
    if pos < 0 || pos >= s.len() {
        true
    } else if pos + 4 > s.len() {
        false
    } else if be32_at(s, pos) < 8 {
        true
    } else {
        &&& pos + 8 <= s.len()
        &&& pos + be32_at(s, pos) <= usize::MAX
        &&& (be32_at(s, pos + 4) != COVR ==> pos + be32_at(s, pos) <= s.len())
        &&& (pos + be32_at(s, pos) <= s.len() ==> ilst_items_sound(s, pos + be32_at(s, pos)))
    }
}

/// The `ilst` atom `ilst` with its `covr` items dropped and `covr` appended,
/// its size field set to its new length (modulo 2^32).
pub open spec fn ilst_with_cover(ilst: Seq<u8>, covr: Seq<u8>) -> Seq<u8> {
    let body = ilst_items_kept(ilst, 8) + covr;
    be32_bytes((8 + body.len()) as u32) + ilst.subrange(4, 8) + body
}

/// Rebuilds an `ilst` atom: every item but the `covr` ones is kept, and the
/// given `covr` atom is appended.
pub fn rebuild_ilst_with_cover(ilst_data: &[u8], covr_atom: &[u8]) -> (r: Vec<u8>)
    requires
        ilst_data@.len() >= 8,
        ilst_items_sound(ilst_data@, 8),
    ensures
        r@ == ilst_with_cover(ilst_data@, covr_atom@),
{
    let ghost s = ilst_data@;
    let ilst_size = ilst_data.len();
    let mut new_ilst_data: Vec<u8> = Vec::new();
    new_ilst_data.extend_from_slice(&ilst_data[0..8]);
    let mut pos: usize = 8;
    assert(new_ilst_data@ =~= s.subrange(0, 8));
    while pos < ilst_size
        invariant
            ilst_size == s.len(),
            s == ilst_data@,
            ilst_items_sound(s, pos as int),
            s.subrange(0, 8) + ilst_items_kept(s, 8) == new_ilst_data@ + ilst_items_kept(
                s,
                pos as int,
            ),
        ensures
            s.subrange(0, 8) + ilst_items_kept(s, 8) == new_ilst_data@,
        decreases usize::MAX - pos,
    {
        let size = read_be32(ilst_data, pos) as usize;
        if size < 8 {
            assert(ilst_items_kept(s, pos as int) =~= seq![]);
            assert(new_ilst_data@ + ilst_items_kept(s, pos as int) =~= new_ilst_data@);
            break;
        }
        let ghost before = new_ilst_data@;
        if read_be32(ilst_data, pos + 4) != COVR {
            new_ilst_data.extend_from_slice(&ilst_data[pos..pos + size]);
            assert(before + ilst_items_kept(s, pos as int) =~= new_ilst_data@ + ilst_items_kept(
                s,
                pos + size,
            ));
        }
        pos = pos + size;
    }
    if pos >= ilst_size {
        assert(new_ilst_data@ + ilst_items_kept(s, pos as int) =~= new_ilst_data@);
    }
    new_ilst_data.extend_from_slice(covr_atom);
    let new_ilst_size = #[verifier::truncate] (new_ilst_data.len() as u32);
    write_be32(&mut new_ilst_data, 0, new_ilst_size);
    assert(new_ilst_data@ =~= ilst_with_cover(s, covr_atom@));
    new_ilst_data
}

/// The child atoms of a `udta` payload from `pos` on, each copied whole;
/// the walk ends at the end of `s`, at a size below 8, or at a child that
/// runs past the end.
pub open spec fn udta_children(s: Seq<u8>, pos: int) -> Seq<u8>
    decreases s.len() - pos,
{
    if pos < 0 || pos >= s.len() || be32_at(s, pos) < 8 || pos + be32_at(s, pos) > s.len() {
        seq![]
    } else {
        s.subrange(pos, pos + be32_at(s, pos)) + udta_children(s, pos + be32_at(s, pos))
    }
}

/// The walk of `udta_children` reads only bytes within `s`: each child it
/// meets has its size within `s` and ends within `s`.
pub open spec fn udta_children_sound(s: Seq<u8>, pos: int) -> bool
    decreases s.len() - pos,
{
    if pos < 0 || pos >= s.len() {
        true
    } else if pos + 4 > s.len() {
        false
    } else if be32_at(s, pos) < 8 {
        true
    } else {
        pos + be32_at(s, pos) <= s.len() && udta_children_sound(s, pos + be32_at(s, pos))
    }
}

/// The `udta` atom `udta` with `meta` appended after its children, its size
/// field set to its new length (modulo 2^32).
pub open spec fn udta_with_meta(udta: Seq<u8>, meta: Seq<u8>) -> Seq<u8> {
    let body = udta_children(udta, 8) + meta;
    be32_bytes((8 + body.len()) as u32) + udta.subrange(4, 8) + body
}

/// Rebuilds a `udta` atom with the given `meta` atom appended after its
/// children.
pub fn rebuild_udta_with_meta(udta_data: &[u8], meta: &[u8]) -> (r: Vec<u8>)
    requires
        udta_data@.len() >= 8,
        udta_children_sound(udta_data@, 8),
    ensures
        r@ == udta_with_meta(udta_data@, meta@),
{
    let ghost s = udta_data@;
    let udta_size = udta_data.len();
    let mut new_udta: Vec<u8> = Vec::new();
    new_udta.extend_from_slice(&udta_data[0..8]);
    let mut pos: usize = 8;
    assert(new_udta@ =~= s.subrange(0, 8));
    while pos < udta_size
        invariant
            udta_size == s.len(),
            s == udta_data@,
            pos <= udta_size,
            udta_children_sound(s, pos as int),
            s.subrange(0, 8) + udta_children(s, 8) == new_udta@ + udta_children(s, pos as int),
        ensures
            s.subrange(0, 8) + udta_children(s, 8) == new_udta@,
        decreases udta_size - pos,
    {
        let size = read_be32(udta_data, pos) as usize;
        if size < 8 {
            assert(new_udta@ + udta_children(s, pos as int) =~= new_udta@);
            break;
        }
        let ghost before = new_udta@;
        new_udta.extend_from_slice(&udta_data[pos..pos + size]);
        assert(before + udta_children(s, pos as int) =~= new_udta@ + udta_children(s, pos + size));
        pos = pos + size;
    }
    if pos >= udta_size {
        assert(new_udta@ + udta_children(s, pos as int) =~= new_udta@);
    }
    new_udta.extend_from_slice(meta);
    let new_udta_size = #[verifier::truncate] (new_udta.len() as u32);
    write_be32(&mut new_udta, 0, new_udta_size);
    assert(new_udta@ =~= udta_with_meta(s, meta@));
    new_udta
}

/// Rebuilds the file with the `moov` atom at `moov_start` resized by
/// `size_diff`, and, within its payload, `replace_data` in place of the
/// bytes from `replace_rel_start - 8` on, as many as `replace_data` is long
/// less `size_diff`; then runs `update_chunk_offsets` over the result.
pub fn rebuild_m4a_with_size_diff(
    data: &[u8],
    moov_start: usize,
    moov_size: usize,
    replace_rel_start: usize,
    replace_data: &[u8],
    size_diff: i64,
) -> (r: Vec<u8>)
    requires
        moov_start + moov_size <= data@.len(),
        8 <= moov_size <= i64::MAX,
        8 <= replace_rel_start <= moov_size,
        data@.len() <= i64::MAX,
        0 <= data@.len() + size_diff <= isize::MAX,
        i64::MIN <= moov_size + size_diff <= i64::MAX,
        replace_data@.len() <= i64::MAX,
        0 <= replace_data@.len() - size_diff <= i64::MAX,
        replace_rel_start + (replace_data@.len() - size_diff) <= moov_size,
        nested_search_sound(
            moov_with_replaced_child(
                data@,
                moov_start as int,
                moov_size as int,
                replace_rel_start as int,
                replace_data@,
                size_diff as int,
            ),
            MOOV,
            0,
        ),
    ensures
        r@ == moov_with_replaced_child(
            data@,
            moov_start as int,
            moov_size as int,
            replace_rel_start as int,
            replace_data@,
            size_diff as int,
        ),
{
    let mut new_data: Vec<u8> = Vec::with_capacity((data.len() as i64 + size_diff) as usize);
    new_data.extend_from_slice(&data[0..moov_start]);
    let new_moov_size = #[verifier::truncate] ((moov_size as i64 + size_diff) as u32);
    push_be32(&mut new_data, new_moov_size);
    push_be32(&mut new_data, MOOV);
    let moov_data = &data[moov_start + 8..moov_start + moov_size];
    let replace_start = replace_rel_start - 8;
    new_data.extend_from_slice(&moov_data[0..replace_start]);
    new_data.extend_from_slice(replace_data);
    let resume = replace_start + (replace_data.len() as i64 - size_diff) as usize;
    new_data.extend_from_slice(&moov_data[resume..moov_data.len()]);
    new_data.extend_from_slice(&data[moov_start + moov_size..data.len()]);
    assert(new_data@ =~= moov_with_replaced_child(
        data@,
        moov_start as int,
        moov_size as int,
        replace_rel_start as int,
        replace_data@,
        size_diff as int,
    ));
    update_chunk_offsets(&mut new_data, size_diff);
    new_data
}

/// Builds the `meta` atom that carries `covr_atom`: the handler, then an
/// `ilst` atom holding the cover.
pub fn build_meta_atom(covr_atom: &[u8]) -> (r: Vec<u8>)
    requires
        covr_atom@.len() + 53 <= usize::MAX,
    ensures
        r@ == meta_atom(covr_atom@),
{
    let ilst_size = 8 + covr_atom.len();
    let mut ilst: Vec<u8> = Vec::with_capacity(ilst_size);
    push_be32(&mut ilst, #[verifier::truncate] (ilst_size as u32));
    push_be32(&mut ilst, ILST);
    ilst.extend_from_slice(covr_atom);
    assert(ilst@ =~= ilst_atom(covr_atom@));

    let hdlr_size: u32 = 33;
    let mut hdlr: Vec<u8> = Vec::with_capacity(hdlr_size as usize);
    push_be32(&mut hdlr, hdlr_size);
    push_be32(&mut hdlr, HDLR);
    push_be32(&mut hdlr, 0);
    push_be32(&mut hdlr, 0);
    push_be32(&mut hdlr, MDIR);
    push_be32(&mut hdlr, 0);
    push_be32(&mut hdlr, 0);
    push_be32(&mut hdlr, 0);
    hdlr.push(0u8);
    assert(hdlr@ =~= hdlr_atom());

    let meta_content_size = hdlr.len() + ilst.len();
    let meta_size = 12 + meta_content_size;
    let mut meta: Vec<u8> = Vec::with_capacity(meta_size);
    push_be32(&mut meta, #[verifier::truncate] (meta_size as u32));
    push_be32(&mut meta, META);
    push_be32(&mut meta, 0);
    meta.extend_from_slice(hdlr.as_slice());
    meta.extend_from_slice(ilst.as_slice());
    assert(meta@ =~= meta_atom(covr_atom@));
    meta
}

/// Builds the `udta` atom that holds `meta`.
pub fn build_udta_atom(meta: &[u8]) -> (r: Vec<u8>)
    requires
        meta@.len() + 8 <= usize::MAX,
    ensures
        r@ == be32_bytes((8 + meta@.len()) as u32) + be32_bytes(UDTA) + meta@,
{
    let udta_size = 8 + meta.len();
    let mut udta: Vec<u8> = Vec::with_capacity(udta_size);
    push_be32(&mut udta, #[verifier::truncate] (udta_size as u32));
    push_be32(&mut udta, UDTA);
    udta.extend_from_slice(meta);
    assert(udta@ =~= be32_bytes((8 + meta@.len()) as u32) + be32_bytes(UDTA) + meta@);
    udta
}

/// Copies the file with `child` appended at the end of the payload of the
/// `moov` atom at `moov_start`, whose size field grows by the child's
/// length (modulo 2^32).
pub fn append_to_moov(data: &[u8], moov_start: usize, moov_size: usize, child: &[u8]) -> (r: Vec<
    u8,
>)
    requires
        moov_start + moov_size <= data@.len(),
        8 <= moov_size,
        data@.len() + child@.len() <= usize::MAX,
        child@.len() <= i64::MAX,
    ensures
        r@ == moov_with_child(data@, moov_start as int, moov_size as int, child@),
{
    let size_diff = child.len() as i64;
    let new_moov_size = #[verifier::truncate] ((moov_size as u64 + size_diff as u64) as u32);
    let mut new_data: Vec<u8> = Vec::with_capacity(data.len() + size_diff as usize);
    new_data.extend_from_slice(&data[0..moov_start]);
    push_be32(&mut new_data, new_moov_size);
    push_be32(&mut new_data, MOOV);
    new_data.extend_from_slice(&data[moov_start + 8..moov_start + moov_size]);
    new_data.extend_from_slice(child);
    new_data.extend_from_slice(&data[moov_start + moov_size..data.len()]);
    assert(new_data@ =~= moov_with_child(data@, moov_start as int, moov_size as int, child@));
    new_data
}

/// Builds the `udta`/`meta`/`ilst` atoms around `covr_atom` and puts them
/// into the `moov` atom at `moov_start`.
///
/// The search for an existing `udta` atom walks the `moov` atom's bytes from
/// its own header, so it meets only `moov` itself and never finds one: a new
/// `udta` atom is always appended at the end of the `moov` payload.
pub fn create_meta_ilst(data: &[u8], moov_start: usize, moov_size: usize, covr_atom: &[u8]) -> (r:
    Vec<u8>)
    requires
        whole_atom_at(data@, moov_start as int),
        be32_at(data@, moov_start as int) == moov_size,
        be32_at(data@, moov_start + 4) == MOOV,
        data@.len() + covr_atom@.len() + 61 <= usize::MAX,
        covr_atom@.len() + 61 <= i64::MAX,
        nested_search_sound(
            moov_with_child(data@, moov_start as int, moov_size as int, udta_atom(covr_atom@)),
            MOOV,
            0,
        ),
    ensures
        r@ == moov_with_child(data@, moov_start as int, moov_size as int, udta_atom(covr_atom@)),
{
    let meta = build_meta_atom(covr_atom);
    let moov_data = &data[moov_start..moov_start + moov_size];
    proof {
        assert(moov_data@ =~= data@.subrange(moov_start as int, moov_start + moov_size));
        assert(be32_at(moov_data@, 0) == be32_at(data@, moov_start as int));
        assert(be32_at(moov_data@, 4) == be32_at(data@, moov_start + 4));
        lemma_walk_own_atom(moov_data@, MOOV, UDTA);
    }
    if let Some((udta_rel_start, udta_size)) = walk_atom(moov_data, UDTA) {
        let udta_start = moov_start + udta_rel_start;
        let udta_data = &data[udta_start..udta_start + udta_size];
        let new_udta = rebuild_udta_with_meta(udta_data, meta.as_slice());
        let size_diff = new_udta.len() as i64 - udta_size as i64;
        rebuild_m4a_with_size_diff(
            data,
            moov_start,
            moov_size,
            udta_rel_start,
            new_udta.as_slice(),
            size_diff,
        )
    } else {
        let udta = build_udta_atom(meta.as_slice());
        let size_diff = udta.len() as i64;
        let mut new_data = append_to_moov(data, moov_start, moov_size, udta.as_slice());
        update_chunk_offsets(&mut new_data, size_diff);
        new_data
    }
}

/// The file with `covr` written into it: `None` when no `moov` atom stands
/// among the top-level atoms, else the file with a new `udta` atom carrying
/// `covr` appended inside `moov`.
pub open spec fn inserted_cover(data: Seq<u8>, covr: Seq<u8>) -> Option<Seq<u8>> {
    match walk_for_atom(data, MOOV, 0) {
        Some((ms, msz)) => Some(moov_with_child(data, ms, msz, udta_atom(covr))),
        None => None,
    }
}

/// Writes the `covr` atom into the metadata of an MP4/M4A file given as
/// bytes, and gives back the new file.
///
/// The `moov` atom is the first among the top-level atoms. The search for
/// an existing `ilst` atom walks the `moov` atom's bytes from its own header
/// and so never finds one: the cover always goes into new `udta`, `meta`
/// and `ilst` atoms appended at the end of `moov`.
pub fn insert_covr_into_ilst(data: &[u8], covr_atom: &[u8]) -> (r: Result<Vec<u8>, ArtworkError>)
    requires
        data@.len() + covr_atom@.len() + 61 <= usize::MAX,
        covr_atom@.len() + 61 <= i64::MAX,
        inserted_cover(data@, covr_atom@) matches Some(out) ==> nested_search_sound(out, MOOV, 0),
    ensures
        match inserted_cover(data@, covr_atom@) {
            Some(out) => r matches Ok(v) && v@ == out,
            None => r matches Err(ArtworkError::MoovNotFound),
        },
{
    let (moov_start, moov_size) = match walk_atom(data, MOOV) {
        Some(found) => found,
        None => {
            return Err(ArtworkError::MoovNotFound);
        },
    };
    let moov_data = &data[moov_start..moov_start + moov_size];
    proof {
        assert(moov_data@ =~= data@.subrange(moov_start as int, moov_start + moov_size));
        assert(be32_at(moov_data@, 0) == be32_at(data@, moov_start as int));
        assert(be32_at(moov_data@, 4) == be32_at(data@, moov_start + 4));
        lemma_walk_own_atom(moov_data@, MOOV, ILST);
    }
    if let Some((ilst_rel_start, ilst_size)) = walk_atom(moov_data, ILST) {
        let ilst_start = moov_start + ilst_rel_start;
        let ilst_data = &data[ilst_start..ilst_start + ilst_size];
        let new_ilst_data = rebuild_ilst_with_cover(ilst_data, covr_atom);
        let size_diff = new_ilst_data.len() as i64 - ilst_size as i64;
        Ok(
            rebuild_m4a_with_size_diff(
                data,
                moov_start,
                moov_size,
                ilst_rel_start,
                new_ilst_data.as_slice(),
                size_diff,
            ),
        )
    } else {
        Ok(create_meta_ilst(data, moov_start, moov_size, covr_atom))
    }
}

/// Tells whether writing `covr_atom` into `data` runs without fault: true
/// when there is no `moov` atom, else whether the search for `moov` in the
/// new file meets no container shorter than 16 bytes.
pub fn cover_insertion_is_sound(data: &[u8], covr_atom: &[u8]) -> (r: bool)
    requires
        data@.len() + covr_atom@.len() + 61 <= usize::MAX,
        covr_atom@.len() + 61 <= i64::MAX,
    ensures
        r == (inserted_cover(data@, covr_atom@) matches Some(out) ==> nested_search_sound(
            out,
            MOOV,
            0,
        )),
{
    match walk_atom(data, MOOV) {
        None => true,
        Some((moov_start, moov_size)) => {
            let meta = build_meta_atom(covr_atom);
            let udta = build_udta_atom(meta.as_slice());
            let out = append_to_moov(data, moov_start, moov_size, udta.as_slice());
            nested_search_is_sound(out.as_slice(), MOOV)
        },
    }
}

/// The file that writing `image` (of MIME type `mime`) as cover art into the
/// MP4/M4A file `audio` gives; `None` when the file has no `moov` atom.
pub open spec fn m4a_with_cover_art(audio: Seq<u8>, image: Seq<u8>, mime: Seq<char>) -> Option<
    Seq<u8>,
> {
    inserted_cover(audio, covr_item(image, mime))
}

/// Writes `image_data`, of MIME type `mime`, as the cover art of the
/// MP4/M4A file `audio_data`, and gives back the new file.
///
/// `None` stands for the input on which the chunk-offset pass would fault
/// (a container shorter than 16 bytes met in the search for `moov`).
pub fn m4a_with_cover(audio_data: &[u8], image_data: &[u8], mime: &str) -> (r: Option<
    Result<Vec<u8>, ArtworkError>,
>)
    requires
        audio_data@.len() + image_data@.len() + 85 <= usize::MAX,
        image_data@.len() + 85 <= i64::MAX,
    ensures
        match m4a_with_cover_art(audio_data@, image_data@, mime@) {
            None => r matches Some(Err(ArtworkError::MoovNotFound)),
            Some(out) => if nested_search_sound(out, MOOV, 0) {
                r matches Some(Ok(v)) && v@ == out
            } else {
                r is None
            },
        },
{
    let covr_atom = build_covr_atom(image_data, mime);
    if !cover_insertion_is_sound(audio_data, covr_atom.as_slice()) {
        return None;
    }
    Some(insert_covr_into_ilst(audio_data, covr_atom.as_slice()))
}

/// Writes `image_data` as the cover art of the MP4/M4A file `audio_data`,
/// typed by the MIME type that `mime_guess` tells by `image_path`, and
/// gives back the new file; `None` where `m4a_with_cover` gives `None`.
pub fn write_m4a_artwork(audio_data: &[u8], image_data: &[u8], image_path: &str) -> (r: Option<
    Result<Vec<u8>, ArtworkError>,
>)
    requires
        audio_data@.len() + image_data@.len() + 85 <= usize::MAX,
        image_data@.len() + 85 <= i64::MAX,
    ensures
        match m4a_with_cover_art(audio_data@, image_data@, guessed_mime_type(image_path@)) {
            None => r matches Some(Err(ArtworkError::MoovNotFound)),
            Some(out) => if nested_search_sound(out, MOOV, 0) {
                r matches Some(Ok(v)) && v@ == out
            } else {
                r is None
            },
        },
{
    let mime = guess_mime_type(image_path);
    m4a_with_cover(audio_data, image_data, mime.as_str())
}

} // verus!
