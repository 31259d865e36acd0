//! Properties of the library as a whole: what reading gives back of a
//! write, what a write keeps and how the atoms it adds are laid out, how
//! moves of chunk-offset entries compose, how atoms are found among their
//! siblings, and how formats, MIME types, type codes and file extensions are
//! told.

use vstd::prelude::*;
use crate::atom::{
    be32_at, be32_bytes, be64_at, be64_bytes, first_named_atom_at, lemma_be32_bytes_of_read, lemma_be32_roundtrip,
    lemma_scan_finds_first, lemma_walk_finds_named_atom, named_atom_at, walk_for_atom,
    whole_atom_at, COVR, DATA, HDLR, ILST, META, MOOV, UDTA,
};
use crate::chunk_offsets::{entries32_moved, entries64_moved, moved_offset32, moved_offset64};
use crate::flac::{flac_pictures, without_front_covers};
use crate::error::AudioFormat;
use crate::format::{artwork_extension_for, format_of, guessed_mime_type, png_at};
use crate::m4a_read::{cover_data_readable, cover_image, looks_like_png, sniffed_mime};
use crate::mp3::{
    conflicts_with_front_cover, front_cover_frame, pictures_of, without_first_front_cover, Id3Frame,
    Id3Picture,
};
use crate::m4a_write::{
    cover_atom, covr_item, hdlr_atom, ilst_atom, inserted_cover, meta_atom, udta_atom,
};

verus! {

/// Where the written `covr` atom starts in the new file: 61 bytes (the
/// `udta`, `meta` and `ilst` headers and the handler) past the end of the old
/// `moov` atom.
pub open spec fn written_cover_offset(data: Seq<u8>) -> int {
    match walk_for_atom(data, MOOV, 0) {
        Some((ms, msz)) => ms + msz + 61,
        None => 0,
    }
}

/// No whole atom called `covr` starts in `s` before offset `end`.
pub open spec fn no_cover_atom_before(s: Seq<u8>, end: int) -> bool {
    forall|j: int| 0 <= j < end ==> !named_atom_at(s, j, COVR)
}

/// The `udta` atom built around a cover holds it after 61 bytes.
proof fn lemma_udta_ends_with_cover(covr: Seq<u8>)
    ensures
        udta_atom(covr).len() == 61 + covr.len(),
        udta_atom(covr).subrange(61, 61 + covr.len() as int) == covr,
{
    let lead = be32_bytes((8 + meta_atom(covr).len()) as u32) + be32_bytes(UDTA) + be32_bytes(
        (12 + hdlr_atom().len() + ilst_atom(covr).len()) as u32,
    ) + be32_bytes(META) + be32_bytes(0) + hdlr_atom() + be32_bytes((8 + covr.len()) as u32)
        + be32_bytes(ILST);
    assert(lead.len() == 61);
    assert(udta_atom(covr) =~= lead + covr);
    assert((lead + covr).subrange(61, 61 + covr.len() as int) =~= covr);
}

/// The new file holds the written `covr` atom at `written_cover_offset`.
proof fn lemma_cover_placed(data: Seq<u8>, code: u32, image: Seq<u8>)
    requires
        walk_for_atom(data, MOOV, 0) is Some,
    ensures
        inserted_cover(data, cover_atom(code, image)) matches Some(out) && {
            let c = written_cover_offset(data);
            let covr = cover_atom(code, image);
            &&& 0 <= c
            &&& c + covr.len() <= out.len()
            &&& out.subrange(c, c + covr.len()) == covr
        },
{
    let (ms, msz) = walk_for_atom(data, MOOV, 0).unwrap();
    lemma_walk_finds_named_atom(data, MOOV, 0);
    let covr = cover_atom(code, image);
    let u = udta_atom(covr);
    lemma_udta_ends_with_cover(covr);
    let out = inserted_cover(data, cover_atom(code, image)).unwrap();
    let head = data.subrange(0, ms) + be32_bytes((msz + u.len()) as u32) + be32_bytes(MOOV)
        + data.subrange(ms + 8, ms + msz);
    let tail = data.subrange(ms + msz, data.len() as int);
    assert(out =~= head + u + tail);
    assert(head.len() == ms + msz);
    let c = ms + msz + 61;
    assert(out.subrange(c, c + covr.len()) =~= u.subrange(61, 61 + covr.len() as int));
}

/// A big-endian field read inside a copy of `t` placed at `c` is the field
/// read in `t`.
proof fn lemma_be32_in_copy(out: Seq<u8>, c: int, t: Seq<u8>, i: int)
    requires
        0 <= c,
        c + t.len() <= out.len(),
        out.subrange(c, c + t.len()) == t,
        0 <= i,
        i + 4 <= t.len(),
    ensures
        be32_at(out, c + i) == be32_at(t, i),
{
    assert(out[c + i] == t[i]);
    assert(out[c + i + 1] == t[i + 1]);
    assert(out[c + i + 2] == t[i + 2]);
    assert(out[c + i + 3] == t[i + 3]);
}

/// An atom laid out as a big-endian size, a big-endian name and a payload
/// reads back that size and name, and holds the payload after 8 bytes.
proof fn lemma_atom_fields(size: u32, name: u32, payload: Seq<u8>)
    ensures
        ({
            let a = be32_bytes(size) + be32_bytes(name) + payload;
            &&& a.len() == 8 + payload.len()
            &&& be32_at(a, 0) == size
            &&& be32_at(a, 4) == name
            &&& a.subrange(8, 8 + payload.len() as int) == payload
        }),
{
    let a = be32_bytes(size) + be32_bytes(name) + payload;
    lemma_be32_roundtrip(size);
    lemma_be32_roundtrip(name);
    assert(a.subrange(0, 4) =~= be32_bytes(size));
    assert(a.subrange(4, 8) =~= be32_bytes(name));
    lemma_be32_in_copy(a, 0, be32_bytes(size), 0);
    lemma_be32_in_copy(a, 4, be32_bytes(name), 0);
    assert(a.subrange(8, 8 + payload.len() as int) =~= payload);
}

/// The header fields of a `covr` atom holding a `data` atom of any type
/// code, and of that `data` atom.
proof fn lemma_cover_atom_fields(code: u32, image: Seq<u8>)
    requires
        image.len() + 24 <= u32::MAX,
    ensures
        ({
            let n = image.len() as int;
            let covr = cover_atom(code, image);
            let inner = covr.subrange(8, 24 + n);
            &&& covr.len() == 24 + n
            &&& be32_at(covr, 0) == 24 + n
            &&& be32_at(covr, 4) == COVR
            &&& be32_at(inner, 0) == 16 + n
            &&& be32_at(inner, 4) == DATA
            &&& inner.subrange(16, 16 + n) == image
        }),
{
    let n = image.len() as int;
    let covr = cover_atom(code, image);
    let flags = be32_bytes(0) + be32_bytes(code) + image;
    let data_atom = be32_bytes((16 + n) as u32) + be32_bytes(DATA) + flags;
    assert(covr =~= be32_bytes((24 + n) as u32) + be32_bytes(COVR) + data_atom);
    lemma_atom_fields((24 + n) as u32, COVR, data_atom);
    lemma_atom_fields((16 + n) as u32, DATA, flags);
    assert(flags.subrange(8, 8 + n) =~= image);
    assert(data_atom.subrange(16, 16 + n) =~= flags.subrange(8, 8 + n));
}

/// A `covr` atom holding a `data` atom, standing at `c` with no other
/// `covr` atom before it, is what the cover search finds, and its image is what
/// is read.
proof fn lemma_cover_found_at(out: Seq<u8>, c: int, code: u32, image: Seq<u8>)
    requires
        0 <= c,
        c + cover_atom(code, image).len() <= out.len(),
        out.subrange(c, c + cover_atom(code, image).len()) == cover_atom(code, image),
        image.len() + 24 <= u32::MAX,
        no_cover_atom_before(out, c),
    ensures
        cover_data_readable(out),
        cover_image(out) == Some(image),
{
    let n = image.len() as int;
    let covr = cover_atom(code, image);
    lemma_cover_atom_fields(code, image);
    lemma_be32_in_copy(out, c, covr, 0);
    lemma_be32_in_copy(out, c, covr, 4);
    assert(first_named_atom_at(out, COVR, c));
    lemma_scan_finds_first(out, COVR, c);
    let inner = out.subrange(c + 8, c + 24 + n);
    assert(inner =~= covr.subrange(8, 24 + n));
    assert(first_named_atom_at(inner, DATA, 0));
    lemma_scan_finds_first(inner, DATA, 0);
    assert(out.subrange(c + 24, c + 24 + n) =~= inner.subrange(16, 16 + n));
}

/// Reading back the cover of a file into which a `covr` atom holding a
/// `data` atom (of any type code) was written gives the image that was
/// written, whenever the file has a `moov` atom, the image fits the
/// 32-bit size fields, and no other `covr` atom is met first (the search
/// tries every offset from the start, and the write appends its atoms at the
/// end of `moov`, after any cover the file already held).
pub proof fn law_written_cover_reads_back(data: Seq<u8>, code: u32, image: Seq<u8>)
    requires
        walk_for_atom(data, MOOV, 0) is Some,
        image.len() + 24 <= u32::MAX,
        inserted_cover(data, cover_atom(code, image)) matches Some(out) && no_cover_atom_before(
            out,
            written_cover_offset(data),
        ),
    ensures
        inserted_cover(data, cover_atom(code, image)) matches Some(out) && cover_data_readable(out)
            && cover_image(out) == Some(image),
{
    lemma_cover_placed(data, code, image);
    let out = inserted_cover(data, cover_atom(code, image)).unwrap();
    lemma_cover_found_at(out, written_cover_offset(data), code, image);
}

/// No four consecutive bytes of `s` spell `covr`.
pub open spec fn no_cover_name(s: Seq<u8>) -> bool {
    forall|p: int| 0 <= p && p + 4 <= s.len() ==> be32_at(s, p) != COVR
}

/// Four bytes that read as `covr` are the letters `c`, `o`, `v`, `r`.
proof fn lemma_cover_name_bytes(s: Seq<u8>, p: int)
    requires
        0 <= p,
        p + 4 <= s.len(),
        be32_at(s, p) == COVR,
    ensures
        s[p] == 0x63 && s[p + 1] == 0x6f && s[p + 2] == 0x76 && s[p + 3] == 0x72,
{
    lemma_be32_bytes_of_read(s, p);
    assert(s.subrange(p, p + 4)[0] == s[p]);
    assert(s.subrange(p, p + 4)[1] == s[p + 1]);
    assert(s.subrange(p, p + 4)[2] == s[p + 2]);
    assert(s.subrange(p, p + 4)[3] == s[p + 3]);
}

/// In the headers of the `udta` atom built around a cover (and the cover's
/// own header) the name `covr` is spelt only where the cover's name stands:
/// every size field there is below 2^24, so it starts with a zero byte, and
/// each is followed by a name that does not go on as `covr` would.
#[verifier::spinoff_prover]
proof fn lemma_no_cover_name_in_headers(covr: Seq<u8>)
    requires
        covr.len() >= 8,
        covr.len() + 61 < 0x1000000,
        covr[0] == 0,
        be32_at(covr, 4) == COVR,
    ensures
        forall|q: int| 1 <= q <= 64 ==> be32_at(udta_atom(covr), q) != COVR,
{
    let u = udta_atom(covr);
    let n = covr.len() as int;
    let lead = be32_bytes((61 + n) as u32) + be32_bytes(UDTA) + be32_bytes((53 + n) as u32)
        + be32_bytes(META) + be32_bytes(0) + hdlr_atom() + be32_bytes((8 + n) as u32)
        + be32_bytes(ILST);
    assert(lead.len() == 61);
    assert(u =~= lead + covr);
    lemma_cover_name_bytes(covr, 4);
    assert(u[65] == 0x63);
    assert forall|q: int| 1 <= q <= 64 implies be32_at(u, q) != COVR by {
        if be32_at(u, q) == COVR {
            lemma_cover_name_bytes(u, q);
            assert(q == 1 || q == 2 || q == 3 || q == 4 || q == 5 || q == 6 || q == 7 || q == 8 || q == 9 || q == 10 || q == 11 || q == 12 || q == 13 || q == 14 || q == 15 || q == 16 || q == 17 || q == 18 || q == 19 || q == 20 || q == 21 || q == 22 || q == 23 || q == 24 || q == 25 || q == 26 || q == 27 || q == 28 || q == 29 || q == 30 || q == 31 || q == 32 || q == 33 || q == 34 || q == 35 || q == 36 || q == 37 || q == 38 || q == 39 || q == 40 || q == 41 || q == 42 || q == 43 || q == 44 || q == 45 || q == 46 || q == 47 || q == 48 || q == 49 || q == 50 || q == 51 || q == 52 || q == 53 || q == 54 || q == 55 || q == 56 || q == 57 || q == 58 || q == 59 || q == 60 || q == 61 || q == 62 || q == 63 || q == 64);
        }
    }
}

/// No `covr` atom starts before `e + 61` in `out`, a file that agrees with
/// `data` (where no four bytes spell `covr`) before `ms` and between
/// `ms + 4` and `e`, holds a zero byte at `ms` and the letter `m` at
/// `ms + 4`, and holds at `e` the headers `u` in which `covr` is not spelt
/// from offset 1 to 64 and which start with a zero byte.
#[verifier::spinoff_prover]
proof fn lemma_no_cover_atom_in_written_file(
    out: Seq<u8>,
    data: Seq<u8>,
    ms: int,
    e: int,
    u: Seq<u8>,
)
    requires
        0 <= ms,
        ms + 8 <= e,
        e <= data.len(),
        u.len() >= 69,
        e + u.len() <= out.len(),
        forall|i: int| 0 <= i < ms ==> out[i] == data[i],
        forall|i: int| ms + 4 <= i < e ==> out[i] == data[i],
        out[ms] == 0,
        out[ms + 4] == 0x6d,
        out.subrange(e, e + u.len()) == u,
        u[0] == 0,
        forall|q: int| 1 <= q <= 64 ==> be32_at(u, q) != COVR,
        no_cover_name(data),
    ensures
        no_cover_atom_before(out, e + 61),
{
    assert(out[e] == 0) by {
        assert(out.subrange(e, e + u.len())[0] == out[e]);
    }
    assert forall|j: int| 0 <= j < e + 61 implies !named_atom_at(out, j, COVR) by {
        let p = j + 4;
        if named_atom_at(out, j, COVR) {
            lemma_cover_name_bytes(out, p);
            if p + 4 <= ms || (ms + 4 <= p && p + 4 <= e) {
                assert(out[p] == data[p] && out[p + 1] == data[p + 1] && out[p + 2] == data[p + 2]
                    && out[p + 3] == data[p + 3]);
                assert(be32_at(data, p) == COVR);
            } else if p <= ms {
                assert(ms == p || ms == p + 1 || ms == p + 2 || ms == p + 3);
            } else if p < ms + 4 {
                assert(ms + 4 == p + 1 || ms + 4 == p + 2 || ms + 4 == p + 3);
            } else if p <= e {
                assert(e == p || e == p + 1 || e == p + 2 || e == p + 3);
            } else {
                lemma_be32_in_copy(out, e, u, p - e);
            }
        }
    }
}

/// Where the new file agrees with the old one byte for byte, and what
/// stands in the `moov` header and after the old `moov` payload, when the
/// grown `moov` atom stays below 2^24 bytes.
#[verifier::spinoff_prover]
proof fn lemma_written_layout(data: Seq<u8>, code: u32, image: Seq<u8>)
    requires
        walk_for_atom(data, MOOV, 0) is Some,
        walk_for_atom(data, MOOV, 0).unwrap().1 + image.len() + 85 < 0x1000000,
    ensures
        ({
            let (ms, msz) = walk_for_atom(data, MOOV, 0).unwrap();
            let e = ms + msz;
            let u = udta_atom(cover_atom(code, image));
            inserted_cover(data, cover_atom(code, image)) matches Some(out) && {
                &&& e + u.len() <= out.len()
                &&& out[ms] == 0
                &&& out[ms + 4] == 0x6d
                &&& out.subrange(e, e + u.len()) == u
                &&& forall|i: int| 0 <= i < ms ==> out[i] == data[i]
                &&& forall|i: int| ms + 4 <= i < e ==> out[i] == data[i]
            }
        }),
{
    let (ms, msz) = walk_for_atom(data, MOOV, 0).unwrap();
    lemma_walk_finds_named_atom(data, MOOV, 0);
    let covr = cover_atom(code, image);
    let u = udta_atom(covr);
    lemma_udta_ends_with_cover(covr);
    let grow = covr.len() + 61;
    let out = inserted_cover(data, cover_atom(code, image)).unwrap();
    let e = ms + msz;
    let a = data.subrange(0, ms);
    let b = be32_bytes((msz + grow) as u32);
    let content = data.subrange(ms + 4, e);
    let t = data.subrange(e, data.len() as int);
    lemma_be32_bytes_of_read(data, ms + 4);
    assert(be32_bytes(MOOV) =~= data.subrange(ms + 4, ms + 8));
    assert(out =~= a + b + content + u + t);
    assert(out.subrange(e, e + u.len()) =~= u);
    assert(data[ms + 4] == data.subrange(ms + 4, ms + 8)[0]);
    assert(out[ms] == b[0]);
}

/// A `covr` atom holding a `data` atom, below 2^24 bytes, and the `udta`
/// atom built around it, start with a zero byte.
proof fn lemma_cover_headers_start_with_zero(code: u32, image: Seq<u8>)
    requires
        image.len() + 85 < 0x1000000,
    ensures
        ({
            let covr = cover_atom(code, image);
            &&& covr.len() >= 8
            &&& covr.len() + 61 < 0x1000000
            &&& covr[0] == 0
            &&& be32_at(covr, 4) == COVR
            &&& udta_atom(covr).len() >= 69
            &&& udta_atom(covr)[0] == 0
        }),
{
    lemma_cover_atom_fields(code, image);
    lemma_cover_atom_starts_with_zero(code, image);
    lemma_udta_starts_with_zero(cover_atom(code, image));
}

/// A `covr` atom holding a `data` atom, below 2^24 bytes, starts with a
/// zero byte.
#[verifier::spinoff_prover]
proof fn lemma_cover_atom_starts_with_zero(code: u32, image: Seq<u8>)
    requires
        image.len() + 24 < 0x1000000,
    ensures
        cover_atom(code, image)[0] == 0,
{
    let n = image.len() as int;
    let head = be32_bytes((24 + n) as u32);
    let rest = be32_bytes(COVR) + be32_bytes((16 + n) as u32) + be32_bytes(DATA) + be32_bytes(0)
        + be32_bytes(code) + image;
    assert(cover_atom(code, image) =~= head + rest);
    assert(head[0] == 0);
}

/// The `udta` atom built around a cover, below 2^24 bytes, starts with a
/// zero byte.
#[verifier::spinoff_prover]
proof fn lemma_udta_starts_with_zero(covr: Seq<u8>)
    requires
        covr.len() + 61 < 0x1000000,
    ensures
        udta_atom(covr).len() >= 69 || covr.len() < 8,
        udta_atom(covr)[0] == 0,
{
    lemma_udta_ends_with_cover(covr);
    let m = meta_atom(covr);
    let head = be32_bytes((8 + m.len()) as u32);
    assert(udta_atom(covr) =~= head + (be32_bytes(UDTA) + m));
    assert(head[0] == 0);
}

/// Reading back the cover of a file into which a `covr` atom holding a
/// `data` atom (of any type code) was written gives the image that was
/// written, whenever the file had a `moov` atom and no four bytes in it
/// spelt `covr`, and the grown `moov` atom stays below 2^24 bytes.
#[verifier::spinoff_prover]
pub proof fn law_cover_written_into_coverless_file_reads_back(
    data: Seq<u8>,
    code: u32,
    image: Seq<u8>,
)
    requires
        walk_for_atom(data, MOOV, 0) is Some,
        no_cover_name(data),
        walk_for_atom(data, MOOV, 0).unwrap().1 + image.len() + 85 < 0x1000000,
    ensures
        inserted_cover(data, cover_atom(code, image)) matches Some(out) && cover_data_readable(out)
            && cover_image(out) == Some(image),
{
    let (ms, msz) = walk_for_atom(data, MOOV, 0).unwrap();
    lemma_walk_finds_named_atom(data, MOOV, 0);
    let covr = cover_atom(code, image);
    let u = udta_atom(covr);
    lemma_cover_headers_start_with_zero(code, image);
    lemma_no_cover_name_in_headers(covr);
    let out = inserted_cover(data, cover_atom(code, image)).unwrap();
    let e = ms + msz;
    lemma_written_layout(data, code, image);
    lemma_no_cover_atom_in_written_file(out, data, ms, e, u);
    law_written_cover_reads_back(data, code, image);
}

/// Writing cover art keeps everything outside the `moov` atom and the
/// `moov` payload as they were; the file grows by the `udta` atom alone
/// (the cover and 61 bytes of headers and handler), and the `moov` size
/// field grows by as much, modulo 2^32.
pub proof fn law_cover_write_keeps_the_rest(data: Seq<u8>, covr: Seq<u8>)
    requires
        walk_for_atom(data, MOOV, 0) is Some,
    ensures
        ({
            let (ms, msz) = walk_for_atom(data, MOOV, 0).unwrap();
            let grow = covr.len() + 61;
            inserted_cover(data, covr) matches Some(out) && {
                &&& out.len() == data.len() + grow
                &&& out.subrange(0, ms) == data.subrange(0, ms)
                &&& out.subrange(ms, ms + 4) == be32_bytes((msz + grow) as u32)
                &&& out.subrange(ms + 4, ms + msz) == data.subrange(ms + 4, ms + msz)
                &&& out.subrange(ms + msz + grow, out.len() as int) == data.subrange(
                    ms + msz,
                    data.len() as int,
                )
            }
        }),
{
    let (ms, msz) = walk_for_atom(data, MOOV, 0).unwrap();
    lemma_walk_finds_named_atom(data, MOOV, 0);
    lemma_be32_roundtrip(MOOV);
    let grow = covr.len() + 61;
    let out = inserted_cover(data, covr).unwrap();
    let u = udta_atom(covr);
    assert(u.len() == grow);
    let a = data.subrange(0, ms);
    let b = be32_bytes((msz + grow) as u32);
    let m = be32_bytes(MOOV);
    let content = data.subrange(ms + 8, ms + msz);
    let t = data.subrange(ms + msz, data.len() as int);
    assert(out =~= a + b + m + content + u + t);
    assert(out.subrange(0, ms) =~= a);
    assert(out.subrange(ms, ms + 4) =~= b);
    lemma_be32_bytes_of_read(data, ms + 4);
    assert(m =~= data.subrange(ms + 4, ms + 8));
    assert(out.subrange(ms + 4, ms + msz) =~= data.subrange(ms + 4, ms + msz));
    assert(out.subrange(ms + msz + grow, out.len() as int) =~= t);
}

/// Four bytes laid out as the big-endian `v` read back as `v`.
proof fn lemma_be32_field(s: Seq<u8>, k: int, v: u32)
    requires
        0 <= k,
        k + 4 <= s.len(),
        s.subrange(k, k + 4) == be32_bytes(v),
    ensures
        be32_at(s, k) == v,
{
    lemma_be32_roundtrip(v);
    lemma_be32_in_copy(s, k, be32_bytes(v), 0);
}

/// The header fields of the `udta` atom built around a cover: its own, those
/// of the `meta` atom, of the handler and of the `ilst` atom.
#[verifier::spinoff_prover]
proof fn lemma_udta_fields(covr: Seq<u8>)
    requires
        covr.len() + 61 <= u32::MAX,
    ensures
        ({
            let u = udta_atom(covr);
            let c = covr.len() as int;
            &&& be32_at(u, 0) == 61 + c
            &&& be32_at(u, 4) == UDTA
            &&& be32_at(u, 8) == 53 + c
            &&& be32_at(u, 12) == META
            &&& be32_at(u, 20) == 33
            &&& be32_at(u, 24) == HDLR
            &&& be32_at(u, 53) == 8 + c
            &&& be32_at(u, 57) == ILST
        }),
{
    let u = udta_atom(covr);
    let c = covr.len() as int;
    lemma_udta_ends_with_cover(covr);
    let lead = be32_bytes((61 + c) as u32) + be32_bytes(UDTA) + be32_bytes((53 + c) as u32)
        + be32_bytes(META) + be32_bytes(0) + hdlr_atom() + be32_bytes((8 + c) as u32)
        + be32_bytes(ILST);
    assert(u =~= lead + covr);
    assert(u.subrange(0, 4) =~= be32_bytes((61 + c) as u32));
    assert(u.subrange(4, 8) =~= be32_bytes(UDTA));
    assert(u.subrange(8, 12) =~= be32_bytes((53 + c) as u32));
    assert(u.subrange(12, 16) =~= be32_bytes(META));
    assert(u.subrange(20, 24) =~= be32_bytes(33));
    assert(u.subrange(24, 28) =~= be32_bytes(HDLR));
    assert(u.subrange(53, 57) =~= be32_bytes((8 + c) as u32));
    assert(u.subrange(57, 61) =~= be32_bytes(ILST));
    lemma_be32_field(u, 0, (61 + c) as u32);
    lemma_be32_field(u, 4, UDTA);
    lemma_be32_field(u, 8, (53 + c) as u32);
    lemma_be32_field(u, 12, META);
    lemma_be32_field(u, 20, 33);
    lemma_be32_field(u, 24, HDLR);
    lemma_be32_field(u, 53, (8 + c) as u32);
    lemma_be32_field(u, 57, ILST);
}

/// The atoms that carry the cover atom `covr` stand in `out` from `e` on,
/// each whole and sized by its extent: `udta`; `meta` after the `udta`
/// header, ending with it; the handler after the `meta` header and its
/// version word; `ilst` right after the handler, ending with `meta`; and
/// `covr` itself, byte for byte, filling `ilst` after its header.
pub open spec fn added_atoms_sized(out: Seq<u8>, e: int, covr: Seq<u8>) -> bool {
    let c = covr.len() as int;
    &&& named_atom_at(out, e, UDTA) && be32_at(out, e) == c + 61
    &&& named_atom_at(out, e + 8, META) && be32_at(out, e + 8) == c + 53
    &&& named_atom_at(out, e + 20, HDLR) && be32_at(out, e + 20) == 33
    &&& named_atom_at(out, e + 53, ILST) && be32_at(out, e + 53) == c + 8
    &&& whole_atom_at(out, e + 61) && be32_at(out, e + 61) == c
    &&& out.subrange(e + 61, e + 61 + c) == covr
}

/// Writing a cover atom `covr` (any whole atom: its size field at least 8
/// and equal to its length) into a file leaves the `moov` atom and the atoms
/// the write adds sized by their extent: in the new file `moov` stands where
/// it stood, grown by the added bytes; the `udta` atom starts where the old
/// `moov` payload ended and ends where `moov` now ends; `meta` starts after
/// the `udta` header and ends with it; the handler starts after the `meta`
/// header and its version word, and `ilst` right after the handler, ending
/// with `meta`; `covr` stands unchanged as the one child of `ilst`. This
/// holds while the grown `moov` size fits 32 bits.
#[verifier::spinoff_prover]
pub proof fn law_written_atoms_are_sized_by_their_extent(data: Seq<u8>, covr: Seq<u8>)
    requires
        walk_for_atom(data, MOOV, 0) is Some,
        covr.len() >= 8,
        be32_at(covr, 0) == covr.len(),
        walk_for_atom(data, MOOV, 0).unwrap().1 + covr.len() + 61 <= u32::MAX,
    ensures
        ({
            let (ms, msz) = walk_for_atom(data, MOOV, 0).unwrap();
            inserted_cover(data, covr) matches Some(out) && named_atom_at(out, ms, MOOV) && be32_at(
                out,
                ms,
            ) == msz + covr.len() + 61 && added_atoms_sized(out, ms + msz, covr)
        }),
{
    let (ms, msz) = walk_for_atom(data, MOOV, 0).unwrap();
    lemma_walk_finds_named_atom(data, MOOV, 0);
    law_written_file_keeps_moov(data, covr);
    let out = inserted_cover(data, covr).unwrap();
    lemma_walk_finds_named_atom(out, MOOV, 0);
    lemma_udta_placed(data, covr);
    lemma_added_udta_fields(covr);
    let u = udta_atom(covr);
    lemma_added_atoms_at(out, ms + msz, u, covr);
}

/// The new file holds the added `udta` atom right after the old `moov`
/// payload.
#[verifier::spinoff_prover]
proof fn lemma_udta_placed(data: Seq<u8>, covr: Seq<u8>)
    requires
        walk_for_atom(data, MOOV, 0) is Some,
    ensures
        ({
            let (ms, msz) = walk_for_atom(data, MOOV, 0).unwrap();
            let u = udta_atom(covr);
            inserted_cover(data, covr) matches Some(out) && ms + msz + u.len() <= out.len()
                && out.subrange(ms + msz, ms + msz + u.len()) == u
        }),
{
    let (ms, msz) = walk_for_atom(data, MOOV, 0).unwrap();
    lemma_walk_finds_named_atom(data, MOOV, 0);
    let e = ms + msz;
    let u = udta_atom(covr);
    let out = inserted_cover(data, covr).unwrap();
    let head = data.subrange(0, ms) + be32_bytes((msz + u.len()) as u32) + be32_bytes(MOOV)
        + data.subrange(ms + 8, ms + msz);
    let tail = data.subrange(e, data.len() as int);
    assert(out =~= head + u + tail);
    assert(out.subrange(e, e + u.len()) =~= u);
}

/// The header fields of the `udta` atom built around a whole atom `covr`,
/// down to the header of `covr` itself.
#[verifier::spinoff_prover]
proof fn lemma_added_udta_fields(covr: Seq<u8>)
    requires
        covr.len() >= 8,
        be32_at(covr, 0) == covr.len(),
        covr.len() + 61 <= u32::MAX,
    ensures
        ({
            let u = udta_atom(covr);
            let c = covr.len() as int;
            &&& u.len() == 61 + c
            &&& be32_at(u, 0) == 61 + c
            &&& be32_at(u, 4) == UDTA
            &&& be32_at(u, 8) == 53 + c
            &&& be32_at(u, 12) == META
            &&& be32_at(u, 20) == 33
            &&& be32_at(u, 24) == HDLR
            &&& be32_at(u, 53) == 8 + c
            &&& be32_at(u, 57) == ILST
            &&& be32_at(u, 61) == c
            &&& u.subrange(61, 61 + c) == covr
        }),
{
    let u = udta_atom(covr);
    lemma_udta_ends_with_cover(covr);
    lemma_udta_fields(covr);
    lemma_be32_in_copy(u, 61, covr, 0);
}

/// Where bytes `u` with the header fields of a `udta` atom added around
/// `covr` stand at `e`, the atoms inside them stand at their places, each
/// whole and sized by its extent.
#[verifier::spinoff_prover]
proof fn lemma_added_atoms_at(out: Seq<u8>, e: int, u: Seq<u8>, covr: Seq<u8>)
    requires
        0 <= e,
        covr.len() >= 8,
        u.len() == 61 + covr.len(),
        e + u.len() <= out.len(),
        out.subrange(e, e + u.len()) == u,
        be32_at(u, 0) == 61 + covr.len(),
        be32_at(u, 4) == UDTA,
        be32_at(u, 8) == 53 + covr.len(),
        be32_at(u, 12) == META,
        be32_at(u, 20) == 33,
        be32_at(u, 24) == HDLR,
        be32_at(u, 53) == 8 + covr.len(),
        be32_at(u, 57) == ILST,
        be32_at(u, 61) == covr.len(),
        u.subrange(61, 61 + covr.len() as int) == covr,
    ensures
        added_atoms_sized(out, e, covr),
{
    let c = covr.len() as int;
    lemma_be32_in_copy(out, e, u, 0);
    lemma_be32_in_copy(out, e, u, 4);
    lemma_be32_in_copy(out, e, u, 8);
    lemma_be32_in_copy(out, e, u, 12);
    lemma_be32_in_copy(out, e, u, 20);
    lemma_be32_in_copy(out, e, u, 24);
    lemma_be32_in_copy(out, e, u, 53);
    lemma_be32_in_copy(out, e, u, 57);
    lemma_be32_in_copy(out, e, u, 61);
    assert(out.subrange(e + 61, e + 61 + c) =~= u.subrange(61, 61 + c));
}

/// Artwork extracted from an MP4/M4A file is named `.png` exactly when it
/// begins with the PNG signature, and `.jpg` otherwise.
pub proof fn law_extracted_artwork_named_by_signature(artwork: Seq<u8>)
    ensures
        artwork_extension_for(sniffed_mime(artwork)) == (if looks_like_png(artwork) {
            "png"@
        } else {
            "jpg"@
        }),
{
    let png = seq!['i', 'm', 'a', 'g', 'e', '/', 'p', 'n', 'g'];
    let jpeg = seq!['i', 'm', 'a', 'g', 'e', '/', 'j', 'p', 'e', 'g'];
    assert(png_at(png, 6));
    assert forall|i: int| !png_at(jpeg, i) by {
        if 0 <= i && i + 3 <= jpeg.len() {
            assert(jpeg[i] != 'p' || jpeg[i + 1] != 'n');
        }
    }
}

/// After the FLAC front cover is written, the tag holds exactly one front
/// cover, the new picture, last; the other pictures keep their order.
pub proof fn law_flac_single_front_cover(
    before: Seq<(u8, Seq<char>, Seq<char>, Seq<u8>)>,
    p: (u8, Seq<char>, Seq<char>, Seq<u8>),
)
    requires
        p.0 == 3,
    ensures
        ({
            let after = without_front_covers(before).push(p);
            &&& after.last() == p
            &&& forall|i: int| 0 <= i < after.len() - 1 ==> after[i].0 != 3
        }),
{
    let rest = without_front_covers(before);
    assert forall|i: int| 0 <= i < rest.len() implies rest[i].0 != 3 by {
        before.lemma_filter_pred(|q: (u8, Seq<char>, Seq<char>, Seq<u8>)| q.0 != 3, i);
    }
}

/// Reading the FLAC artwork right after writing it gives back the image and
/// the MIME type written, when the tag held no picture but front covers.
pub proof fn law_flac_written_cover_reads_back(
    before: metaflac::Tag,
    after: metaflac::Tag,
    image: Seq<u8>,
    image_path: Seq<char>,
)
    requires
        flac_pictures(after) == without_front_covers(flac_pictures(before)).push(
            (3u8, guessed_mime_type(image_path), Seq::empty(), image),
        ),
        forall|i: int| 0 <= i < flac_pictures(before).len() ==> flac_pictures(before)[i].0 == 3,
    ensures
        flac_pictures(after).len() > 0,
        flac_pictures(after)[0].3 == image,
        flac_pictures(after)[0].1 == guessed_mime_type(image_path),
{
    let pics = flac_pictures(before);
    let rest = without_front_covers(pics);
    if rest.len() > 0 {
        pics.lemma_filter_pred(|q: (u8, Seq<char>, Seq<char>, Seq<u8>)| q.0 != 3, 0);
        assert(rest.contains(rest[0]));
        reveal(Seq::filter);
        lemma_filtered_from(pics, rest[0]);
    }
}

/// An element kept by dropping the front covers was in the sequence.
proof fn lemma_filtered_from(
    pics: Seq<(u8, Seq<char>, Seq<char>, Seq<u8>)>,
    x: (u8, Seq<char>, Seq<char>, Seq<u8>),
)
    requires
        without_front_covers(pics).contains(x),
    ensures
        pics.contains(x),
    decreases pics.len(),
{
    reveal(Seq::filter);
    if pics.len() > 0 {
        let rest = without_front_covers(pics.drop_last());
        if x != pics.last() {
            if pics.last().0 != 3 {
                assert(without_front_covers(pics) == rest.push(pics.last()));
                let k = choose|k: int| 0 <= k < rest.push(pics.last()).len() && rest.push(
                    pics.last(),
                )[k] == x;
                assert(rest[k] == x);
            }
            lemma_filtered_from(pics.drop_last(), x);
            let k = choose|k: int| 0 <= k < pics.drop_last().len() && pics.drop_last()[k] == x;
            assert(pics[k] == x);
        } else {
            assert(pics[pics.len() - 1] == x);
        }
    }
}

/// The number of frames of `frames` that hold a front cover (conflict with
/// a new front-cover picture frame).
pub open spec fn front_cover_frame_count(frames: Seq<Id3Frame>) -> nat
    decreases frames.len(),
{
    if frames.len() == 0 {
        0
    } else {
        front_cover_frame_count(frames.drop_last()) + if conflicts_with_front_cover(
            frames.last(),
        ) {
            1nat
        } else {
            0nat
        }
    }
}

/// Counting front-cover frames over a frame put in front.
proof fn lemma_count_prepend(a: Id3Frame, r: Seq<Id3Frame>)
    ensures
        front_cover_frame_count(seq![a] + r) == front_cover_frame_count(r) + if conflicts_with_front_cover(a) {
            1nat
        } else {
            0nat
        },
    decreases r.len(),
{
    if r.len() > 0 {
        lemma_count_prepend(a, r.drop_last());
        assert((seq![a] + r).drop_last() =~= seq![a] + r.drop_last());
    } else {
        assert((seq![a] + r).drop_last() =~= r);
    }
}

/// Dropping the first front-cover frame lowers the count by one, when
/// there is one.
proof fn lemma_count_without_first(frames: Seq<Id3Frame>)
    ensures
        front_cover_frame_count(without_first_front_cover(frames)) == if front_cover_frame_count(
            frames,
        ) > 0 {
            (front_cover_frame_count(frames) - 1) as nat
        } else {
            0nat
        },
    decreases frames.len(),
{
    if frames.len() > 0 {
        assert(frames =~= seq![frames[0]] + frames.drop_first());
        lemma_count_prepend(frames[0], frames.drop_first());
        if !conflicts_with_front_cover(frames[0]) {
            lemma_count_without_first(frames.drop_first());
            lemma_count_prepend(frames[0], without_first_front_cover(frames.drop_first()));
        }
    }
}

/// `frames` holds no picture exactly when none of its frames does.
proof fn lemma_no_pictures(frames: Seq<Id3Frame>)
    ensures
        pictures_of(frames).len() == 0 <==> forall|i: int|
            0 <= i < frames.len() ==> (#[trigger] frames[i]).4 is None,
    decreases frames.len(),
{
    if frames.len() > 0 {
        lemma_no_pictures(frames.drop_last());
        if pictures_of(frames).len() == 0 {
            assert forall|i: int| 0 <= i < frames.len() implies (#[trigger] frames[i]).4 is None by {
                if i < frames.len() - 1 {
                    assert(frames.drop_last()[i] == frames[i]);
                }
            }
        } else {
            if forall|i: int| 0 <= i < frames.len() ==> (#[trigger] frames[i]).4 is None {
                assert(frames.last().4 is None);
                assert forall|i: int| 0 <= i < frames.drop_last().len() implies (
                #[trigger] frames.drop_last()[i]).4 is None by {
                    assert(frames.drop_last()[i] == frames[i]);
                }
            }
        }
    }
}

/// Dropping a frame keeps a tag without pictures without pictures.
proof fn lemma_without_first_keeps_no_pictures(frames: Seq<Id3Frame>)
    requires
        forall|i: int| 0 <= i < frames.len() ==> (#[trigger] frames[i]).4 is None,
    ensures
        forall|i: int|
            0 <= i < without_first_front_cover(frames).len() ==> (
            #[trigger] without_first_front_cover(frames)[i]).4 is None,
    decreases frames.len(),
{
    if frames.len() > 0 {
        let rest = frames.drop_first();
        assert forall|i: int| 0 <= i < rest.len() implies (#[trigger] rest[i]).4 is None by {
            assert(rest[i] == frames[i + 1]);
        }
        if !conflicts_with_front_cover(frames[0]) {
            lemma_without_first_keeps_no_pictures(rest);
            let w = without_first_front_cover(rest);
            assert forall|i: int|
                0 <= i < (seq![frames[0]] + w).len() implies (#[trigger] (seq![frames[0]]
                + w)[i]).4 is None by {
                if i > 0 {
                    assert((seq![frames[0]] + w)[i] == w[i - 1]);
                }
            }
        }
    }
}

/// Writing the MP3 front cover replaces the tag's first front cover: the
/// new picture comes last; the number of front-cover frames stays as it
/// was, or becomes one where there was none, so a tag that held at most one
/// holds exactly one afterwards; and on a tag without pictures the new
/// picture is the only one, so reading the artwork gives it back.
pub proof fn law_mp3_written_cover(frames: Seq<Id3Frame>, p: Id3Picture)
    ensures
        ({
            let after = without_first_front_cover(frames).push(front_cover_frame(p));
            &&& pictures_of(after).len() > 0
            &&& pictures_of(after).last() == p
            &&& front_cover_frame_count(after) == if front_cover_frame_count(frames) == 0 {
                1
            } else {
                front_cover_frame_count(frames)
            }
            &&& pictures_of(frames).len() == 0 ==> pictures_of(after) == seq![p]
        }),
{
    let w = without_first_front_cover(frames);
    let after = w.push(front_cover_frame(p));
    assert(after.drop_last() =~= w);
    lemma_count_without_first(frames);
    if pictures_of(frames).len() == 0 {
        lemma_no_pictures(frames);
        lemma_without_first_keeps_no_pictures(frames);
        lemma_no_pictures(w);
        assert(pictures_of(after) =~= seq![p]);
    }
}

/// The walk over sibling atoms reaches the same atom in `t` as in `s` when
/// the two agree on every byte before it, and in `t` a whole atom of that
/// name stands there too.
proof fn lemma_walk_same_prefix(s: Seq<u8>, t: Seq<u8>, name: u32, i: int)
    requires
        0 <= i,
        walk_for_atom(s, name, i) is Some,
        ({
            let p = walk_for_atom(s, name, i).unwrap().0;
            &&& p <= t.len()
            &&& t.subrange(0, p) == s.subrange(0, p)
            &&& named_atom_at(t, p, name)
        }),
    ensures
        walk_for_atom(t, name, i) == Some(
            (walk_for_atom(s, name, i).unwrap().0, be32_at(t, walk_for_atom(s, name, i).unwrap().0)),
        ),
    decreases s.len() - i,
{
    let p = walk_for_atom(s, name, i).unwrap().0;
    lemma_walk_finds_named_atom(s, name, i);
    if i == p {
    } else {
        assert(whole_atom_at(s, i) && be32_at(s, i + 4) != name);
        lemma_walk_reaches_past(s, name, i);
        assert(i + 8 <= p);
        assert(t[i] == s[i] && t[i + 1] == s[i + 1] && t[i + 2] == s[i + 2] && t[i + 3] == s[i + 3]
            && t[i + 4] == s[i + 4] && t[i + 5] == s[i + 5] && t[i + 6] == s[i + 6] && t[i + 7]
            == s[i + 7]) by {
            assert(t.subrange(0, p)[i] == s.subrange(0, p)[i]);
            assert(t.subrange(0, p)[i + 1] == s.subrange(0, p)[i + 1]);
            assert(t.subrange(0, p)[i + 2] == s.subrange(0, p)[i + 2]);
            assert(t.subrange(0, p)[i + 3] == s.subrange(0, p)[i + 3]);
            assert(t.subrange(0, p)[i + 4] == s.subrange(0, p)[i + 4]);
            assert(t.subrange(0, p)[i + 5] == s.subrange(0, p)[i + 5]);
            assert(t.subrange(0, p)[i + 6] == s.subrange(0, p)[i + 6]);
            assert(t.subrange(0, p)[i + 7] == s.subrange(0, p)[i + 7]);
        }
        lemma_walk_same_prefix(s, t, name, i + be32_at(s, i));
    }
}

/// Each step of a walk that goes on past offset `i` ends at or before the
/// atom the walk finds.
proof fn lemma_walk_reaches_past(s: Seq<u8>, name: u32, i: int)
    requires
        0 <= i,
        walk_for_atom(s, name, i) is Some,
        whole_atom_at(s, i),
        be32_at(s, i + 4) != name,
    ensures
        i + be32_at(s, i) <= walk_for_atom(s, name, i).unwrap().0,
{
    lemma_walk_starts_at_or_after(s, name, i + be32_at(s, i));
}

/// What a walk from `i` finds stands at `i` or later.
proof fn lemma_walk_starts_at_or_after(s: Seq<u8>, name: u32, i: int)
    ensures
        walk_for_atom(s, name, i) matches Some((p, n)) ==> i <= p,
    decreases s.len() - i,
{
    if i >= 0 && whole_atom_at(s, i) && be32_at(s, i + 4) != name {
        lemma_walk_starts_at_or_after(s, name, i + be32_at(s, i));
    }
}

/// A file the library wrote a cover atom into still has its `moov` atom where
/// it was, among the same top-level atoms, now with the grown size, so it
/// can be written into again (while the size fits 32 bits).
pub proof fn law_written_file_keeps_moov(data: Seq<u8>, covr: Seq<u8>)
    requires
        walk_for_atom(data, MOOV, 0) is Some,
        walk_for_atom(data, MOOV, 0).unwrap().1 + covr.len() + 61 <= u32::MAX,
    ensures
        ({
            let (ms, msz) = walk_for_atom(data, MOOV, 0).unwrap();
            inserted_cover(data, covr) matches Some(out) && walk_for_atom(out, MOOV, 0)
                == Some((ms, msz + covr.len() + 61))
        }),
{
    let (ms, msz) = walk_for_atom(data, MOOV, 0).unwrap();
    let grow = covr.len() + 61;
    law_cover_write_keeps_the_rest(data, covr);
    lemma_walk_finds_named_atom(data, MOOV, 0);
    let out = inserted_cover(data, covr).unwrap();
    lemma_be32_roundtrip((msz + grow) as u32);
    assert(out.subrange(ms, ms + 4) == be32_bytes((msz + grow) as u32));
    assert(be32_at(out, ms) == msz + grow) by {
        assert(out[ms] == be32_bytes((msz + grow) as u32)[0]);
        assert(out[ms + 1] == be32_bytes((msz + grow) as u32)[1]);
        assert(out[ms + 2] == be32_bytes((msz + grow) as u32)[2]);
        assert(out[ms + 3] == be32_bytes((msz + grow) as u32)[3]);
    }
    assert(be32_at(out, ms + 4) == MOOV) by {
        assert(out.subrange(ms + 4, ms + msz)[0] == data.subrange(ms + 4, ms + msz)[0]);
        assert(out.subrange(ms + 4, ms + msz)[1] == data.subrange(ms + 4, ms + msz)[1]);
        assert(out.subrange(ms + 4, ms + msz)[2] == data.subrange(ms + 4, ms + msz)[2]);
        assert(out.subrange(ms + 4, ms + msz)[3] == data.subrange(ms + 4, ms + msz)[3]);
    }
    assert(named_atom_at(out, ms, MOOV));
    lemma_walk_same_prefix(data, out, MOOV, 0);
}

/// The value read at `p` lies in the 32-bit range.
proof fn lemma_be32_in_range(s: Seq<u8>, p: int)
    requires
        0 <= p,
        p + 4 <= s.len(),
    ensures
        0 <= be32_at(s, p) <= u32::MAX,
{
}

/// Moving a 32-bit offset by `a` and then by `b` moves it by `a + b`: both
/// wrap modulo 2^32.
proof fn lemma_moved32_compose(x: u32, a: i64, b: i64)
    requires
        i64::MIN <= a + b <= i64::MAX,
    ensures
        moved_offset32(moved_offset32(x as int, a) as int, b) == moved_offset32(
            x as int,
            (a + b) as i64,
        ),
{
    assert(((((x as int) + a) as u32) as int + b) as u32 == ((x as int) + ((a + b) as i64)) as u32)
        by (bit_vector)
        requires
            i64::MIN <= a + b <= i64::MAX,
    ;
}

/// Entry `j` of a 32-bit table, once moved, holds the moved offset.
proof fn lemma_entries32_slot(s: Seq<u8>, base: int, count: int, diff: i64, j: int)
    requires
        0 <= base,
        0 <= j < count,
        base + 4 * j + 4 <= s.len(),
    ensures
        be32_at(entries32_moved(s, base, count, diff), base + 4 * j) == moved_offset32(
            be32_at(s, base + 4 * j),
            diff,
        ),
{
    let p = base + 4 * j;
    let t = entries32_moved(s, base, count, diff);
    let v = moved_offset32(be32_at(s, p), diff);
    assert forall|i: int| 0 <= i < 4 implies t[p + i] == be32_bytes(v)[i] by {
        assert((p + i - base) / 4 == j);
    }
    assert(t.subrange(p, p + 4) =~= be32_bytes(v));
    lemma_be32_field(t, p, v);
}

/// Moving the entries of a 32-bit chunk-offset table by 0 leaves the bytes
/// as they are.
pub proof fn law_stco_shift_by_zero(s: Seq<u8>, base: int, count: int)
    requires
        0 <= base,
    ensures
        entries32_moved(s, base, count, 0) == s,
{
    let t = entries32_moved(s, base, count, 0);
    assert forall|k: int| 0 <= k < s.len() implies t[k] == s[k] by {
        let p = base + 4 * ((k - base) / 4);
        if base <= k && (k - base) / 4 < count && p + 4 <= s.len() {
            lemma_be32_in_range(s, p);
            lemma_be32_bytes_of_read(s, p);
            assert(moved_offset32(be32_at(s, p), 0) == be32_at(s, p));
            assert(s.subrange(p, p + 4)[k - p] == s[k]);
        }
    }
    assert(t =~= s);
}

/// Moving the entries of a 32-bit chunk-offset table by `a` and then by `b`
/// moves them by `a + b` (each offset wraps modulo 2^32 either way).
pub proof fn law_stco_shifts_compose(s: Seq<u8>, base: int, count: int, a: i64, b: i64)
    requires
        0 <= base,
        i64::MIN <= a + b <= i64::MAX,
    ensures
        entries32_moved(entries32_moved(s, base, count, a), base, count, b) == entries32_moved(
            s,
            base,
            count,
            (a + b) as i64,
        ),
{
    let t = entries32_moved(s, base, count, a);
    let l = entries32_moved(t, base, count, b);
    let r = entries32_moved(s, base, count, (a + b) as i64);
    assert forall|k: int| 0 <= k < s.len() implies l[k] == r[k] by {
        let j = (k - base) / 4;
        let p = base + 4 * j;
        if base <= k && j < count && p + 4 <= s.len() {
            lemma_entries32_slot(s, base, count, a, j);
            lemma_be32_in_range(s, p);
            lemma_moved32_compose(be32_at(s, p) as u32, a, b);
        }
    }
    assert(l =~= r);
}

/// Moving the entries of a 32-bit chunk-offset table by `a` and then back by
/// `-a` gives the bytes back.
pub proof fn law_stco_shift_back_undoes(s: Seq<u8>, base: int, count: int, a: i64)
    requires
        0 <= base,
        a != i64::MIN,
    ensures
        entries32_moved(entries32_moved(s, base, count, a), base, count, (-a) as i64) == s,
{
    law_stco_shifts_compose(s, base, count, a, (-a) as i64);
    law_stco_shift_by_zero(s, base, count);
    assert((a + (-a) as i64) as i64 == 0i64);
}

/// Splitting a 64-bit value into its high and low 32-bit halves.
proof fn lemma_split64(x: int, hi: int, lo: int)
    requires
        x == hi * 0x1_0000_0000 + lo,
        0 <= hi,
        0 <= lo < 0x1_0000_0000,
    ensures
        x / 0x1_0000_0000 == hi,
        x % 0x1_0000_0000 == lo,
{
    assert(x / 0x1_0000_0000 == hi && x % 0x1_0000_0000 == lo) by (nonlinear_arith)
        requires
            x == hi * 0x1_0000_0000 + lo,
            0 <= hi,
            0 <= lo < 0x1_0000_0000,
    ;
}

/// Eight bytes laid out as the big-endian `v` read back as `v`.
proof fn lemma_be64_field(s: Seq<u8>, k: int, v: u64)
    requires
        0 <= k,
        k + 8 <= s.len(),
        s.subrange(k, k + 8) == be64_bytes(v),
    ensures
        be64_at(s, k) == v,
{
    let hi = (v / 0x1_0000_0000) as u32;
    let lo = (v % 0x1_0000_0000) as u32;
    assert(s.subrange(k, k + 4) =~= be64_bytes(v).subrange(0, 4));
    assert(be64_bytes(v).subrange(0, 4) =~= be32_bytes(hi));
    assert(s.subrange(k + 4, k + 8) =~= be64_bytes(v).subrange(4, 8));
    assert(be64_bytes(v).subrange(4, 8) =~= be32_bytes(lo));
    lemma_be32_field(s, k, hi);
    lemma_be32_field(s, k + 4, lo);
}

/// The value read at `p` lies in the 64-bit range, and its bytes are the
/// eight bytes it was read from.
proof fn lemma_be64_bytes_of_read(s: Seq<u8>, p: int)
    requires
        0 <= p,
        p + 8 <= s.len(),
    ensures
        0 <= be64_at(s, p) <= u64::MAX,
        be64_bytes(be64_at(s, p) as u64) == s.subrange(p, p + 8),
{
    lemma_be32_in_range(s, p);
    lemma_be32_in_range(s, p + 4);
    let x = be64_at(s, p);
    lemma_split64(x, be32_at(s, p), be32_at(s, p + 4));
    lemma_be32_bytes_of_read(s, p);
    lemma_be32_bytes_of_read(s, p + 4);
    assert(be64_bytes(x as u64) =~= s.subrange(p, p + 8));
}

/// Moving a 64-bit offset by `a` and then by `b` moves it by `a + b`, and
/// moving it by 0 keeps it.
proof fn lemma_moved64(x: u64, a: i64, b: i64)
    requires
        i64::MIN <= a + b <= i64::MAX,
    ensures
        moved_offset64(moved_offset64(x as int, a) as int, b) == moved_offset64(
            x as int,
            (a + b) as i64,
        ),
        moved_offset64(x as int, 0) == x,
{
    assert(((((((x as int) as i64) + a) as u64) as int) as i64 + b) as u64 == (((x as int) as i64)
        + ((a + b) as i64)) as u64) by (bit_vector)
        requires
            i64::MIN <= a + b <= i64::MAX,
    ;
    assert((((x as int) as i64) + 0i64) as u64 == x) by (bit_vector);
}

/// Entry `j` of a 64-bit table, once moved, holds the moved offset.
proof fn lemma_entries64_slot(s: Seq<u8>, base: int, count: int, diff: i64, j: int)
    requires
        0 <= base,
        0 <= j < count,
        base + 8 * j + 8 <= s.len(),
    ensures
        be64_at(entries64_moved(s, base, count, diff), base + 8 * j) == moved_offset64(
            be64_at(s, base + 8 * j),
            diff,
        ),
{
    let p = base + 8 * j;
    let t = entries64_moved(s, base, count, diff);
    let v = moved_offset64(be64_at(s, p), diff);
    assert forall|i: int| 0 <= i < 8 implies t[p + i] == be64_bytes(v)[i] by {
        assert((p + i - base) / 8 == j);
    }
    assert(t.subrange(p, p + 8) =~= be64_bytes(v));
    lemma_be64_field(t, p, v);
}

/// Moving the entries of a 64-bit chunk-offset table by 0 leaves the bytes
/// as they are.
pub proof fn law_co64_shift_by_zero(s: Seq<u8>, base: int, count: int)
    requires
        0 <= base,
    ensures
        entries64_moved(s, base, count, 0) == s,
{
    let t = entries64_moved(s, base, count, 0);
    assert forall|k: int| 0 <= k < s.len() implies t[k] == s[k] by {
        let p = base + 8 * ((k - base) / 8);
        if base <= k && (k - base) / 8 < count && p + 8 <= s.len() {
            lemma_be64_bytes_of_read(s, p);
            lemma_moved64(be64_at(s, p) as u64, 0, 0);
            assert(s.subrange(p, p + 8)[k - p] == s[k]);
        }
    }
    assert(t =~= s);
}

/// Moving the entries of a 64-bit chunk-offset table by `a` and then by `b`
/// moves them by `a + b` (each offset, taken as a signed 64-bit number,
/// wraps modulo 2^64 either way).
pub proof fn law_co64_shifts_compose(s: Seq<u8>, base: int, count: int, a: i64, b: i64)
    requires
        0 <= base,
        i64::MIN <= a + b <= i64::MAX,
    ensures
        entries64_moved(entries64_moved(s, base, count, a), base, count, b) == entries64_moved(
            s,
            base,
            count,
            (a + b) as i64,
        ),
{
    let t = entries64_moved(s, base, count, a);
    let l = entries64_moved(t, base, count, b);
    let r = entries64_moved(s, base, count, (a + b) as i64);
    assert forall|k: int| 0 <= k < s.len() implies l[k] == r[k] by {
        let j = (k - base) / 8;
        let p = base + 8 * j;
        if base <= k && j < count && p + 8 <= s.len() {
            lemma_entries64_slot(s, base, count, a, j);
            lemma_be64_bytes_of_read(s, p);
            lemma_moved64(be64_at(s, p) as u64, a, b);
        }
    }
    assert(l =~= r);
}

/// Moving the entries of a 64-bit chunk-offset table by `a` and then back by
/// `-a` gives the bytes back.
pub proof fn law_co64_shift_back_undoes(s: Seq<u8>, base: int, count: int, a: i64)
    requires
        0 <= base,
        a != i64::MIN,
    ensures
        entries64_moved(entries64_moved(s, base, count, a), base, count, (-a) as i64) == s,
{
    law_co64_shifts_compose(s, base, count, a, (-a) as i64);
    law_co64_shift_by_zero(s, base, count);
    assert((a + (-a) as i64) as i64 == 0i64);
}

/// The MIME type given to extracted MP4/M4A artwork is `image/png` exactly
/// when the artwork is longer than four bytes and its first four bytes are
/// 89 50 4E 47, whatever its length beyond that; `image/jpeg` otherwise.
pub proof fn law_sniffed_mime_by_signature(a: Seq<u8>)
    ensures
        sniffed_mime(a) == (if a.len() > 4 && a[0] == 0x89 && a[1] == 0x50 && a[2] == 0x4e && a[3]
            == 0x47 {
            "image/png"@
        } else {
            "image/jpeg"@
        }),
{
    reveal_strlit("image/png");
    reveal_strlit("image/jpeg");
}

/// Two pieces of artwork longer than four bytes that begin with the same
/// four bytes are given the same MIME type, however long each is.
pub proof fn law_sniffed_mime_ignores_length(a: Seq<u8>, b: Seq<u8>)
    requires
        a.len() > 4,
        b.len() > 4,
        a.subrange(0, 4) == b.subrange(0, 4),
    ensures
        sniffed_mime(a) == sniffed_mime(b),
{
    assert(a[0] == a.subrange(0, 4)[0] && b[0] == b.subrange(0, 4)[0]);
    assert(a[1] == a.subrange(0, 4)[1] && b[1] == b.subrange(0, 4)[1]);
    assert(a[2] == a.subrange(0, 4)[2] && b[2] == b.subrange(0, 4)[2]);
    assert(a[3] == a.subrange(0, 4)[3] && b[3] == b.subrange(0, 4)[3]);
}

/// The type code of the `covr` atom written for `image` (the four bytes
/// after the `data` atom's zero flags word) is 14 exactly when the MIME type
/// holds the characters `png` in a row, and 13 otherwise, for images of
/// every length.
pub proof fn law_cover_type_code_by_mime(image: Seq<u8>, mime: Seq<char>)
    ensures
        covr_item(image, mime).subrange(16, 20) == be32_bytes(0),
        be32_at(covr_item(image, mime), 20) == (if exists|i: int|
            #![trigger mime[i]]
            0 <= i && i + 3 <= mime.len() && mime[i] == 'p' && mime[i + 1] == 'n' && mime[i + 2]
                == 'g' {
            14int
        } else {
            13int
        }),
{
    let code: u32 = if exists|i: int|
        #![trigger mime[i]]
        0 <= i && i + 3 <= mime.len() && mime[i] == 'p' && mime[i + 1] == 'n' && mime[i + 2]
            == 'g' {
        14
    } else {
        13
    };
    lemma_png_mention_inline(mime);
    assert(crate::m4a_write::cover_type_code(mime) == code);
    let covr = covr_item(image, mime);
    assert(covr == cover_atom(code, image));
    let head = be32_bytes((24 + image.len()) as u32) + be32_bytes(COVR) + be32_bytes(
        (16 + image.len()) as u32,
    ) + be32_bytes(DATA) + be32_bytes(0);
    assert(covr =~= head + be32_bytes(code) + image);
    assert(covr.subrange(16, 20) =~= be32_bytes(0));
    assert(covr.subrange(20, 24) =~= be32_bytes(code));
    lemma_be32_field(covr, 20, code);
}

/// The type code of the `covr` atom depends on the MIME type alone: two
/// images written with one MIME type get the same code.
pub proof fn law_cover_type_code_ignores_image(image1: Seq<u8>, image2: Seq<u8>, mime: Seq<char>)
    ensures
        be32_at(covr_item(image1, mime), 20) == be32_at(covr_item(image2, mime), 20),
{
    law_cover_type_code_by_mime(image1, mime);
    law_cover_type_code_by_mime(image2, mime);
}

/// `m` holds `png` somewhere, with the witness spelt out character by
/// character.
spec fn mentions_png_inline(m: Seq<char>) -> bool {
    exists|i: int| #![trigger m[i]] 0 <= i && i + 3 <= m.len() && m[i] == 'p' && m[i + 1] == 'n' && m[i + 2] == 'g'
}

/// What the library calls mentioning `png` is holding the three characters
/// in a row.
proof fn lemma_png_mention_inline(m: Seq<char>)
    ensures
        crate::format::mentions_png(m) == mentions_png_inline(m),
{
    if crate::format::mentions_png(m) {
        let i = choose|i: int| png_at(m, i);
        assert(0 <= i && i + 3 <= m.len() && m[i] == 'p' && m[i + 1] == 'n' && m[i + 2] == 'g');
    }
    if mentions_png_inline(m) {
        let i = choose|i: int|
            #![trigger m[i]]
            0 <= i && i + 3 <= m.len() && m[i] == 'p' && m[i + 1] == 'n' && m[i + 2] == 'g';
        assert(png_at(m, i));
    }
}

/// Extracted artwork is saved with the extension `png` exactly when its MIME
/// type holds the characters `png` in a row, and `jpg` otherwise, for every
/// MIME type.
pub proof fn law_artwork_extension_by_mime(mime: Seq<char>)
    ensures
        artwork_extension_for(mime) == (if exists|i: int|
            #![trigger mime[i]]
            0 <= i && i + 3 <= mime.len() && mime[i] == 'p' && mime[i + 1] == 'n' && mime[i + 2]
                == 'g' {
            "png"@
        } else {
            "jpg"@
        }),
{
    lemma_png_mention_inline(mime);
}

/// A lower-case extension names a format exactly when it is `mp3` (MP3),
/// `m4a` or `mp4` (MP4/M4A) or `flac` (FLAC); every other extension names
/// none, and so is refused as unsupported.
pub proof fn law_formats_by_extension(ext: Seq<char>)
    ensures
        (format_of(ext) == Some(AudioFormat::Mp3)) == (ext == seq!['m', 'p', '3']),
        (format_of(ext) == Some(AudioFormat::M4a)) == (ext == seq!['m', '4', 'a'] || ext == seq![
            'm',
            'p',
            '4',
        ]),
        (format_of(ext) == Some(AudioFormat::Flac)) == (ext == seq!['f', 'l', 'a', 'c']),
        format_of(ext) is None == (ext != seq!['m', 'p', '3'] && ext != seq!['m', '4', 'a'] && ext
            != seq!['m', 'p', '4'] && ext != seq!['f', 'l', 'a', 'c']),
{
    reveal_strlit("mp3");
    reveal_strlit("m4a");
    reveal_strlit("mp4");
    reveal_strlit("flac");
    assert("mp3"@ =~= seq!['m', 'p', '3']);
    assert("m4a"@ =~= seq!['m', '4', 'a']);
    assert("mp4"@ =~= seq!['m', 'p', '4']);
    assert("flac"@ =~= seq!['f', 'l', 'a', 'c']);
}

/// Walking the sibling atoms of `a + b` from `a.len() + j` is walking those
/// of `b` from `j`, the offsets moved by `a.len()`.
proof fn lemma_walk_shifted(a: Seq<u8>, b: Seq<u8>, name: u32, j: int)
    requires
        0 <= j,
    ensures
        walk_for_atom(a + b, name, a.len() + j) == match walk_for_atom(b, name, j) {
            Some((p, n)) => Some((a.len() + p, n)),
            None => None,
        },
    decreases b.len() - j,
{
    let s = a + b;
    let i = a.len() + j;
    if j + 8 <= b.len() {
        assert(s[i] == b[j] && s[i + 1] == b[j + 1] && s[i + 2] == b[j + 2] && s[i + 3] == b[j
            + 3]);
        assert(s[i + 4] == b[j + 4] && s[i + 5] == b[j + 5] && s[i + 6] == b[j + 6] && s[i + 7]
            == b[j + 7]);
        assert(be32_at(s, i) == be32_at(b, j));
        assert(be32_at(s, i + 4) == be32_at(b, j + 4));
        if whole_atom_at(b, j) && be32_at(b, j + 4) != name {
            lemma_walk_shifted(a, b, name, j + be32_at(b, j));
        }
    }
}

/// The walk over sibling atoms moves past a whole atom of another name,
/// whatever that name is: in `a + b`, where `a` is one whole atom not called
/// `name`, it finds what it finds in `b`, moved by `a.len()`.
pub proof fn law_walk_skips_whole_sibling(a: Seq<u8>, b: Seq<u8>, name: u32)
    requires
        a.len() >= 8,
        be32_at(a, 0) == a.len(),
        be32_at(a, 4) != name,
    ensures
        walk_for_atom(a + b, name, 0) == match walk_for_atom(b, name, 0) {
            Some((p, n)) => Some((a.len() + p, n)),
            None => None,
        },
{
    let s = a + b;
    assert(be32_at(s, 0) == be32_at(a, 0));
    assert(be32_at(s, 4) == be32_at(a, 4));
    assert(whole_atom_at(s, 0));
    assert(walk_for_atom(s, name, 0) == walk_for_atom(s, name, a.len() as int));
    lemma_walk_shifted(a, b, name, 0);
}

/// The walk over sibling atoms finds a whole atom called `name` that stands
/// first.
pub proof fn law_walk_finds_leading_atom(a: Seq<u8>, b: Seq<u8>, name: u32)
    requires
        a.len() >= 8,
        be32_at(a, 0) == a.len(),
        be32_at(a, 4) == name,
    ensures
        walk_for_atom(a + b, name, 0) == Some((0int, a.len() as int)),
{
    let s = a + b;
    assert(be32_at(s, 0) == be32_at(a, 0));
    assert(be32_at(s, 4) == be32_at(a, 4));
}

/// The walk over sibling atoms stops, finding nothing, at a header that is
/// not a whole atom: shorter than 8 bytes, a size below 8, or a size that
/// runs past the end.
pub proof fn law_walk_stops_at_broken_header(s: Seq<u8>, name: u32)
    requires
        s.len() < 8 || be32_at(s, 0) < 8 || be32_at(s, 0) > s.len(),
    ensures
        walk_for_atom(s, name, 0) is None,
{
}

/// A cover is written into a file that starts with a whole atom other than
/// `moov` (such as `ftyp` or `mdat`) exactly when it would be written into
/// the rest of the file: the search for `moov` moves past such atoms.
pub proof fn law_cover_written_past_whole_sibling(a: Seq<u8>, b: Seq<u8>, covr: Seq<u8>)
    requires
        a.len() >= 8,
        be32_at(a, 0) == a.len(),
        be32_at(a, 4) != MOOV,
    ensures
        (inserted_cover(a + b, covr) is Some) == (inserted_cover(b, covr) is Some),
{
    law_walk_skips_whole_sibling(a, b, MOOV);
}

} // verus!
