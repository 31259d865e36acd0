//! Big-endian fields and the atom headers of an MP4 container.
//!
//! An atom starts with an 8-byte header: a big-endian 32-bit size that
//! counts the header itself, then a four-character name, held here as the
//! big-endian `u32` that its four bytes spell.

use vstd::prelude::*;

verus! {

/// `covr`: the cover-art item of an `ilst` list.
pub const COVR: u32 = 0x636f7672;
/// `data`: the value atom inside a metadata item.
pub const DATA: u32 = 0x64617461;
/// `moov`: the movie atom that holds the file's metadata.
pub const MOOV: u32 = 0x6d6f6f76;
/// `udta`: user data.
pub const UDTA: u32 = 0x75647461;
/// `meta`: the metadata atom.
pub const META: u32 = 0x6d657461;
/// `ilst`: the list of metadata items.
pub const ILST: u32 = 0x696c7374;
/// `hdlr`: a handler reference.
pub const HDLR: u32 = 0x68646c72;
/// `mdir`: the handler type of iTunes-style metadata.
pub const MDIR: u32 = 0x6d646972;
/// `trak`: a track.
pub const TRAK: u32 = 0x7472616b;
/// `mdia`: a track's media.
pub const MDIA: u32 = 0x6d646961;
/// `minf`: media information.
pub const MINF: u32 = 0x6d696e66;
/// `stbl`: the sample table.
pub const STBL: u32 = 0x7374626c;
/// `stco`: 32-bit chunk offsets.
pub const STCO: u32 = 0x7374636f;
/// `co64`: 64-bit chunk offsets.
pub const CO64: u32 = 0x636f3634;

/// The big-endian 32-bit value of the four bytes of `s` at `i`.
pub open spec fn be32_at(s: Seq<u8>, i: int) -> int {
    s[i] * 0x1000000 + s[i + 1] * 0x10000 + s[i + 2] * 0x100 + s[i + 3]
}

/// Reads the big-endian `u32` at `i`.
pub fn read_be32(data: &[u8], i: usize) -> (r: u32)
    requires
        i + 4 <= data@.len(),
    ensures
        r as int == be32_at(data@, i as int),
{
    let b0: u32 = data[i] as u32;
    let b1: u32 = data[i + 1] as u32;
    let b2: u32 = data[i + 2] as u32;
    let b3: u32 = data[i + 3] as u32;
    b0 * 0x1000000 + b1 * 0x10000 + b2 * 0x100 + b3
}

/// The big-endian 64-bit value of the eight bytes of `s` at `i`.
pub open spec fn be64_at(s: Seq<u8>, i: int) -> int {
    be32_at(s, i) * 0x1_0000_0000 + be32_at(s, i + 4)
}

/// Reads the big-endian `u64` at `i`.
pub fn read_be64(data: &[u8], i: usize) -> (r: u64)
    requires
        i + 8 <= data@.len(),
    ensures
        r as int == be64_at(data@, i as int),
{
    assert(data@.len() == data.len());
    let hi: u64 = read_be32(data, i) as u64;
    let lo: u64 = read_be32(data, i + 4) as u64;
    hi * 0x1_0000_0000 + lo
}

/// The four bytes of `x`, most significant first.
pub open spec fn be32_bytes(x: u32) -> Seq<u8> {
    seq![
        (x / 0x1000000) as u8,
        (x / 0x10000 % 0x100) as u8,
        (x / 0x100 % 0x100) as u8,
        (x % 0x100) as u8,
    ]
}

/// The eight bytes of `x`, most significant first.
pub open spec fn be64_bytes(x: u64) -> Seq<u8> {
    be32_bytes((x / 0x1_0000_0000) as u32) + be32_bytes((x % 0x1_0000_0000) as u32)
}

/// Reading back the bytes of `x` gives `x`.
pub proof fn lemma_be32_roundtrip(x: u32)
    ensures
        be32_bytes(x).len() == 4,
        be32_at(be32_bytes(x), 0) == x,
{
    assert(x as int == (x / 0x1000000) * 0x1000000 + (x / 0x10000 % 0x100) * 0x10000
        + (x / 0x100 % 0x100) * 0x100 + x % 0x100) by (nonlinear_arith);
}

/// Writing back the value read at `i` gives the four bytes read.
pub proof fn lemma_be32_bytes_of_read(s: Seq<u8>, i: int)
    requires
        0 <= i,
        i + 4 <= s.len(),
    ensures
        be32_bytes(be32_at(s, i) as u32) == s.subrange(i, i + 4),
{
    let (b0, b1, b2, b3) = (s[i] as int, s[i + 1] as int, s[i + 2] as int, s[i + 3] as int);
    let x = b0 * 0x1000000 + b1 * 0x10000 + b2 * 0x100 + b3;
    assert(x / 0x1000000 == b0 && x / 0x10000 % 0x100 == b1 && x / 0x100 % 0x100 == b2 && x
        % 0x100 == b3) by (nonlinear_arith)
        requires
            x == b0 * 0x1000000 + b1 * 0x10000 + b2 * 0x100 + b3,
            0 <= b0 < 256,
            0 <= b1 < 256,
            0 <= b2 < 256,
            0 <= b3 < 256,
    ;
    assert(be32_bytes(be32_at(s, i) as u32) =~= s.subrange(i, i + 4));
}

/// Appends the big-endian bytes of `x`.
pub fn push_be32(v: &mut Vec<u8>, x: u32)
    ensures
        final(v)@ == old(v)@ + be32_bytes(x),
{
    v.push((x / 0x1000000) as u8);
    v.push((x / 0x10000 % 0x100) as u8);
    v.push((x / 0x100 % 0x100) as u8);
    v.push((x % 0x100) as u8);
    assert(v@ =~= old(v)@ + be32_bytes(x));
}

/// Overwrites the four bytes at `pos` with the big-endian bytes of `x`.
pub fn write_be32(v: &mut Vec<u8>, pos: usize, x: u32)
    requires
        pos + 4 <= old(v)@.len(),
    ensures
        final(v)@ == old(v)@.subrange(0, pos as int) + be32_bytes(x) + old(v)@.subrange(
            pos + 4,
            old(v)@.len() as int,
        ),
{
    assert(v@.len() == v.len());
    v.set(pos, (x / 0x1000000) as u8);
    v.set(pos + 1, (x / 0x10000 % 0x100) as u8);
    v.set(pos + 2, (x / 0x100 % 0x100) as u8);
    v.set(pos + 3, (x % 0x100) as u8);
    assert(v@ =~= old(v)@.subrange(0, pos as int) + be32_bytes(x) + old(v)@.subrange(
        pos + 4,
        old(v)@.len() as int,
    ));
}

/// Overwrites the eight bytes at `pos` with the big-endian bytes of `x`.
pub fn write_be64(v: &mut Vec<u8>, pos: usize, x: u64)
    requires
        pos + 8 <= old(v)@.len(),
    ensures
        final(v)@ == old(v)@.subrange(0, pos as int) + be64_bytes(x) + old(v)@.subrange(
            pos + 8,
            old(v)@.len() as int,
        ),
{
    assert(v@.len() == v.len());
    write_be32(v, pos, (x / 0x1_0000_0000) as u32);
    write_be32(v, pos + 4, (x % 0x1_0000_0000) as u32);
    assert(v@ =~= old(v)@.subrange(0, pos as int) + be64_bytes(x) + old(v)@.subrange(
        pos + 8,
        old(v)@.len() as int,
    ));
}

/// At `i` stands a whole atom header whose size is at least the header's
/// own 8 bytes and whose atom ends within `s`.
pub open spec fn whole_atom_at(s: Seq<u8>, i: int) -> bool {
    &&& 0 <= i
    &&& i + 8 <= s.len()
    &&& be32_at(s, i) >= 8
    &&& i + be32_at(s, i) <= s.len()
}

/// At `i` stands a whole atom called `name`.
pub open spec fn named_atom_at(s: Seq<u8>, i: int, name: u32) -> bool {
    whole_atom_at(s, i) && be32_at(s, i + 4) == name
}

/// `i` is the first offset in `s`, counting byte by byte, at which a whole
/// atom called `name` stands.
pub open spec fn first_named_atom_at(s: Seq<u8>, name: u32, i: int) -> bool {
    named_atom_at(s, i, name) && forall|j: int| 0 <= j < i ==> !named_atom_at(s, j, name)
}

/// The first offset, counting byte by byte, at which a whole atom called
/// `name` stands in `s`, and that atom's size.
pub open spec fn scan_for_atom(s: Seq<u8>, name: u32) -> Option<(int, int)> {
    if exists|i: int| first_named_atom_at(s, name, i) {
        let i = choose|i: int| first_named_atom_at(s, name, i);
        Some((i, be32_at(s, i)))
    } else {
        None
    }
}

/// Finds the first offset in `data` at which a whole atom called `name`
/// stands, trying every byte offset in turn, with the atom's size.
pub fn scan_atom(data: &[u8], name: u32) -> (r: Option<(usize, usize)>)
    ensures
        r matches Some((p, n)) ==> scan_for_atom(data@, name) == Some((p as int, n as int)),
        r matches Some((p, n)) ==> named_atom_at(data@, p as int, name) && n == be32_at(
            data@,
            p as int,
        ),
        r is None ==> scan_for_atom(data@, name) is None,
{
    let len = data.len();
    let mut i: usize = 0;
    while i <= len && len - i >= 8
        invariant
            len == data@.len(),
            i <= len,
            forall|j: int| 0 <= j < i ==> !named_atom_at(data@, j, name),
        decreases len - i,
    {
        let size = read_be32(data, i) as usize;
        if size >= 8 && size <= len - i && read_be32(data, i + 4) == name {
            proof {
                lemma_scan_finds_first(data@, name, i as int);
            }
            return Some((i, size));
        }
        i = i + 1;
    }
    assert forall|k: int| !first_named_atom_at(data@, name, k) by {
        if first_named_atom_at(data@, name, k) {
            assert(k < i);
        }
    }
    None
}

/// Walks the sibling atoms of `s` from offset `i`, each atom followed by
/// the next one right after its end, and gives the first called `name`
/// with its size; the walk stops at the first header that is not a whole
/// atom.
pub open spec fn walk_for_atom(s: Seq<u8>, name: u32, i: int) -> Option<(int, int)>
    decreases s.len() - i,
{
    if i < 0 || !whole_atom_at(s, i) {
        None
    } else if be32_at(s, i + 4) == name {
        Some((i, be32_at(s, i)))
    } else {
        walk_for_atom(s, name, i + be32_at(s, i))
    }
}

/// Finds the first atom called `name` among the sibling atoms that start
/// at the beginning of `data`, with its size.
pub fn walk_atom(data: &[u8], name: u32) -> (r: Option<(usize, usize)>)
    ensures
        r matches Some((p, n)) ==> walk_for_atom(data@, name, 0) == Some((p as int, n as int)),
        r matches Some((p, n)) ==> named_atom_at(data@, p as int, name) && n == be32_at(
            data@,
            p as int,
        ),
        r is None ==> walk_for_atom(data@, name, 0) is None,
{
    let len = data.len();
    let mut i: usize = 0;
    while i <= len && len - i >= 8
        invariant
            len == data@.len(),
            i <= len,
            walk_for_atom(data@, name, 0) == walk_for_atom(data@, name, i as int),
        ensures
            walk_for_atom(data@, name, 0) is None,
        decreases len - i,
    {
        let size = read_be32(data, i) as usize;
        if size < 8 || size > len - i {
            assert(!whole_atom_at(data@, i as int));
            break;
        }
        if read_be32(data, i + 4) == name {
            return Some((i, size));
        }
        i = i + size;
    }
    None
}

/// Walking the bytes of one whole atom, from its own header, meets that
/// atom first and then the end of the bytes: a search for any other name
/// finds nothing.
pub proof fn lemma_walk_own_atom(s: Seq<u8>, own: u32, name: u32)
    requires
        s.len() >= 8,
        be32_at(s, 0) == s.len(),
        be32_at(s, 4) == own,
        name != own,
    ensures
        walk_for_atom(s, name, 0) is None,
{
    assert(walk_for_atom(s, name, 0) == walk_for_atom(s, name, s.len() as int));
}

/// The first whole atom called `name` met byte by byte is what
/// `scan_for_atom` gives.
pub proof fn lemma_scan_finds_first(s: Seq<u8>, name: u32, i: int)
    requires
        first_named_atom_at(s, name, i),
    ensures
        scan_for_atom(s, name) == Some((i, be32_at(s, i))),
{
    let k = choose|k: int| first_named_atom_at(s, name, k);
    assert(k == i) by {
        if k < i {
        } else if k > i {
            assert(!named_atom_at(s, i, name));
        }
    }
}

/// What `walk_for_atom` finds is a whole atom of that name.
pub proof fn lemma_walk_finds_named_atom(s: Seq<u8>, name: u32, i: int)
    ensures
        walk_for_atom(s, name, i) matches Some((p, n)) ==> named_atom_at(s, p, name) && n
            == be32_at(s, p),
    decreases s.len() - i,
{
    if i >= 0 && whole_atom_at(s, i) && be32_at(s, i + 4) != name {
        lemma_walk_finds_named_atom(s, name, i + be32_at(s, i));
    }
}

} // verus!
