//! The pass that, after the `moov` atom has grown, looks for the chunk-offset
//! tables (`stco`, `co64`) in it to move their entries by the growth.

use vstd::prelude::*;
use crate::atom::{
    be32_at, be32_bytes, be64_at, be64_bytes, named_atom_at, read_be32, read_be64, whole_atom_at,
    write_be32, write_be64, CO64, MDIA, MINF, MOOV, STBL, STCO, TRAK,
};

verus! {

/// The atoms that the search for `moov` descends into.
pub open spec fn searched_container(name: int) -> bool {
    name == MOOV || name == TRAK || name == MDIA || name == MINF || name == STBL
}

/// The search for an atom called `name` in `s` from offset `i`: where no
/// whole atom stands it moves on by one byte; a whole atom called `name` is
/// the result; a whole container of `searched_container` is searched inside,
/// over its payload less its last 8 bytes; otherwise the search moves on past
/// the atom.
pub open spec fn nested_search(s: Seq<u8>, name: u32, i: int) -> Option<(int, int)>
    decreases s.len(), s.len() - i,
{
    if i < 0 || i + 8 > s.len() {
        None
    } else if !whole_atom_at(s, i) {
        nested_search(s, name, i + 1)
    } else {
        let size = be32_at(s, i);
        if be32_at(s, i + 4) == name {
            Some((i, size))
        } else if searched_container(be32_at(s, i + 4)) && size >= 16 {
            match nested_search(s.subrange(i + 8, i + size - 8), name, 0) {
                Some((p, n)) => Some((i + 8 + p, n)),
                None => nested_search(s, name, i + size),
            }
        } else {
            nested_search(s, name, i + size)
        }
    }
}

/// The search of `nested_search` never meets a container shorter than 16
/// bytes, whose payload less 8 bytes it could not take.
pub open spec fn nested_search_sound(s: Seq<u8>, name: u32, i: int) -> bool
    decreases s.len(), s.len() - i,
{
    if i < 0 || i + 8 > s.len() {
        true
    } else if !whole_atom_at(s, i) {
        nested_search_sound(s, name, i + 1)
    } else {
        let size = be32_at(s, i);
        if be32_at(s, i + 4) == name {
            true
        } else if searched_container(be32_at(s, i + 4)) {
            &&& size >= 16
            &&& nested_search_sound(s.subrange(i + 8, i + size - 8), name, 0)
            &&& (nested_search(s.subrange(i + 8, i + size - 8), name, 0) is None
                ==> nested_search_sound(s, name, i + size))
        } else {
            nested_search_sound(s, name, i + size)
        }
    }
}

/// Finds an atom called `name` as `nested_search` does.
pub fn find_atom_in_data(data: &[u8], name: u32) -> (r: Option<(usize, usize)>)
    requires
        nested_search_sound(data@, name, 0),
    ensures
        r matches Some((p, n)) ==> nested_search(data@, name, 0) == Some((p as int, n as int)),
        r matches Some((p, n)) ==> named_atom_at(data@, p as int, name) && n == be32_at(
            data@,
            p as int,
        ),
        r is None ==> nested_search(data@, name, 0) is None,
    decreases data@.len(),
{
    let len = data.len();
    let mut i: usize = 0;
    while i <= len && len - i >= 8
        invariant
            len == data@.len(),
            i <= len,
            nested_search(data@, name, 0) == nested_search(data@, name, i as int),
            nested_search_sound(data@, name, i as int),
        ensures
            nested_search(data@, name, 0) is None,
        decreases len - i,
    {
        let size = read_be32(data, i) as usize;
        if size < 8 || size > len - i {
            i = i + 1;
            continue;
        }
        let atom_name = read_be32(data, i + 4);
        if atom_name == name {
            return Some((i, size));
        }
        if atom_name == MOOV || atom_name == TRAK || atom_name == MDIA || atom_name == MINF
            || atom_name == STBL {
            let inner_data = &data[i + 8..i + size - 8];
            if let Some((inner_pos, inner_size)) = find_atom_in_data(inner_data, name) {
                proof {
                    let q = i + 8 + inner_pos;
                    assert(inner_data@ == data@.subrange(i + 8, i + size - 8));
                    assert forall|k: int| inner_pos <= k < inner_pos + 8 implies data@[i + 8 + k]
                        == inner_data@[k] by {}
                    assert(be32_at(data@, q) == be32_at(inner_data@, inner_pos as int));
                    assert(be32_at(data@, q + 4) == be32_at(inner_data@, inner_pos + 4));
                }
                return Some((i + 8 + inner_pos, inner_size));
            }
        }
        i = i + size;
    }
    None
}

/// Tells whether the search of `find_atom_in_data` for `name` runs through
/// `data` without meeting a container shorter than 16 bytes.
pub fn nested_search_is_sound(data: &[u8], name: u32) -> (r: bool)
    ensures
        r == nested_search_sound(data@, name, 0),
    decreases data@.len(),
{
    let len = data.len();
    let mut i: usize = 0;
    while i <= len && len - i >= 8
        invariant
            len == data@.len(),
            i <= len,
            nested_search_sound(data@, name, 0) == nested_search_sound(data@, name, i as int),
        ensures
            nested_search_sound(data@, name, 0),
        decreases len - i,
    {
        let size = read_be32(data, i) as usize;
        if size < 8 || size > len - i {
            i = i + 1;
            continue;
        }
        let atom_name = read_be32(data, i + 4);
        if atom_name == name {
            return true;
        }
        if atom_name == MOOV || atom_name == TRAK || atom_name == MDIA || atom_name == MINF
            || atom_name == STBL {
            if size < 16 {
                return false;
            }
            let inner_data = &data[i + 8..i + size - 8];
            if !nested_search_is_sound(inner_data, name) {
                return false;
            }
            if find_atom_in_data(inner_data, name).is_some() {
                return true;
            }
        }
        i = i + size;
    }
    true
}

/// The containers that the search for an offset table descends into.
pub open spec fn table_container(name: int) -> bool {
    name == TRAK || name == MDIA || name == MINF || name == STBL
}

/// The walk over the sibling atoms of `s` from offset `i` for the first
/// `stco` or `co64` table: it stops at the first header that is not a whole
/// atom, and descends into the payload of each `table_container`.
pub open spec fn table_walk(s: Seq<u8>, i: int) -> Option<(int, int)>
    decreases s.len(), s.len() - i,
{
    if i < 0 || !whole_atom_at(s, i) {
        None
    } else {
        let size = be32_at(s, i);
        let name = be32_at(s, i + 4);
        if name == STCO || name == CO64 {
            Some((i, size))
        } else if table_container(name) {
            match table_walk(s.subrange(i + 8, i + size), 0) {
                Some((p, n)) => Some((i + 8 + p, n)),
                None => table_walk(s, i + size),
            }
        } else {
            table_walk(s, i + size)
        }
    }
}

/// Finds the first chunk-offset table as `table_walk` does.
pub fn find_stco_in_atom(data: &[u8]) -> (r: Option<(usize, usize)>)
    ensures
        r matches Some((p, n)) ==> table_walk(data@, 0) == Some((p as int, n as int)),
        r matches Some((p, n)) ==> whole_atom_at(data@, p as int) && n == be32_at(data@, p as int),
        r is None ==> table_walk(data@, 0) is None,
    decreases data@.len(),
{
    let len = data.len();
    let mut i: usize = 0;
    while i <= len && len - i >= 8
        invariant
            len == data@.len(),
            i <= len,
            table_walk(data@, 0) == table_walk(data@, i as int),
        ensures
            table_walk(data@, 0) is None,
        decreases len - i,
    {
        let size = read_be32(data, i) as usize;
        if size < 8 || size > len - i {
            break;
        }
        let atom_name = read_be32(data, i + 4);
        if atom_name == STCO || atom_name == CO64 {
            return Some((i, size));
        }
        if atom_name == TRAK || atom_name == MDIA || atom_name == MINF || atom_name == STBL {
            let inner_data = &data[i + 8..i + size];
            if let Some((inner_pos, inner_size)) = find_stco_in_atom(inner_data) {
                proof {
                    let q = i + 8 + inner_pos;
                    assert(inner_data@ == data@.subrange(i + 8, i + size as int));
                    assert forall|k: int| inner_pos <= k < inner_pos + 8 implies data@[i + 8 + k]
                        == inner_data@[k] by {}
                    assert(be32_at(data@, q) == be32_at(inner_data@, inner_pos as int));
                }
                return Some((i + 8 + inner_pos, inner_size));
            }
        }
        i = i + size;
    }
    None
}

/// A walk for an offset table over the bytes of one `moov` atom, from its
/// own header, meets the `moov` atom, which it does not descend into, and
/// then the end of the bytes: it finds nothing.
pub proof fn lemma_table_walk_over_moov(s: Seq<u8>)
    requires
        s.len() >= 8,
        be32_at(s, 0) == s.len(),
        be32_at(s, 4) == MOOV,
    ensures
        table_walk(s, 0) is None,
{
    assert(table_walk(s, 0) == table_walk(s, s.len() as int));
}

/// A 32-bit chunk offset moved by `diff`: the low 32 bits of the sum.
pub open spec fn moved_offset32(offset: int, diff: i64) -> u32 {
    (offset + diff) as u32
}

/// A 64-bit chunk offset moved by `diff`: the offset taken as a signed
/// 64-bit number, plus `diff`, and the sum taken back as unsigned.
pub open spec fn moved_offset64(offset: int, diff: i64) -> u64 {
    ((offset as i64) + diff) as u64
}

/// The value of entry `j` of a 32-bit table whose entries start at `base`.
pub open spec fn entry32(s: Seq<u8>, base: int, j: int) -> int {
    be32_at(s, base + 4 * j)
}

/// The value of entry `j` of a 64-bit table whose entries start at `base`.
pub open spec fn entry64(s: Seq<u8>, base: int, j: int) -> int {
    be64_at(s, base + 8 * j)
}

/// Each of the first `count` entries within `s` of a 32-bit table, plus
/// `diff`, fits a signed 64-bit number.
pub open spec fn entries32_fit(s: Seq<u8>, base: int, count: int, diff: i64) -> bool {
    forall|j: int|
        0 <= j < count && base + 4 * j + 4 <= s.len() ==> #[trigger] entry32(s, base, j) + diff
            <= i64::MAX
}

/// Each of the first `count` entries within `s` of a 64-bit table, taken as
/// a signed 64-bit number, plus `diff`, fits a signed 64-bit number.
pub open spec fn entries64_fit(s: Seq<u8>, base: int, count: int, diff: i64) -> bool {
    forall|j: int|
        0 <= j < count && base + 8 * j + 8 <= s.len() ==> i64::MIN <= (#[trigger] entry64(
            s,
            base,
            j,
        ) as i64) + diff <= i64::MAX
}

/// `s` with each of the first `count` 4-byte entries from `base` that lies
/// wholly within `s` replaced by its offset moved by `diff`.
pub open spec fn entries32_moved(s: Seq<u8>, base: int, count: int, diff: i64) -> Seq<u8> {
    Seq::new(
        s.len(),
        |k: int|
            {
                let p = base + 4 * ((k - base) / 4);
                if base <= k && (k - base) / 4 < count && p + 4 <= s.len() {
                    be32_bytes(moved_offset32(be32_at(s, p), diff))[k - p]
                } else {
                    s[k]
                }
            },
    )
}

/// `s` with each of the first `count` 8-byte entries from `base` that lies
/// wholly within `s` replaced by its offset moved by `diff`.
pub open spec fn entries64_moved(s: Seq<u8>, base: int, count: int, diff: i64) -> Seq<u8> {
    Seq::new(
        s.len(),
        |k: int|
            {
                let p = base + 8 * ((k - base) / 8);
                if base <= k && (k - base) / 8 < count && p + 8 <= s.len() {
                    be64_bytes(moved_offset64(be64_at(s, p), diff))[k - p]
                } else {
                    s[k]
                }
            },
    )
}

/// Moving one more entry: the entry at `base + 4 * j` is overwritten, when
/// it lies within `s`, and nothing else changes.
proof fn lemma_entries32_step(s: Seq<u8>, base: int, j: int, diff: i64)
    requires
        0 <= base,
        0 <= j,
    ensures
        ({
            let cur = entries32_moved(s, base, j, diff);
            let p = base + 4 * j;
            &&& cur.len() == s.len()
            &&& p + 4 <= s.len() ==> be32_at(cur, p) == be32_at(s, p)
            &&& p + 4 <= s.len() ==> entries32_moved(s, base, j + 1, diff) == cur.subrange(0, p)
                + be32_bytes(moved_offset32(be32_at(s, p), diff)) + cur.subrange(
                p + 4,
                s.len() as int,
            )
            &&& p + 4 > s.len() ==> entries32_moved(s, base, j + 1, diff) == cur
        }),
{
    let cur = entries32_moved(s, base, j, diff);
    let next = entries32_moved(s, base, j + 1, diff);
    let p = base + 4 * j;
    if p + 4 <= s.len() {
        assert forall|k: int| p <= k < p + 4 implies cur[k] == s[k] by {
            assert((k - base) / 4 == j);
        }
        let w = cur.subrange(0, p) + be32_bytes(moved_offset32(be32_at(s, p), diff)) + cur.subrange(
            p + 4,
            s.len() as int,
        );
        assert forall|k: int| 0 <= k < s.len() implies next[k] == w[k] by {
            if p <= k < p + 4 {
                assert((k - base) / 4 == j);
            } else if base <= k {
                assert((k - base) / 4 != j);
            }
        }
        assert(next =~= w);
    } else {
        assert forall|k: int| 0 <= k < s.len() implies next[k] == cur[k] by {
            if base <= k && (k - base) / 4 == j {
                assert(base + 4 * ((k - base) / 4) == p);
            }
        }
        assert(next =~= cur);
    }
}

/// Moving one more entry of a 64-bit table: the entry at `base + 8 * j` is
/// overwritten, when it lies within `s`, and nothing else changes.
proof fn lemma_entries64_step(s: Seq<u8>, base: int, j: int, diff: i64)
    requires
        0 <= base,
        0 <= j,
    ensures
        ({
            let cur = entries64_moved(s, base, j, diff);
            let p = base + 8 * j;
            &&& cur.len() == s.len()
            &&& p + 8 <= s.len() ==> be64_at(cur, p) == be64_at(s, p)
            &&& p + 8 <= s.len() ==> entries64_moved(s, base, j + 1, diff) == cur.subrange(0, p)
                + be64_bytes(moved_offset64(be64_at(s, p), diff)) + cur.subrange(
                p + 8,
                s.len() as int,
            )
            &&& p + 8 > s.len() ==> entries64_moved(s, base, j + 1, diff) == cur
        }),
{
    let cur = entries64_moved(s, base, j, diff);
    let next = entries64_moved(s, base, j + 1, diff);
    let p = base + 8 * j;
    if p + 8 <= s.len() {
        assert forall|k: int| p <= k < p + 8 implies cur[k] == s[k] by {
            assert((k - base) / 8 == j);
        }
        let w = cur.subrange(0, p) + be64_bytes(moved_offset64(be64_at(s, p), diff)) + cur.subrange(
            p + 8,
            s.len() as int,
        );
        assert forall|k: int| 0 <= k < s.len() implies next[k] == w[k] by {
            if p <= k < p + 8 {
                assert((k - base) / 8 == j);
            } else if base <= k {
                assert((k - base) / 8 != j);
            }
        }
        assert(next =~= w);
    } else {
        assert forall|k: int| 0 <= k < s.len() implies next[k] == cur[k] by {
            if base <= k && (k - base) / 8 == j {
                assert(base + 8 * ((k - base) / 8) == p);
            }
        }
        assert(next =~= cur);
    }
}

/// Moves by `size_diff` every entry of the `stco` table at `stco_pos` (as
/// many as its entry count says) that lies within `data`.
#[verifier::rlimit(30)]
pub fn shift_stco_entries(data: &mut Vec<u8>, stco_pos: usize, size_diff: i64)
    requires
        stco_pos + 16 <= old(data)@.len(),
        stco_pos + 16 + 4 * be32_at(old(data)@, stco_pos + 12) <= usize::MAX,
        entries32_fit(old(data)@, stco_pos + 16, be32_at(old(data)@, stco_pos + 12), size_diff),
    ensures
        final(data)@ == entries32_moved(
            old(data)@,
            stco_pos + 16,
            be32_at(old(data)@, stco_pos + 12),
            size_diff,
        ),
{
    let ghost s = data@;
    let ghost base = stco_pos + 16;
    let entry_count = read_be32(data.as_slice(), stco_pos + 12) as usize;
    assert(data@ =~= entries32_moved(s, base, 0, size_diff));
    for j in 0..entry_count
        invariant
            s == old(data)@,
            base == stco_pos + 16,
            entry_count == be32_at(s, stco_pos + 12),
            stco_pos + 16 + 4 * entry_count <= usize::MAX,
            entries32_fit(s, base, entry_count as int, size_diff),
            data@ == entries32_moved(s, base, j as int, size_diff),
    {
        proof {
            lemma_entries32_step(s, base, j as int, size_diff);
        }
        let offset_pos = stco_pos + 16 + j * 4;
        if offset_pos + 4 <= data.len() {
            let old_offset = read_be32(data.as_slice(), offset_pos);
            assert(entry32(s, base, j as int) + size_diff <= i64::MAX);
            let new_offset = #[verifier::truncate] ((old_offset as i64 + size_diff) as u32);
            assert(new_offset == moved_offset32(be32_at(s, offset_pos as int), size_diff));
            write_be32(data, offset_pos, new_offset);
        }
    }
}

/// Moves by `size_diff` every entry of the `co64` table at `co64_pos` (as
/// many as its entry count says) that lies within `data`.
#[verifier::rlimit(30)]
pub fn shift_co64_entries(data: &mut Vec<u8>, co64_pos: usize, size_diff: i64)
    requires
        co64_pos + 16 <= old(data)@.len(),
        co64_pos + 16 + 8 * be32_at(old(data)@, co64_pos + 12) <= usize::MAX,
        entries64_fit(old(data)@, co64_pos + 16, be32_at(old(data)@, co64_pos + 12), size_diff),
    ensures
        final(data)@ == entries64_moved(
            old(data)@,
            co64_pos + 16,
            be32_at(old(data)@, co64_pos + 12),
            size_diff,
        ),
{
    let ghost s = data@;
    let ghost base = co64_pos + 16;
    let entry_count = read_be32(data.as_slice(), co64_pos + 12) as usize;
    assert(data@ =~= entries64_moved(s, base, 0, size_diff));
    for j in 0..entry_count
        invariant
            s == old(data)@,
            base == co64_pos + 16,
            entry_count == be32_at(s, co64_pos + 12),
            co64_pos + 16 + 8 * entry_count <= usize::MAX,
            entries64_fit(s, base, entry_count as int, size_diff),
            data@ == entries64_moved(s, base, j as int, size_diff),
    {
        proof {
            lemma_entries64_step(s, base, j as int, size_diff);
        }
        let offset_pos = co64_pos + 16 + j * 8;
        if offset_pos + 8 <= data.len() {
            let old_offset = read_be64(data.as_slice(), offset_pos);
            assert(i64::MIN <= (entry64(s, base, j as int) as i64) + size_diff <= i64::MAX);
            let new_offset = #[verifier::truncate] ((#[verifier::truncate] (old_offset as i64)
                + size_diff) as u64);
            assert(new_offset == moved_offset64(be64_at(s, offset_pos as int), size_diff));
            write_be64(data, offset_pos, new_offset);
        }
    }
}

/// After the `moov` atom has grown by `size_diff` bytes, looks for its
/// chunk-offset tables to move their entries by as much.
///
/// The `moov` atom is found as `nested_search` finds it. The search for the
/// tables then walks the bytes of that atom from its own header, and `moov`
/// is not one of the containers it descends into: it never finds a table,
/// and `data` comes out as it went in.
pub fn update_chunk_offsets(data: &mut Vec<u8>, size_diff: i64)
    requires
        nested_search_sound(old(data)@, MOOV, 0),
    ensures
        final(data)@ == old(data)@,
{
    if let Some((moov_start, moov_size)) = find_atom_in_data(data.as_slice(), MOOV) {
        let mut offset_accum: i64 = 0;
        loop
            invariant
                data@ == old(data)@,
                offset_accum == 0,
                named_atom_at(data@, moov_start as int, MOOV),
                moov_size == be32_at(data@, moov_start as int),
            decreases 101 - offset_accum,
        {
            let search_start: usize = if offset_accum == 0 {
                0
            } else {
                (moov_size as i64 + offset_accum - size_diff) as usize
            };
            assert(data@.len() == data.len());
            let search_data = &data[moov_start..moov_start + moov_size];
            let from = search_start.min(moov_size - 8);
            let searched = &search_data[from..search_data.len()];
            proof {
                assert(searched@ =~= data@.subrange(moov_start as int, moov_start + moov_size));
                assert(be32_at(searched@, 0) == be32_at(data@, moov_start as int));
                assert(be32_at(searched@, 4) == be32_at(data@, moov_start + 4));
                lemma_table_walk_over_moov(searched@);
            }
            match find_stco_in_atom(searched) {
                Some((stco_rel_pos, stco_size)) => {
                    let stco_pos = moov_start + from + stco_rel_pos;
                    let stco_data = &data[stco_pos..stco_pos + stco_size];
                    let table_name = read_be32(stco_data, 4);
                    if table_name == STCO && stco_size > 16 {
                        shift_stco_entries(data, stco_pos, size_diff);
                        offset_accum += 1;
                    } else if table_name == CO64 && stco_size > 16 {
                        shift_co64_entries(data, stco_pos, size_diff);
                        offset_accum += 1;
                    } else {
                        break;
                    }
                },
                None => {
                    break;
                },
            }
            if offset_accum > 100 {
                break;
            }
        }
    }
}

} // verus!
