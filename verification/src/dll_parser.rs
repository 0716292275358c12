//! Minimal PE/CLI metadata parser.
//!
//! Locates the `#Strings` and `#US` metadata heaps inside an arbitrary,
//! possibly corrupt, byte buffer believed to be a PE image with embedded
//! CLI metadata. Every read is bounds-checked: malformed input yields a
//! typed error, never a panic or an out-of-bounds access.

use vstd::prelude::*;

verus! {

/// The two metadata heaps of a managed assembly, borrowed from the
/// buffer that was parsed.
pub struct DllHeaps<'a> {
    pub strings: &'a [u8],
    pub us: &'a [u8],
}

/// Little-endian 16-bit read at offset `o`, as a mathematical integer.
pub open spec fn le16(d: Seq<u8>, o: int) -> int {
    d[o] + 256 * d[o + 1]
}

/// Little-endian 32-bit read at offset `o`, as a mathematical integer.
pub open spec fn le32(d: Seq<u8>, o: int) -> int {
    d[o] + 256 * d[o + 1] + 65536 * d[o + 2] + 16777216 * d[o + 3]
}

/// Rounds `x` up to the next multiple of 4.
pub open spec fn round4(x: int) -> int {
    ((x + 3) / 4) * 4
}

/// Absolute offset of section record `i` when the section table starts
/// at absolute offset `base`; records have a fixed 40-byte stride.
pub open spec fn sec_off(base: int, i: int) -> int {
    base + 40 * i
}

/// Virtual size field of section record `i`.
pub open spec fn sec_virt_size(d: Seq<u8>, base: int, i: int) -> int {
    le32(d, sec_off(base, i) + 8)
}

/// Virtual start address field of section record `i`.
pub open spec fn sec_virt_start(d: Seq<u8>, base: int, i: int) -> int {
    le32(d, sec_off(base, i) + 12)
}

/// File size field of section record `i`.
pub open spec fn sec_file_size(d: Seq<u8>, base: int, i: int) -> int {
    le32(d, sec_off(base, i) + 16)
}

/// File start offset field of section record `i`.
pub open spec fn sec_file_start(d: Seq<u8>, base: int, i: int) -> int {
    le32(d, sec_off(base, i) + 20)
}

/// Section record `i` is readable and its file-backed bytes lie inside
/// the buffer.
pub open spec fn sec_ok(d: Seq<u8>, base: int, i: int) -> bool {
    &&& sec_off(base, i) + 24 <= d.len()
    &&& sec_file_start(d, base, i) + sec_file_size(d, base, i) <= d.len()
}

/// All `n` section records are readable with in-bounds file bytes.
pub open spec fn secs_ok(d: Seq<u8>, base: int, n: int) -> bool {
    forall|i: int| 0 <= i < n ==> sec_ok(d, base, i)
}

/// Resolves a relative virtual address through the section table,
/// searching from section `i` upward: the first section whose virtual
/// range contains `rva` decides. The result is the absolute byte range
/// of the resolved bytes (to the end of that section's file bytes), or
/// `None` when no section contains `rva` or the offset lands past the
/// section's file bytes.
pub open spec fn spec_resolve(d: Seq<u8>, base: int, n: int, rva: int, i: int) -> Option<(int, int)>
    decreases n - i,
{
    if i >= n {
        None
    } else {
        let vs = sec_virt_start(d, base, i);
        let vz = sec_virt_size(d, base, i);
        if vs <= rva < vs + vz {
            let off = rva - vs;
            if off <= sec_file_size(d, base, i) {
                Some(
                    (sec_file_start(d, base, i) + off, sec_file_start(d, base, i) + sec_file_size(
                        d,
                        base,
                        i,
                    )),
                )
            } else {
                None
            }
        } else {
            spec_resolve(d, base, n, rva, i + 1)
        }
    }
}

/// A resolved range lies inside the buffer whenever every section's
/// file bytes do.
pub proof fn lemma_resolve_bounds(d: Seq<u8>, base: int, n: int, rva: int, i: int)
    requires
        secs_ok(d, base, n),
        0 <= i,
    ensures
        spec_resolve(d, base, n, rva, i) matches Some(rng) ==> 0 <= rng.0 <= rng.1 <= d.len(),
    decreases n - i,
{
    if i < n {
        assert(sec_ok(d, base, i));
        lemma_resolve_bounds(d, base, n, rva, i + 1);
    }
}

/// A named stream of the metadata root: its name and the byte contents
/// it points at.
pub ghost struct StreamSpec {
    pub name: Seq<u8>,
    pub data: Seq<u8>,
}

/// Index of the first NUL byte at or after `i`, or `None` when the rest
/// of `m` holds none.
pub open spec fn first_zero(m: Seq<u8>, i: int) -> Option<int>
    decreases m.len() - i,
{
    if i < 0 || i >= m.len() {
        None
    } else if m[i] == 0 {
        Some(i)
    } else {
        first_zero(m, i + 1)
    }
}

/// Walks `k` entries of the stream directory of the metadata root `m`,
/// starting at offset `sh`. Each entry holds a 4-byte data offset, a
/// 4-byte data size, and a NUL-terminated name padded to a 4-byte
/// boundary. `None` when any read or slice falls outside `m`.
pub open spec fn spec_streams(m: Seq<u8>, sh: int, k: int) -> Option<Seq<StreamSpec>>
    decreases k,
{
    if k <= 0 {
        Some(Seq::empty())
    } else if sh + 8 > m.len() {
        None
    } else {
        let off = le32(m, sh);
        let size = le32(m, sh + 4);
        match first_zero(m, sh + 8) {
            None => None,
            Some(z) => {
                let name_len = z - (sh + 8);
                if off + size > m.len() {
                    None
                } else if sh + 8 + round4(name_len + 1) > m.len() {
                    None
                } else {
                    match spec_streams(m, sh + 8 + round4(name_len + 1), k - 1) {
                        None => None,
                        Some(rest) => Some(
                            seq![
                                StreamSpec {
                                    name: m.subrange(sh + 8, z),
                                    data: m.subrange(off, off + size),
                                },
                            ] + rest,
                        ),
                    }
                }
            },
        }
    }
}

/// The first stream named `name`, or `None`.
pub open spec fn find_stream(ss: Seq<StreamSpec>, name: Seq<u8>) -> Option<StreamSpec>
    decreases ss.len(),
{
    if ss.len() == 0 {
        None
    } else if ss[0].name == name {
        Some(ss[0])
    } else {
        find_stream(ss.drop_first(), name)
    }
}

/// Byte name of the string-literal heap, `#Strings`.
pub open spec fn strings_heap_name() -> Seq<u8> {
    seq![35u8, 83u8, 116u8, 114u8, 105u8, 110u8, 103u8, 115u8]
}

/// Byte name of the UTF-16 user-string heap, `#US`.
pub open spec fn us_heap_name() -> Seq<u8> {
    seq![35u8, 85u8, 83u8]
}

/// What parsing a buffer as a PE image with CLI metadata yields: the
/// contents of the `#Strings` and `#US` heaps, or `None` when any
/// fixed-offset field, RVA resolution, magic value, or stream is out of
/// place. This is the full layout contract of the parser:
/// a 4-byte PE-header offset at byte 60; a `PE\0\0` magic; a section
/// count and optional-header size at fixed offsets inside the PE
/// header; a 40-byte-stride section table; a CLI-header RVA at offset
/// 208 of the optional header; a metadata-root RVA at offset 8 of the
/// CLI header; a `BSJB` magic; a version string whose length (at offset
/// 12) is rounded up to a 4-byte boundary; then a stream directory
/// from which the two heaps are taken by name.
pub open spec fn spec_parse_dll(d: Seq<u8>) -> Option<(Seq<u8>, Seq<u8>)> {
    if d.len() < 64 {
        None
    } else {
        let pe = le32(d, 60);
        if pe > d.len() {
            None
        } else if !(pe + 4 <= d.len() && d[pe] == 80 && d[pe + 1] == 69 && d[pe + 2] == 0 && d[pe
            + 3] == 0) {
            None
        } else if pe + 8 > d.len() {
            None
        } else if pe + 22 > d.len() {
            None
        } else {
            let n = le16(d, pe + 6);
            let ohs = le16(d, pe + 20);
            if pe + 24 + ohs > d.len() {
                None
            } else {
                let base = pe + 24 + ohs;
                if !secs_ok(d, base, n) {
                    None
                } else if ohs < 212 {
                    None
                } else {
                    let cli_rva = le32(d, pe + 24 + 208);
                    match spec_resolve(d, base, n, cli_rva, 0) {
                        None => None,
                        Some((clo, chi)) => {
                            if clo + 12 > chi {
                                None
                            } else {
                                let metadata_rva = le32(d, clo + 8);
                                match spec_resolve(d, base, n, metadata_rva, 0) {
                                    None => None,
                                    Some((mlo, mhi)) => spec_parse_metadata(
                                        d.subrange(mlo, mhi),
                                    ),
                                }
                            }
                        },
                    }
                }
            }
        }
    }
}

/// Parses the metadata root `m`: magic, version length, stream count,
/// stream directory, and the two heaps by name.
pub open spec fn spec_parse_metadata(m: Seq<u8>) -> Option<(Seq<u8>, Seq<u8>)> {
    if !(m.len() >= 4 && m[0] == 66 && m[1] == 83 && m[2] == 74 && m[3] == 66) {
        None
    } else if m.len() < 16 {
        None
    } else {
        let vl = round4(le32(m, 12));
        if 16 + vl + 4 > m.len() {
            None
        } else {
            let ns = le16(m, 16 + vl + 2);
            match spec_streams(m, 16 + vl + 4, ns) {
                None => None,
                Some(ss) => match (find_stream(ss, strings_heap_name()), find_stream(
                    ss,
                    us_heap_name(),
                )) {
                    (Some(sh), Some(uh)) => Some((sh.data, uh.data)),
                    _ => None,
                },
            }
        }
    }
}

/// A stream-directory entry: name and data bytes, borrowed from the
/// metadata root.
struct CliStream<'a> {
    name: &'a [u8],
    data: &'a [u8],
}

/// The specification-level contents of a stream vector.
spec fn stream_views(ss: Seq<CliStream>) -> Seq<StreamSpec> {
    ss.map_values(|s: CliStream| StreamSpec { name: s.name@, data: s.data@ })
}

/// Parses the metadata root: magic, version-string length, stream
/// directory, and the two heaps looked up by name.
#[verifier::loop_isolation(false)]
fn parse_metadata<'a>(metadata: &'a [u8]) -> (r: Result<(&'a [u8], &'a [u8]), &'static str>)
    ensures
        r matches Ok(h) ==> spec_parse_metadata(metadata@) == Some((h.0@, h.1@)),
        r is Err ==> spec_parse_metadata(metadata@) is None,
{
    let ghost m = metadata@;

    if !(metadata.len() >= 4 && metadata[0] == 66 && metadata[1] == 83 && metadata[2] == 74
        && metadata[3] == 66) {
        return Err("Invalid metadata magic");
    }

    let version_length_raw = read_u32(metadata, 12, "EOF metadata version length")?;
    let vl: u128 = ((version_length_raw as u128 + 3) / 4) * 4;
    proof {
        assert(vl == round4(le32(m, 12)));
    }

    let num_streams = read_u16(metadata, 16 + vl + 2, "EOF num_streams")? as u64;
    let ghost ns = num_streams as int;
    let ghost sh0 = 16 + vl as int + 4;

    let mut streams: Vec<CliStream<'a>> = Vec::new();
    let mut sh: u128 = 16 + vl + 4;
    let mut si: u64 = 0;
    proof {
        assert(m.len() == vstd::slice::spec_slice_len(metadata));
    }

    while si < num_streams
        invariant
            0 <= si <= num_streams,
            sh <= m.len(),
            spec_streams(m, sh0, ns) == (match spec_streams(m, sh as int, ns - si) {
                Some(rest) => Some(stream_views(streams@) + rest),
                None => None::<Seq<StreamSpec>>,
            }),
        decreases num_streams - si,
    {
        let ghost k = ns - si;
        let ghost old_views = stream_views(streams@);

        let offset = match read_u32(metadata, sh, "EOF stream offset") {
            Ok(v) => v as u128,
            Err(e) => {
                proof {
                    assert(spec_streams(m, sh as int, k) is None);
                }
                return Err(e);
            },
        };
        let size = match read_u32(metadata, sh + 4, "EOF stream size") {
            Ok(v) => v as u128,
            Err(e) => {
                proof {
                    assert(spec_streams(m, sh as int, k) is None);
                }
                return Err(e);
            },
        };

        // Scan for the NUL that terminates the stream's name.
        let mut z: u128 = sh + 8;
        while z < metadata.len() as u128 && metadata[z as usize] != 0
            invariant
                m == metadata@,
                sh + 8 <= z <= m.len(),
                first_zero(m, sh as int + 8) == first_zero(m, z as int),
            decreases m.len() - z,
        {
            z = z + 1;
        }

        if z == metadata.len() as u128 {
            proof {
                assert(first_zero(m, z as int) is None);
                assert(spec_streams(m, sh as int, k) is None);
            }
            return Err("EOF stream name");
        }
        proof {
            assert(first_zero(m, z as int) == Some(z as int));
        }
        let name_len: u128 = z - (sh + 8);

        if offset + size > metadata.len() as u128 {
            proof {
                assert(spec_streams(m, sh as int, k) is None);
            }
            return Err("EOF stream data");
        }

        let rounded: u128 = ((name_len + 1 + 3) / 4) * 4;
        proof {
            assert(rounded == round4(name_len as int + 1));
        }

        if sh + 8 + rounded > metadata.len() as u128 {
            proof {
                assert(spec_streams(m, sh as int, k) is None);
            }
            return Err("EOF next stream");
        }

        let name = vstd::slice::slice_subrange(metadata, (sh + 8) as usize, z as usize);
        let data = vstd::slice::slice_subrange(metadata, offset as usize, (offset + size) as usize);
        streams.push(CliStream { name, data });
        let ghost entry = StreamSpec {
            name: m.subrange(sh as int + 8, z as int),
            data: m.subrange(offset as int, offset as int + size as int),
        };
        proof {
            assert(stream_views(streams@) =~= old_views + seq![entry]);
            match spec_streams(m, sh as int + 8 + rounded as int, k - 1) {
                Some(rest) => {
                    assert(spec_streams(m, sh as int, k) == Some(seq![entry] + rest));
                    assert(old_views + (seq![entry] + rest) =~= (old_views + seq![entry]) + rest);
                },
                None => {
                    assert(spec_streams(m, sh as int, k) is None);
                },
            }
        }
        sh = sh + 8 + rounded;
        si = si + 1;
    }

    proof {
        assert(spec_streams(m, sh as int, 0) == Some(Seq::<StreamSpec>::empty()));
        assert(stream_views(streams@) + Seq::<StreamSpec>::empty() =~= stream_views(streams@));
        assert(spec_streams(m, sh0, ns) == Some(stream_views(streams@)));
    }

    let ghost views = stream_views(streams@);
    proof {
        assert(views.skip(0) =~= views);
    }
    let mut strings_heap: Option<&'a [u8]> = None;
    let mut us_heap: Option<&'a [u8]> = None;
    let mut sj: usize = 0;

    while sj < streams.len()
        invariant
            0 <= sj <= streams@.len(),
            match strings_heap {
                Some(s) => find_stream(views, strings_heap_name()) matches Some(st) && st.data
                    == s@,
                None => find_stream(views, strings_heap_name()) == find_stream(
                    views.skip(sj as int),
                    strings_heap_name(),
                ),
            },
            match us_heap {
                Some(s) => find_stream(views, us_heap_name()) matches Some(st) && st.data == s@,
                None => find_stream(views, us_heap_name()) == find_stream(
                    views.skip(sj as int),
                    us_heap_name(),
                ),
            },
        decreases streams@.len() - sj,
    {
        proof {
            assert(views.skip(sj as int)[0] == views[sj as int]);
            assert(views.skip(sj as int).drop_first() =~= views.skip(sj as int + 1));
        }
        if strings_heap.is_none() && is_strings_name(streams[sj].name) {
            strings_heap = Some(streams[sj].data);
        }
        if us_heap.is_none() && is_us_name(streams[sj].name) {
            us_heap = Some(streams[sj].data);
        }
        sj = sj + 1;
    }

    proof {
        assert(views.skip(views.len() as int) =~= Seq::<StreamSpec>::empty());
    }

    let strings = match strings_heap {
        Some(s) => s,
        None => {
            return Err("No #Strings heap");
        },
    };
    let us = match us_heap {
        Some(s) => s,
        None => {
            return Err("No #US heap");
        },
    };
    Ok((strings, us))
}

/// A parsed section-table entry: its virtual range and its file-backed
/// bytes, borrowed from the buffer.
struct DllSection<'a> {
    virtual_start: u32,
    virtual_size: u32,
    file_bytes: &'a [u8],
}

/// The section vector mirrors the section table that the specification
/// reads directly out of the buffer.
spec fn sections_linked(d: Seq<u8>, base: int, secs: Seq<DllSection>) -> bool {
    forall|j: int|
        0 <= j < secs.len() ==> {
            &&& #[trigger] secs[j].virtual_start == sec_virt_start(d, base, j)
            &&& secs[j].virtual_size == sec_virt_size(d, base, j)
            &&& secs[j].file_bytes@ == d.subrange(
                sec_file_start(d, base, j),
                sec_file_start(d, base, j) + sec_file_size(d, base, j),
            )
        }
}

/// Resolves `rva` to file bytes through the parsed section table.
fn resolve_rva<'a>(
    rva: u32,
    sections: &Vec<DllSection<'a>>,
    error_msg: &'static str,
    Ghost(d): Ghost<Seq<u8>>,
    Ghost(base): Ghost<int>,
) -> (r: Result<&'a [u8], &'static str>)
    requires
        secs_ok(d, base, sections@.len() as int),
        sections_linked(d, base, sections@),
    ensures
        match spec_resolve(d, base, sections@.len() as int, rva as int, 0) {
            Some(rng) => r matches Ok(s) && s@ == d.subrange(rng.0, rng.1),
            None => r matches Err(e) && e == error_msg,
        },
{
    let ghost n = sections@.len() as int;
    let mut i: usize = 0;
    while i < sections.len()
        invariant
            0 <= i <= sections@.len(),
            n == sections@.len() as int,
            secs_ok(d, base, n),
            sections_linked(d, base, sections@),
            spec_resolve(d, base, n, rva as int, 0) == spec_resolve(d, base, n, rva as int, i as int),
        decreases sections@.len() - i,
    {
        let section = &sections[i];
        let vs = section.virtual_start as u64;
        let vz = section.virtual_size as u64;
        if vs <= rva as u64 && (rva as u64) < vs + vz {
            let section_offset = rva - section.virtual_start;
            if section_offset as usize <= section.file_bytes.len() {
                let s = vstd::slice::slice_subrange(
                    section.file_bytes,
                    section_offset as usize,
                    section.file_bytes.len(),
                );
                proof {
                    let ii = i as int;
                    assert(sec_ok(d, base, ii));
                    let fs = sec_file_start(d, base, ii);
                    let fz = sec_file_size(d, base, ii);
                    let off = rva as int - vs as int;
                    assert(sections@[ii].file_bytes@ == d.subrange(fs, fs + fz));
                    assert(s@ =~= d.subrange(fs + off, fs + fz)) by {
                        assert(forall|k: int|
                            0 <= k < s@.len() ==> s@[k] == d.subrange(fs, fs + fz)[off + k]);
                    }
                }
                return Ok(s);
            } else {
                proof {
                    let ii = i as int;
                    assert(sec_ok(d, base, ii));
                    assert(sections@[ii].file_bytes@.len() == sec_file_size(d, base, ii));
                }
                return Err(error_msg);
            }
        }
        i = i + 1;
    }
    Err(error_msg)
}

/// Parses a byte buffer as a PE image with embedded CLI metadata and
/// returns the `#Strings` and `#US` heaps. The result is exactly what
/// [`spec_parse_dll`] reads out of the buffer; malformed or truncated
/// input yields an error, never a panic.
#[verifier::loop_isolation(false)]
pub fn parse_dll<'a>(data: &'a [u8]) -> (r: Result<DllHeaps<'a>, &'static str>)
    ensures
        r matches Ok(h) ==> spec_parse_dll(data@) == Some((h.strings@, h.us@)),
        r is Err ==> spec_parse_dll(data@) is None,
{
    let ghost d = data@;

    let lfanew = read_u32(data, 60, "EOF lfanew")? as u128;
    if lfanew > data.len() as u128 {
        return Err("Invalid lfanew");
    }
    let pe = lfanew;

    if pe + 4 > data.len() as u128 {
        return Err("Invalid PE magic");
    }
    let pu = pe as usize;
    if !(data[pu] == 80 && data[pu + 1] == 69 && data[pu + 2] == 0 && data[pu + 3] == 0) {
        return Err("Invalid PE magic");
    }

    let num_sections = read_u16(data, pe + 6, "EOF num_sections")? as u64;
    let opt_header_size = read_u16(data, pe + 20, "EOF opt_header_size")? as u128;

    if pe + 24 + opt_header_size > data.len() as u128 {
        return Err("EOF optional_header");
    }
    let base = pe + 24 + opt_header_size;
    let ghost basei = base as int;
    let ghost n = num_sections as int;

    let mut sections: Vec<DllSection<'a>> = Vec::new();
    let mut i: u64 = 0;
    while i < num_sections
        invariant
            0 <= i <= num_sections,
            sections@.len() == i as int,
            forall|j: int| 0 <= j < i ==> sec_ok(d, basei, j),
            sections_linked(d, basei, sections@),
        decreases num_sections - i,
    {
        let section_start = base + 40 * (i as u128);

        if section_start + 24 > data.len() as u128 {
            proof {
                assert(!sec_ok(d, basei, i as int));
            }
            return Err("EOF section");
        }
        let virtual_size = read_u32(data, section_start + 8, "EOF section")?;
        let virtual_start = read_u32(data, section_start + 12, "EOF section")?;
        let file_size = read_u32(data, section_start + 16, "EOF section")? as u128;
        let file_start = read_u32(data, section_start + 20, "EOF section")? as u128;

        if file_start + file_size > data.len() as u128 {
            proof {
                assert(!sec_ok(d, basei, i as int));
            }
            return Err("EOF section data");
        }

        let file_bytes = vstd::slice::slice_subrange(
            data,
            file_start as usize,
            (file_start + file_size) as usize,
        );
        let ghost pre = sections@;
        sections.push(DllSection { virtual_start, virtual_size, file_bytes });
        proof {
            let ii = i as int;
            assert(sec_ok(d, basei, ii));
            assert(sections@[ii].virtual_start == sec_virt_start(d, basei, ii));
            assert(sections@[ii].virtual_size == sec_virt_size(d, basei, ii));
            assert(sections@[ii].file_bytes@ == d.subrange(
                sec_file_start(d, basei, ii),
                sec_file_start(d, basei, ii) + sec_file_size(d, basei, ii),
            ));
            assert forall|j: int| 0 <= j < sections@.len() implies {
                &&& #[trigger] sections@[j].virtual_start == sec_virt_start(d, basei, j)
                &&& sections@[j].virtual_size == sec_virt_size(d, basei, j)
                &&& sections@[j].file_bytes@ == d.subrange(
                    sec_file_start(d, basei, j),
                    sec_file_start(d, basei, j) + sec_file_size(d, basei, j),
                )
            } by {
                if j < ii {
                    assert(sections@[j] == pre[j]);
                }
            }
        }
        i = i + 1;
    }

    if opt_header_size < 212 {
        return Err("opt_header too small");
    }
    let cli_header_rva = read_u32(data, pe + 24 + 208, "opt_header too small")?;
    let cli_header = resolve_rva(
        cli_header_rva,
        &sections,
        "Invalid CLI header RVA",
        Ghost(d),
        Ghost(basei),
    )?;

    proof {
        lemma_resolve_bounds(d, basei, n, cli_header_rva as int, 0);
        let rng = spec_resolve(d, basei, n, cli_header_rva as int, 0)->Some_0;
        if rng.0 + 12 <= rng.1 {
            assert(le32(cli_header@, 8) == le32(d, rng.0 + 8));
        }
    }
    let metadata_rva = read_u32(cli_header, 8, "EOF metadata rva")?;
    proof {
        lemma_resolve_bounds(d, basei, n, metadata_rva as int, 0);
    }
    let metadata = resolve_rva(
        metadata_rva,
        &sections,
        "Invalid metadata RVA",
        Ghost(d),
        Ghost(basei),
    )?;

    match parse_metadata(metadata) {
        Ok((strings, us)) => Ok(DllHeaps { strings, us }),
        Err(e) => Err(e),
    }
}

/// Reads a little-endian `u16` at `offset`, or the given error when the
/// two bytes are not inside `data`. The offset is widened so that
/// callers can form absolute offsets without overflow.
pub fn read_u16(data: &[u8], offset: u128, error_msg: &'static str) -> (r: Result<
    u16,
    &'static str,
>)
    ensures
        r is Ok <==> offset + 2 <= data@.len(),
        r matches Ok(v) ==> v == le16(data@, offset as int),
        r matches Err(e) ==> e == error_msg,
{
    if data.len() >= 2 && offset <= (data.len() - 2) as u128 {
        let o = offset as usize;
        let b0 = data[o];
        let b1 = data[o + 1];
        Ok(b0 as u16 + 256 * (b1 as u16))
    } else {
        Err(error_msg)
    }
}

/// Reads a little-endian `u32` at `offset`, or the given error when the
/// four bytes are not inside `data`. The offset is widened so that
/// callers can form absolute offsets without overflow.
pub fn read_u32(data: &[u8], offset: u128, error_msg: &'static str) -> (r: Result<
    u32,
    &'static str,
>)
    ensures
        r is Ok <==> offset + 4 <= data@.len(),
        r matches Ok(v) ==> v == le32(data@, offset as int),
        r matches Err(e) ==> e == error_msg,
{
    if data.len() >= 4 && offset <= (data.len() - 4) as u128 {
        let o = offset as usize;
        let b0 = data[o];
        let b1 = data[o + 1];
        let b2 = data[o + 2];
        let b3 = data[o + 3];
        Ok(b0 as u32 + 256 * (b1 as u32) + 65536 * (b2 as u32) + 16777216 * (b3 as u32))
    } else {
        Err(error_msg)
    }
}

/// Whether `name` is the byte name of the string-literal heap.
fn is_strings_name(name: &[u8]) -> (r: bool)
    ensures
        r == (name@ == strings_heap_name()),
{
    let r = name.len() == 8 && name[0] == 35 && name[1] == 83 && name[2] == 116 && name[3] == 114
        && name[4] == 105 && name[5] == 110 && name[6] == 103 && name[7] == 115;
    proof {
        if r {
            assert(name@ =~= strings_heap_name());
        }
        if name@ == strings_heap_name() {
            assert(name@.len() == 8);
            assert(name@[0] == 35u8 && name@[1] == 83u8 && name@[2] == 116u8 && name@[3] == 114u8
                && name@[4] == 105u8 && name@[5] == 110u8 && name@[6] == 103u8 && name@[7]
                == 115u8);
        }
    }
    r
}

/// Whether `name` is the byte name of the user-string heap.
fn is_us_name(name: &[u8]) -> (r: bool)
    ensures
        r == (name@ == us_heap_name()),
{
    let r = name.len() == 3 && name[0] == 35 && name[1] == 85 && name[2] == 83;
    proof {
        if r {
            assert(name@ =~= us_heap_name());
        }
        if name@ == us_heap_name() {
            assert(name@.len() == 3);
            assert(name@[0] == 35u8 && name@[1] == 85u8 && name@[2] == 83u8);
        }
    }
    r
}

} // verus!
