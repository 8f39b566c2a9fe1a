//! Decoding a byte sequence into a fork: the meaning of every region,
//! stated as spec functions over the raw bytes, and the executable `parse`
//! proved to return exactly what those functions denote.

use vstd::prelude::*;

use crate::bytes::{copy_range, read_be16, read_be16_at, read_be32, read_be32_at};
use crate::model::{
    FileHeader, ForkV, MapV, ParseError, RefV, ResourceFork, ResourceMap, ResourceReference,
    ResourceType, TypeV,
};

verus! {

/// The name table read sequentially from position `pos` to the end of the
/// map region: each entry is a length byte followed by that many bytes.
/// Fails if the last entry would run past the region's end.
pub open spec fn parse_names_at(m: Seq<u8>, pos: int) -> Result<Seq<Seq<u8>>, ParseError>
    recommends
        0 <= pos <= m.len(),
    decreases m.len() - pos,
{
    if pos >= m.len() {
        Ok(Seq::empty())
    } else {
        let n = m[pos] as int;
        if pos + 1 + n > m.len() {
            Err(ParseError::TruncatedInput)
        } else {
            match parse_names_at(m, pos + 1 + n) {
                Ok(rest) => Ok(seq![m.subrange(pos + 1, pos + 1 + n)] + rest),
                Err(e) => Err(e),
            }
        }
    }
}

/// The index of the name-table entry that starts exactly at byte offset
/// `off`; `None` when `off` falls between entries or past the table.
pub open spec fn find_name_index(ns: Seq<Seq<u8>>, off: int) -> Option<int>
    decreases ns.len(),
{
    if ns.len() == 0 {
        None
    } else if off == 0 {
        Some(0)
    } else {
        match find_name_index(ns.drop_first(), off - (1 + ns[0].len())) {
            Some(k) => Some(k + 1),
            None => None,
        }
    }
}

/// The payload stored at data-block offset `doff`: a 4-byte big-endian
/// length prefix followed by that many bytes, all inside the block.
pub open spec fn parse_payload(data: Seq<u8>, doff: int) -> Result<Seq<u8>, ParseError> {
    if doff < 0 || doff + 4 > data.len() {
        Err(ParseError::OffsetOutOfRange)
    } else {
        let n = read_be32(data, doff) as int;
        if doff + 4 + n > data.len() {
            Err(ParseError::OffsetOutOfRange)
        } else {
            Ok(data.subrange(doff + 4, doff + 4 + n))
        }
    }
}

/// One 12-byte reference entry at position `pos` of the map region: id,
/// name offset (0xFFFF meaning no name), attribute byte packed with the
/// 24-bit data offset, and a reserved handle that is read and discarded.
pub open spec fn parse_ref_entry(m: Seq<u8>, pos: int, data: Seq<u8>, ns: Seq<Seq<u8>>) -> Result<
    RefV,
    ParseError,
> {
    if pos < 0 || pos + 12 > m.len() {
        Err(ParseError::TruncatedInput)
    } else {
        let id = read_be16(m, pos) as i16;
        let noff = read_be16(m, pos + 2);
        let word = read_be32(m, pos + 4);
        let attributes = (word >> 24) as u8;
        let doff = (word & 0xFFFFFF) as int;
        if noff == 0xFFFF {
            match parse_payload(data, doff) {
                Ok(p) => Ok(RefV { id, attributes, name: None, payload: p }),
                Err(e) => Err(e),
            }
        } else {
            match find_name_index(ns, noff as int) {
                Some(k) => match parse_payload(data, doff) {
                    Ok(p) => Ok(RefV { id, attributes, name: Some(k), payload: p }),
                    Err(e) => Err(e),
                },
                None => Err(ParseError::OffsetOutOfRange),
            }
        }
    }
}

/// `count` consecutive reference entries starting at position `pos`.
pub open spec fn parse_ref_list(
    m: Seq<u8>,
    pos: int,
    count: nat,
    data: Seq<u8>,
    ns: Seq<Seq<u8>>,
) -> Result<Seq<RefV>, ParseError>
    decreases count,
{
    if count == 0 {
        Ok(Seq::empty())
    } else {
        match parse_ref_entry(m, pos, data, ns) {
            Ok(r) => match parse_ref_list(m, pos + 12, (count - 1) as nat, data, ns) {
                Ok(rest) => Ok(seq![r] + rest),
                Err(e) => Err(e),
            },
            Err(e) => Err(e),
        }
    }
}

/// `count` consecutive 8-byte type-list entries starting at position `pos`;
/// each entry's reference list is read at `tlo` plus its stored offset.
pub open spec fn parse_type_list(
    m: Seq<u8>,
    tlo: int,
    pos: int,
    count: nat,
    data: Seq<u8>,
    ns: Seq<Seq<u8>>,
) -> Result<Seq<TypeV>, ParseError>
    decreases count,
{
    if count == 0 {
        Ok(Seq::empty())
    } else if pos < 0 || pos + 8 > m.len() {
        Err(ParseError::TruncatedInput)
    } else {
        let code = read_be32(m, pos);
        let rcount = (((read_be16(m, pos + 4) as int) + 1) % 0x10000) as nat;
        let rlo = read_be16(m, pos + 6) as int;
        match parse_ref_list(m, tlo + rlo, rcount, data, ns) {
            Ok(refs) => match parse_type_list(m, tlo, pos + 8, (count - 1) as nat, data, ns) {
                Ok(rest) => Ok(seq![TypeV { code, references: refs }] + rest),
                Err(e) => Err(e),
            },
            Err(e) => Err(e),
        }
    }
}

/// The meaning of a raw fork image.  The header is read first; the data
/// block and map regions are sliced by the header's own offset and length
/// fields; the map's sub-header locates the type list and the name table;
/// every reference resolves its name index and its payload.
pub open spec fn spec_parse(s: Seq<u8>) -> Result<ForkV, ParseError> {
    if s.len() < 16 {
        Err(ParseError::TruncatedInput)
    } else {
        let header = FileHeader {
            data_block_offset: read_be32(s, 0),
            resource_map_offset: read_be32(s, 4),
            len_data_block: read_be32(s, 8),
            len_resource_map: read_be32(s, 12),
        };
        let dbo = header.data_block_offset as int;
        let rmo = header.resource_map_offset as int;
        let dl = header.len_data_block as int;
        let ml = header.len_resource_map as int;
        if rmo != dbo + dl {
            Err(ParseError::InconsistentHeader)
        } else if dbo + dl > s.len() || rmo + ml > s.len() {
            Err(ParseError::TruncatedInput)
        } else {
            let data = s.subrange(dbo, dbo + dl);
            let m = s.subrange(rmo, rmo + ml);
            if m.len() < 26 {
                Err(ParseError::TruncatedInput)
            } else {
                let tlo = read_be16(m, 22) as int;
                let nlo = read_be16(m, 24) as int;
                if tlo + 2 > m.len() || nlo > m.len() {
                    Err(ParseError::TruncatedInput)
                } else {
                    match parse_names_at(m, nlo) {
                        Ok(ns) => {
                            let tcount = (((read_be16(m, tlo) as int) + 1) % 0x10000) as nat;
                            match parse_type_list(m, tlo, tlo + 2, tcount, data, ns) {
                                Ok(ts) => Ok(
                                    ForkV { header, map: MapV { types: ts, names: ns } },
                                ),
                                Err(e) => Err(e),
                            }
                        },
                        Err(e) => Err(e),
                    }
                }
            }
        }
    }
}

/// An offset that falls before the table matches no entry.
pub proof fn lemma_find_name_index_neg(ns: Seq<Seq<u8>>, off: int)
    requires
        off < 0,
    ensures
        find_name_index(ns, off) == None::<int>,
    decreases ns.len(),
{
    if ns.len() > 0 {
        lemma_find_name_index_neg(ns.drop_first(), off - (1 + ns[0].len()));
    }
}

/// Decodes the 16-byte file header; fails on fewer than 16 bytes.
pub fn parse_header(bytes: &Vec<u8>) -> (r: Result<FileHeader, ParseError>)
    ensures
        match r {
            Ok(h) => bytes@.len() >= 16 && h == (FileHeader {
                data_block_offset: read_be32(bytes@, 0),
                resource_map_offset: read_be32(bytes@, 4),
                len_data_block: read_be32(bytes@, 8),
                len_resource_map: read_be32(bytes@, 12),
            }),
            Err(e) => bytes@.len() < 16 && e == ParseError::TruncatedInput,
        },
{
    if bytes.len() < 16 {
        return Err(ParseError::TruncatedInput);
    }
    Ok(FileHeader {
        data_block_offset: read_be32_at(bytes, 0),
        resource_map_offset: read_be32_at(bytes, 4),
        len_data_block: read_be32_at(bytes, 8),
        len_resource_map: read_be32_at(bytes, 12),
    })
}

/// Finds the name entry starting at byte offset `off`, counting entries
/// from index `i` on.
fn find_name_exec(names: &Vec<Vec<u8>>, i: usize, off: usize) -> (r: Option<usize>)
    requires
        i <= names@.len(),
    ensures
        match find_name_index(names.deep_view().skip(i as int), off as int) {
            Some(k) => 0 <= k && i + k < names@.len() && ((i + k) as usize) as int == i + k && r
                == Some((i + k) as usize),
            None => r == None::<usize>,
        },
    decreases names@.len() - i,
{
    let ghost s = names.deep_view().skip(i as int);
    let n = names.len();
    if i == n {
        proof {
            assert(s =~= Seq::<Seq<u8>>::empty());
        }
        None
    } else if off == 0 {
        Some(i)
    } else {
        proof {
            assert(s[0] == names.deep_view()[i as int]);
            assert(s.drop_first() =~= names.deep_view().skip(i as int + 1));
        }
        let l = names[i].len();
        if off - 1 < l {
            proof {
                lemma_find_name_index_neg(s.drop_first(), off - (1 + s[0].len()));
            }
            None
        } else {
            find_name_exec(names, i + 1, off - 1 - l)
        }
    }
}

/// Reads the name table sequentially from `pos` to the end of the region.
fn parse_names_exec(m: &Vec<u8>, pos: usize) -> (r: Result<Vec<Vec<u8>>, ParseError>)
    requires
        pos <= m@.len(),
    ensures
        match r {
            Ok(v) => parse_names_at(m@, pos as int) == Ok::<Seq<Seq<u8>>, ParseError>(
                v.deep_view(),
            ),
            Err(e) => parse_names_at(m@, pos as int) == Err::<Seq<Seq<u8>>, ParseError>(e),
        },
{
    let n = m.len();
    let mut acc: Vec<Vec<u8>> = Vec::new();
    let mut cur: usize = pos;
    proof {
        assert(acc.deep_view() =~= Seq::<Seq<u8>>::empty());
        assert(acc.deep_view() + parse_names_at(m@, pos as int)->Ok_0 =~= parse_names_at(
            m@,
            pos as int,
        )->Ok_0);
    }
    while cur < n
        invariant
            pos <= cur <= n,
            n == m@.len(),
            parse_names_at(m@, pos as int) == match parse_names_at(m@, cur as int) {
                Ok(rest) => Ok::<Seq<Seq<u8>>, ParseError>(acc.deep_view() + rest),
                Err(e) => Err::<Seq<Seq<u8>>, ParseError>(e),
            },
        decreases n - cur,
    {
        let len_b = m[cur] as usize;
        if len_b > n - cur - 1 {
            return Err(ParseError::TruncatedInput);
        }
        let name = copy_range(m, cur + 1, len_b);
        let ghost prev = acc@;
        let ghost pre = acc.deep_view();
        acc.push(name);
        proof {
            assert forall|q: int| 0 <= q < acc.deep_view().len() implies acc.deep_view()[q]
                == pre.push(name@)[q] by {
                if q < pre.len() {
                    assert(acc@[q] == prev[q]);
                } else {
                    assert(acc@[q] == name);
                }
            }
            assert(acc.deep_view() =~= pre.push(name@));
            let next = cur + 1 + len_b;
            if parse_names_at(m@, next as int) is Ok {
                let rest = parse_names_at(m@, next as int)->Ok_0;
                assert(parse_names_at(m@, cur as int) == Ok::<Seq<Seq<u8>>, ParseError>(
                    seq![name@] + rest,
                ));
                assert(pre + (seq![name@] + rest) =~= acc.deep_view() + rest);
            }
        }
        cur = cur + 1 + len_b;
    }
    proof {
        assert(acc.deep_view() + Seq::<Seq<u8>>::empty() =~= acc.deep_view());
    }
    Ok(acc)
}

/// Reads the length-prefixed payload at data-block offset `doff`.
fn parse_payload_exec(data: &Vec<u8>, doff: usize) -> (r: Result<Vec<u8>, ParseError>)
    requires
        doff <= 0xFFFFFF,
    ensures
        match r {
            Ok(p) => parse_payload(data@, doff as int) == Ok::<Seq<u8>, ParseError>(p@),
            Err(e) => parse_payload(data@, doff as int) == Err::<Seq<u8>, ParseError>(e),
        },
{
    let n = data.len();
    if doff + 4 > n {
        Err(ParseError::OffsetOutOfRange)
    } else {
        let plen32 = read_be32_at(data, doff);
        let plen = plen32 as usize;
        if plen > n - doff - 4 {
            Err(ParseError::OffsetOutOfRange)
        } else {
            Ok(copy_range(data, doff + 4, plen))
        }
    }
}

/// Reads one 12-byte reference entry at `pos` and resolves its name index
/// and its payload.
fn parse_ref_entry_exec(
    m: &Vec<u8>,
    pos: usize,
    data: &Vec<u8>,
    names: &Vec<Vec<u8>>,
) -> (r: Result<ResourceReference, ParseError>)
    ensures
        match r {
            Ok(rr) => parse_ref_entry(m@, pos as int, data@, names.deep_view()) == Ok::<
                RefV,
                ParseError,
            >(rr.deep_view()),
            Err(e) => parse_ref_entry(m@, pos as int, data@, names.deep_view()) == Err::<
                RefV,
                ParseError,
            >(e),
        },
{
    let n = m.len();
    if pos >= n || n - pos < 12 {
        return Err(ParseError::TruncatedInput);
    }
    let id_bits = read_be16_at(m, pos);
    let id: i16 = #[verifier::truncate] (id_bits as i16);
    let noff = read_be16_at(m, pos + 2);
    let word = read_be32_at(m, pos + 4);
    proof {
        assert(word >> 24 < 256 && (word & 0xFFFFFF) < 0x1000000) by (bit_vector);
    }
    let attributes = (word >> 24) as u8;
    let doff = (word & 0xFFFFFF) as usize;
    if noff == 0xFFFF {
        match parse_payload_exec(data, doff) {
            Ok(p) => Ok(ResourceReference { id, attributes, name: None, payload: p }),
            Err(e) => Err(e),
        }
    } else {
        proof {
            assert(names.deep_view().skip(0) =~= names.deep_view());
        }
        match find_name_exec(names, 0, noff as usize) {
            Some(k) => match parse_payload_exec(data, doff) {
                Ok(p) => Ok(ResourceReference { id, attributes, name: Some(k), payload: p }),
                Err(e) => Err(e),
            },
            None => Err(ParseError::OffsetOutOfRange),
        }
    }
}

/// Reads `count` consecutive reference entries starting at `pos`.
fn parse_ref_list_exec(
    m: &Vec<u8>,
    pos: usize,
    count: usize,
    data: &Vec<u8>,
    names: &Vec<Vec<u8>>,
) -> (r: Result<Vec<ResourceReference>, ParseError>)
    ensures
        match r {
            Ok(v) => parse_ref_list(m@, pos as int, count as nat, data@, names.deep_view())
                == Ok::<Seq<RefV>, ParseError>(v.deep_view()),
            Err(e) => parse_ref_list(m@, pos as int, count as nat, data@, names.deep_view())
                == Err::<Seq<RefV>, ParseError>(e),
        },
{
    let ghost ns = names.deep_view();
    let n = m.len();
    let mut acc: Vec<ResourceReference> = Vec::new();
    let mut i: usize = 0;
    let mut cur: usize = pos;
    proof {
        assert(acc.deep_view() =~= Seq::<RefV>::empty());
        if parse_ref_list(m@, pos as int, count as nat, data@, ns) is Ok {
            assert(acc.deep_view() + parse_ref_list(m@, pos as int, count as nat, data@, ns)->Ok_0
                =~= parse_ref_list(m@, pos as int, count as nat, data@, ns)->Ok_0);
        }
    }
    while i < count
        invariant
            i <= count,
            n == m@.len(),
            cur as int == pos + 12 * i,
            parse_ref_list(m@, pos as int, count as nat, data@, ns) == match parse_ref_list(
                m@,
                cur as int,
                (count - i) as nat,
                data@,
                ns,
            ) {
                Ok(rest) => Ok::<Seq<RefV>, ParseError>(acc.deep_view() + rest),
                Err(e) => Err::<Seq<RefV>, ParseError>(e),
            },
            ns == names.deep_view(),
        decreases count - i,
    {
        match parse_ref_entry_exec(m, cur, data, names) {
            Ok(rr) => {
                let ghost prev = acc@;
                let ghost pre = acc.deep_view();
                let ghost rv = rr.deep_view();
                acc.push(rr);
                proof {
                    assert forall|q: int| 0 <= q < acc.deep_view().len() implies acc
                        .deep_view()[q] == pre.push(rv)[q] by {
                        if q < pre.len() {
                            assert(acc@[q] == prev[q]);
                        } else {
                            assert(acc@[q] == rr);
                        }
                    }
                    assert(acc.deep_view() =~= pre.push(rv));
                    if parse_ref_list(m@, cur + 12, (count - i - 1) as nat, data@, ns) is Ok {
                        let rest = parse_ref_list(
                            m@,
                            cur + 12,
                            (count - i - 1) as nat,
                            data@,
                            ns,
                        )->Ok_0;
                        assert(parse_ref_list(m@, cur as int, (count - i) as nat, data@, ns)
                            == Ok::<Seq<RefV>, ParseError>(seq![rv] + rest));
                        assert(pre + (seq![rv] + rest) =~= acc.deep_view() + rest);
                    }
                }
                cur = cur + 12;
                i = i + 1;
            },
            Err(e) => {
                return Err(e);
            },
        }
    }
    proof {
        assert(acc.deep_view() + Seq::<RefV>::empty() =~= acc.deep_view());
    }
    Ok(acc)
}

/// Reads `count` consecutive type-list entries starting at `pos`, and each
/// entry's reference list at `tlo` plus the stored relative offset.
fn parse_type_list_exec(
    m: &Vec<u8>,
    tlo: usize,
    pos: usize,
    count: usize,
    data: &Vec<u8>,
    names: &Vec<Vec<u8>>,
) -> (r: Result<Vec<ResourceType>, ParseError>)
    requires
        tlo <= 0xFFFF,
    ensures
        match r {
            Ok(v) => parse_type_list(
                m@,
                tlo as int,
                pos as int,
                count as nat,
                data@,
                names.deep_view(),
            ) == Ok::<Seq<TypeV>, ParseError>(v.deep_view()),
            Err(e) => parse_type_list(
                m@,
                tlo as int,
                pos as int,
                count as nat,
                data@,
                names.deep_view(),
            ) == Err::<Seq<TypeV>, ParseError>(e),
        },
{
    let ghost ns = names.deep_view();
    let n = m.len();
    let mut acc: Vec<ResourceType> = Vec::new();
    let mut i: usize = 0;
    let mut cur: usize = pos;
    proof {
        assert(acc.deep_view() =~= Seq::<TypeV>::empty());
        let whole = parse_type_list(m@, tlo as int, pos as int, count as nat, data@, ns);
        if whole is Ok {
            assert(acc.deep_view() + whole->Ok_0 =~= whole->Ok_0);
        }
    }
    while i < count
        invariant
            i <= count,
            n == m@.len(),
            tlo <= 0xFFFF,
            cur as int == pos + 8 * i,
            parse_type_list(m@, tlo as int, pos as int, count as nat, data@, ns)
                == match parse_type_list(
                m@,
                tlo as int,
                cur as int,
                (count - i) as nat,
                data@,
                ns,
            ) {
                Ok(rest) => Ok::<Seq<TypeV>, ParseError>(acc.deep_view() + rest),
                Err(e) => Err::<Seq<TypeV>, ParseError>(e),
            },
            ns == names.deep_view(),
        decreases count - i,
    {
        if cur >= n || n - cur < 8 {
            return Err(ParseError::TruncatedInput);
        }
        let code = read_be32_at(m, cur);
        let stored = read_be16_at(m, cur + 4);
        let rc32 = (stored as u32) + 1;
        let rcount: usize = if rc32 == 0x10000 {
            0
        } else {
            rc32 as usize
        };
        let rlo = read_be16_at(m, cur + 6) as usize;
        match parse_ref_list_exec(m, tlo + rlo, rcount, data, names) {
            Ok(refs) => {
                let t = ResourceType { code, references: refs };
                let ghost prev = acc@;
                let ghost pre = acc.deep_view();
                let ghost tv = t.deep_view();
                acc.push(t);
                proof {
                    assert forall|q: int| 0 <= q < acc.deep_view().len() implies acc
                        .deep_view()[q] == pre.push(tv)[q] by {
                        if q < pre.len() {
                            assert(acc@[q] == prev[q]);
                        } else {
                            assert(acc@[q] == prev.push(t)[q]);
                        }
                    }
                    assert(acc.deep_view() =~= pre.push(tv));
                    if parse_type_list(m@, tlo as int, cur + 8, (count - i - 1) as nat, data@, ns)
                        is Ok {
                        let rest = parse_type_list(
                            m@,
                            tlo as int,
                            cur + 8,
                            (count - i - 1) as nat,
                            data@,
                            ns,
                        )->Ok_0;
                        assert(parse_type_list(
                            m@,
                            tlo as int,
                            cur as int,
                            (count - i) as nat,
                            data@,
                            ns,
                        ) == Ok::<Seq<TypeV>, ParseError>(seq![tv] + rest));
                        assert(pre + (seq![tv] + rest) =~= acc.deep_view() + rest);
                    }
                }
                cur = cur + 8;
                i = i + 1;
            },
            Err(e) => {
                return Err(e);
            },
        }
    }
    proof {
        assert(acc.deep_view() + Seq::<TypeV>::empty() =~= acc.deep_view());
    }
    Ok(acc)
}

/// Parses a raw fork image into a navigable fork.  The data block and the
/// map region are sliced by the header's own offset and length fields; the
/// result is exactly what [`spec_parse`] denotes.
pub fn parse(bytes: &Vec<u8>) -> (r: Result<ResourceFork, ParseError>)
    ensures
        match r {
            Ok(f) => spec_parse(bytes@) == Ok::<ForkV, ParseError>(f.deep_view()),
            Err(e) => spec_parse(bytes@) == Err::<ForkV, ParseError>(e),
        },
{
    let n = bytes.len();
    let header = match parse_header(bytes) {
        Ok(h) => h,
        Err(e) => {
            return Err(e);
        },
    };
    let dbo = header.data_block_offset;
    let rmo = header.resource_map_offset;
    let dl = header.len_data_block;
    let ml = header.len_resource_map;
    if (rmo as u64) != (dbo as u64) + (dl as u64) {
        return Err(ParseError::InconsistentHeader);
    }
    if (dbo as u64) + (dl as u64) > (n as u64) || (rmo as u64) + (ml as u64) > (n as u64) {
        return Err(ParseError::TruncatedInput);
    }
    let data = copy_range(bytes, dbo as usize, dl as usize);
    let m = copy_range(bytes, rmo as usize, ml as usize);
    if m.len() < 26 {
        return Err(ParseError::TruncatedInput);
    }
    let tlo = read_be16_at(&m, 22) as usize;
    let nlo = read_be16_at(&m, 24) as usize;
    if tlo + 2 > m.len() || nlo > m.len() {
        return Err(ParseError::TruncatedInput);
    }
    let names = match parse_names_exec(&m, nlo) {
        Ok(v) => v,
        Err(e) => {
            return Err(e);
        },
    };
    let stored = read_be16_at(&m, tlo);
    let rc32 = (stored as u32) + 1;
    let tcount: usize = if rc32 == 0x10000 {
        0
    } else {
        rc32 as usize
    };
    let types = match parse_type_list_exec(&m, tlo, tlo + 2, tcount, &data, &names) {
        Ok(v) => v,
        Err(e) => {
            return Err(e);
        },
    };
    let fork = ResourceFork { header, resource_map: ResourceMap { types, names } };
    proof {
        assert(spec_parse(bytes@) == Ok::<ForkV, ParseError>(fork.deep_view()));
    }
    Ok(fork)
}

} // verus!
