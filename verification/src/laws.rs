//! The codec's laws, proved once and for all: a well-formed fork, packed
//! and parsed again, comes back unchanged; removing a resource and
//! re-packing leaves no stale offset behind; name sharing survives a round
//! trip; a nameless reference is stored with the sentinel offset 0xFFFF.

use vstd::prelude::*;

use crate::bytes::{be16, be32, lemma_read_be16_at, lemma_read_be32_at, lemma_split_at, read_be16, read_be32};
use crate::model::{
    canonical_header, data_entry_len, lemma_name_offset_in_table, map_layout_len, map_valid,
    names_table_len, names_valid, name_offset, refs_data_len, ref_valid, remove_reference,
    total_refs, type_valid, types_data_len, ForkV, MapV, ParseError, RefV, TypeV,
};
use crate::pack::{
    count_field, lemma_pack_data_len, lemma_pack_data_refs_len, lemma_pack_map_len,
    lemma_pack_names_len, lemma_pack_ref_list_len, lemma_pack_ref_lists_len,
    lemma_pack_type_list_len, lemma_spec_pack_len, name_field, pack_data, pack_data_refs,
    pack_header_bytes, pack_map, pack_names, pack_ref_entry, pack_ref_list, pack_ref_lists,
    pack_type_entry, pack_type_list, spec_pack, zeros,
};
use crate::parse::{
    find_name_index, parse_names_at, parse_payload, parse_ref_entry, parse_ref_list,
    parse_type_list, spec_parse,
};

verus! {

/// The stored count field decodes back to the table's entry count.
proof fn lemma_count_field_inverse(n: int)
    requires
        0 <= n < 0x10000,
    ensures
        ((count_field(n) as int) + 1) % 0x10000 == n,
{
}

/// A 16-bit id survives the trip through its stored bit pattern.
proof fn lemma_id_bits(v: i16)
    ensures
        (v as u16) as i16 == v,
{
    assert((v as u16) as i16 == v) by (bit_vector);
}

/// Splitting the packed attribute/offset word recovers both halves.
proof fn lemma_attr_word(a: u8, d: u32)
    requires
        d < 0x1000000,
    ensures
        ((a as u32) << 24 | d) >> 24 == a as u32,
        (((a as u32) << 24 | d) >> 24) as u8 == a,
        ((a as u32) << 24 | d) & 0xFFFFFF == d,
{
    assert(((a as u32) << 24 | d) >> 24 == a as u32 && ((a as u32) << 24 | d) & 0xFFFFFF == d
        && (((a as u32) << 24 | d) >> 24) as u8 == a) by (bit_vector)
        requires
            d < 0x1000000,
    ;
}

/// The packed name table parses back to exactly its entries.
proof fn lemma_parse_names_of_pack(m: Seq<u8>, nlo: int, ns: Seq<Seq<u8>>)
    requires
        names_valid(ns),
        0 <= nlo <= m.len(),
        m.subrange(nlo, m.len() as int) == pack_names(ns),
    ensures
        parse_names_at(m, nlo) == Ok::<Seq<Seq<u8>>, ParseError>(ns),
    decreases ns.len(),
{
    lemma_pack_names_len(ns);
    if ns.len() == 0 {
        assert(m.len() - nlo == 0);
        assert(ns =~= Seq::<Seq<u8>>::empty());
    } else {
        let head = seq![ns[0].len() as u8] + ns[0];
        let rest = pack_names(ns.drop_first());
        lemma_pack_names_len(ns.drop_first());
        assert(m.subrange(nlo, nlo + head.len() + rest.len()) == head + rest);
        lemma_split_at(m, nlo, head, rest);
        lemma_split_at(m, nlo, seq![ns[0].len() as u8], ns[0]);
        assert(m[nlo] == ns[0].len() as u8) by {
            assert(m.subrange(nlo, nlo + 1)[0] == m[nlo]);
        }
        assert(m[nlo] as int == ns[0].len());
        assert(names_valid(ns.drop_first())) by {
            assert(forall|k: int|
                0 <= k < ns.drop_first().len() ==> #[trigger] ns.drop_first()[k] == ns[k + 1]);
        }
        lemma_parse_names_of_pack(m, nlo + 1 + ns[0].len(), ns.drop_first());
        assert(m.subrange(nlo + 1, nlo + 1 + ns[0].len()) == ns[0]);
        assert(parse_names_at(m, nlo) == Ok::<Seq<Seq<u8>>, ParseError>(
            seq![ns[0]] + ns.drop_first(),
        ));
        assert(seq![ns[0]] + ns.drop_first() =~= ns);
    }
}

/// The offset `pack` stores for name entry `k` resolves back to index `k`.
proof fn lemma_find_name_offset(ns: Seq<Seq<u8>>, k: int)
    requires
        0 <= k < ns.len(),
    ensures
        find_name_index(ns, name_offset(ns, k) as int) == Some(k),
    decreases k,
{
    if k > 0 {
        lemma_find_name_offset(ns.drop_first(), k - 1);
    }
}

/// A packed reference list, read back against the packed data block,
/// parses to exactly its references.
proof fn lemma_parse_ref_list_of_pack(
    m: Seq<u8>,
    d: Seq<u8>,
    rs: Seq<RefV>,
    pos: int,
    doff: int,
    ns: Seq<Seq<u8>>,
)
    requires
        0 <= pos,
        pos + 12 * rs.len() <= m.len(),
        0 <= doff,
        doff + refs_data_len(rs) <= d.len(),
        d.len() <= 0xFFFFFF,
        m.subrange(pos, pos + 12 * rs.len()) == pack_ref_list(rs, doff, ns),
        d.subrange(doff, doff + refs_data_len(rs)) == pack_data_refs(rs),
        forall|q: int| 0 <= q < rs.len() ==> ref_valid(#[trigger] rs[q], ns.len() as int),
        names_table_len(ns) <= 0xFFFF,
    ensures
        parse_ref_list(m, pos, rs.len() as nat, d, ns) == Ok::<Seq<RefV>, ParseError>(rs),
    decreases rs.len(),
{
    if rs.len() == 0 {
        assert(rs =~= Seq::<RefV>::empty());
    } else {
        let r0 = rs[0];
        let entry = pack_ref_entry(r0, doff, ns);
        let restm = pack_ref_list(rs.drop_first(), doff + data_entry_len(r0), ns);
        lemma_pack_ref_list_len(rs.drop_first(), doff + data_entry_len(r0), ns);
        let a = be16(r0.id as u16);
        let b = be16(name_field(r0.name, ns));
        let c = be32((r0.attributes as u32) << 24 | (doff as u32));
        let z = be32(0);
        assert(m.subrange(pos, pos + entry.len() + restm.len()) == entry + restm);
        lemma_split_at(m, pos, entry, restm);
        assert(m.subrange(pos, pos + 12) == ((a + b) + c) + z);
        lemma_split_at(m, pos, (a + b) + c, z);
        lemma_split_at(m, pos, a + b, c);
        lemma_split_at(m, pos, a, b);
        lemma_read_be16_at(m, pos, r0.id as u16);
        lemma_read_be16_at(m, pos + 2, name_field(r0.name, ns));
        lemma_read_be32_at(m, pos + 4, (r0.attributes as u32) << 24 | (doff as u32));
        lemma_id_bits(r0.id);
        assert(refs_data_len(rs) == data_entry_len(r0) + refs_data_len(rs.drop_first()));
        assert(doff < 0x1000000);
        lemma_attr_word(r0.attributes, doff as u32);
        let word = read_be32(m, pos + 4);
        assert((word >> 24) as u8 == r0.attributes);
        assert((word & 0xFFFFFF) as int == doff);
        let dhead = be32(r0.payload.len() as u32) + r0.payload;
        let drest = pack_data_refs(rs.drop_first());
        lemma_pack_data_refs_len(rs.drop_first());
        assert(d.subrange(doff, doff + dhead.len() + drest.len()) == dhead + drest);
        lemma_split_at(d, doff, dhead, drest);
        lemma_split_at(d, doff, be32(r0.payload.len() as u32), r0.payload);
        lemma_read_be32_at(d, doff, r0.payload.len() as u32);
        assert(read_be32(d, doff) as int == r0.payload.len());
        assert(parse_payload(d, doff) == Ok::<Seq<u8>, ParseError>(r0.payload)) by {
            assert(d.subrange(doff + 4, doff + 4 + r0.payload.len()) == r0.payload);
        }
        let noff = read_be16(m, pos + 2);
        match r0.name {
            None => {
                assert(noff == 0xFFFF);
                assert(parse_ref_entry(m, pos, d, ns) == Ok::<RefV, ParseError>(RefV {
                    id: r0.id,
                    attributes: r0.attributes,
                    name: None,
                    payload: r0.payload,
                }));
                assert(RefV { id: r0.id, attributes: r0.attributes, name: None, payload: r0.payload }
                    =~= r0);
            },
            Some(k) => {
                lemma_name_offset_in_table(ns, k);
                assert(name_offset(ns, k) < 0xFFFF);
                assert(noff as int == name_offset(ns, k));
                lemma_find_name_offset(ns, k);
                assert(find_name_index(ns, noff as int) == Some(k));
                assert(parse_ref_entry(m, pos, d, ns) == Ok::<RefV, ParseError>(RefV {
                    id: r0.id,
                    attributes: r0.attributes,
                    name: Some(k),
                    payload: r0.payload,
                }));
                assert(RefV {
                    id: r0.id,
                    attributes: r0.attributes,
                    name: Some(k),
                    payload: r0.payload,
                } =~= r0);
            },
        }
        assert(forall|q: int|
            0 <= q < rs.drop_first().len() ==> #[trigger] rs.drop_first()[q] == rs[q + 1]);
        lemma_parse_ref_list_of_pack(
            m,
            d,
            rs.drop_first(),
            pos + 12,
            doff + data_entry_len(r0),
            ns,
        );
        assert(seq![r0] + rs.drop_first() =~= rs);
    }
}

/// A packed type list, with its reference lists and data block, parses to
/// exactly its types.  `pos` is the first entry's position, `rlo` the
/// type-list-relative offset of the first reference list, `doff` the
/// data-block offset of the first payload.
proof fn lemma_parse_type_list_of_pack(
    m: Seq<u8>,
    d: Seq<u8>,
    ts: Seq<TypeV>,
    pos: int,
    rlo: int,
    doff: int,
    ns: Seq<Seq<u8>>,
)
    requires
        0 <= pos,
        pos + 8 * ts.len() <= m.len(),
        0 <= rlo,
        rlo + 12 * total_refs(ts) <= 0xFFFF,
        26 + rlo + 12 * total_refs(ts) <= m.len(),
        0 <= doff,
        doff + types_data_len(ts) <= d.len(),
        d.len() <= 0xFFFFFF,
        m.subrange(pos, pos + 8 * ts.len()) == pack_type_list(ts, rlo),
        m.subrange(26 + rlo, 26 + rlo + 12 * total_refs(ts)) == pack_ref_lists(ts, doff, ns),
        d.subrange(doff, doff + types_data_len(ts)) == pack_data(ts),
        forall|q: int| 0 <= q < ts.len() ==> type_valid(#[trigger] ts[q], ns.len() as int),
        names_table_len(ns) <= 0xFFFF,
    ensures
        parse_type_list(m, 26, pos, ts.len() as nat, d, ns) == Ok::<Seq<TypeV>, ParseError>(ts),
    decreases ts.len(),
{
    if ts.len() == 0 {
        assert(ts =~= Seq::<TypeV>::empty());
    } else {
        let t0 = ts[0];
        let rest = ts.drop_first();
        let rc = t0.references.len() as int;
        assert(total_refs(ts) == t0.references.len() + total_refs(rest));
        assert(types_data_len(ts) == refs_data_len(t0.references) + types_data_len(rest));
        let entry = pack_type_entry(t0, rlo);
        let restm = pack_type_list(rest, rlo + 12 * rc);
        lemma_pack_type_list_len(rest, rlo + 12 * rc);
        let a = be32(t0.code);
        let b = be16(count_field(rc));
        let c = be16(rlo as u16);
        assert(m.subrange(pos, pos + entry.len() + restm.len()) == entry + restm);
        lemma_split_at(m, pos, entry, restm);
        assert(m.subrange(pos, pos + 8) == (a + b) + c);
        lemma_split_at(m, pos, a + b, c);
        lemma_split_at(m, pos, a, b);
        lemma_read_be32_at(m, pos, t0.code);
        lemma_read_be16_at(m, pos + 4, count_field(rc));
        lemma_read_be16_at(m, pos + 6, rlo as u16);
        assert(rc < 0x10000);
        lemma_count_field_inverse(rc);
        assert(read_be16(m, pos + 6) as int == rlo);
        let rl0 = pack_ref_list(t0.references, doff, ns);
        let rlrest = pack_ref_lists(rest, doff + refs_data_len(t0.references), ns);
        lemma_pack_ref_list_len(t0.references, doff, ns);
        lemma_pack_ref_lists_len(rest, doff + refs_data_len(t0.references), ns);
        assert(m.subrange(26 + rlo, 26 + rlo + rl0.len() + rlrest.len()) == rl0 + rlrest);
        lemma_split_at(m, 26 + rlo, rl0, rlrest);
        let d0 = pack_data_refs(t0.references);
        let drest = pack_data(rest);
        lemma_pack_data_refs_len(t0.references);
        lemma_pack_data_len(rest);
        assert(d.subrange(doff, doff + d0.len() + drest.len()) == d0 + drest);
        lemma_split_at(d, doff, d0, drest);
        assert(type_valid(ts[0], ns.len() as int));
        lemma_parse_ref_list_of_pack(m, d, t0.references, 26 + rlo, doff, ns);
        assert(forall|q: int|
            0 <= q < rest.len() ==> #[trigger] rest[q] == ts[q + 1]);
        lemma_parse_type_list_of_pack(
            m,
            d,
            rest,
            pos + 8,
            rlo + 12 * rc,
            doff + refs_data_len(t0.references),
            ns,
        );
        assert(TypeV { code: t0.code, references: t0.references } =~= t0);
        assert(seq![t0] + rest =~= ts);
    }
}

/// Where each piece of the packed map region sits, and what the three
/// sub-header reads return.
proof fn lemma_pack_map_fields(m: MapV)
    requires
        map_valid(m),
    ensures
        ({
            let pm = pack_map(m);
            let tn = m.types.len() as int;
            let nlo = 28 + 8 * tn + 12 * total_refs(m.types);
            &&& pm.len() == map_layout_len(m)
            &&& read_be16(pm, 22) == 26
            &&& read_be16(pm, 24) == (nlo as u16)
            &&& read_be16(pm, 26) == count_field(tn)
            &&& pm.subrange(28, 28 + 8 * tn) == pack_type_list(m.types, 2 + 8 * tn)
            &&& pm.subrange(28 + 8 * tn, nlo as int) == pack_ref_lists(m.types, 0, m.names)
            &&& pm.subrange(nlo as int, pm.len() as int) == pack_names(m.names)
        }),
{
    let pm = pack_map(m);
    let ml = map_layout_len(m) as int;
    let tn = m.types.len() as int;
    let tr = total_refs(m.types) as int;
    let nlo = 28 + 8 * tn + 12 * tr;
    lemma_pack_map_len(m);
    let z = zeros(22);
    let s1 = be16(26);
    let s2 = be16(nlo as u16);
    let s3 = be16(count_field(tn));
    let tl = pack_type_list(m.types, 2 + 8 * tn);
    let rl = pack_ref_lists(m.types, 0, m.names);
    let nsb = pack_names(m.names);
    lemma_pack_type_list_len(m.types, 2 + 8 * tn);
    lemma_pack_ref_lists_len(m.types, 0, m.names);
    lemma_pack_names_len(m.names);
    assert(pm.subrange(0, pm.len() as int) =~= pm);
    assert(pm.subrange(0, ml) == (((((z + s1) + s2) + s3) + tl) + rl) + nsb);
    lemma_split_at(pm, 0, ((((z + s1) + s2) + s3) + tl) + rl, nsb);
    lemma_split_at(pm, 0, (((z + s1) + s2) + s3) + tl, rl);
    lemma_split_at(pm, 0, ((z + s1) + s2) + s3, tl);
    lemma_split_at(pm, 0, (z + s1) + s2, s3);
    lemma_split_at(pm, 0, z + s1, s2);
    lemma_split_at(pm, 0, z, s1);
    lemma_read_be16_at(pm, 22, 26);
    lemma_read_be16_at(pm, 24, nlo as u16);
    lemma_read_be16_at(pm, 26, count_field(tn));
}

/// Where the data block and the map region sit in the whole image, and
/// what the four header reads return.
proof fn lemma_spec_pack_regions(m: MapV)
    requires
        map_valid(m),
    ensures
        ({
            let s = spec_pack(m);
            let h = canonical_header(m);
            let dl = types_data_len(m.types) as int;
            let ml = map_layout_len(m) as int;
            &&& s.len() == 16 + dl + ml
            &&& read_be32(s, 0) == h.data_block_offset
            &&& read_be32(s, 4) == h.resource_map_offset
            &&& read_be32(s, 8) == h.len_data_block
            &&& read_be32(s, 12) == h.len_resource_map
            &&& s.subrange(16, 16 + dl) == pack_data(m.types)
            &&& s.subrange(16 + dl, 16 + dl + ml) == pack_map(m)
        }),
{
    let s = spec_pack(m);
    let h = canonical_header(m);
    let dl = types_data_len(m.types) as int;
    let ml = map_layout_len(m) as int;
    lemma_spec_pack_len(m);
    lemma_pack_data_len(m.types);
    lemma_pack_map_len(m);
    let ph = pack_header_bytes(h);
    let pd = pack_data(m.types);
    let pm = pack_map(m);
    assert(s.subrange(0, s.len() as int) =~= s);
    assert(s.subrange(0, 16 + dl + ml) == (ph + pd) + pm);
    lemma_split_at(s, 0, ph + pd, pm);
    lemma_split_at(s, 0, ph, pd);
    let h1 = be32(h.data_block_offset);
    let h2 = be32(h.resource_map_offset);
    let h3 = be32(h.len_data_block);
    let h4 = be32(h.len_resource_map);
    assert(s.subrange(0, 16) == ((h1 + h2) + h3) + h4);
    lemma_split_at(s, 0, (h1 + h2) + h3, h4);
    lemma_split_at(s, 0, h1 + h2, h3);
    lemma_split_at(s, 0, h1, h2);
    lemma_read_be32_at(s, 0, h.data_block_offset);
    lemma_read_be32_at(s, 4, h.resource_map_offset);
    lemma_read_be32_at(s, 8, h.len_data_block);
    lemma_read_be32_at(s, 12, h.len_resource_map);
}

/// The round trip: packing any well-formed map and parsing the image gives
/// back exactly that map, under the header the contents determine.  Every
/// stored offset in the image therefore resolves to the right payload and
/// the right name.
#[verifier::rlimit(100)]
pub proof fn lemma_spec_round_trip(m: MapV)
    requires
        map_valid(m),
    ensures
        spec_parse(spec_pack(m)) == Ok::<ForkV, ParseError>(
            ForkV { header: canonical_header(m), map: m },
        ),
{
    let s = spec_pack(m);
    let h = canonical_header(m);
    let dl = types_data_len(m.types) as int;
    let ml = map_layout_len(m) as int;
    let tn = m.types.len() as int;
    let tr = total_refs(m.types) as int;
    let nlo = 28 + 8 * tn + 12 * tr;
    lemma_spec_pack_regions(m);
    lemma_pack_map_fields(m);
    assert(h.data_block_offset as int == 16);
    assert(h.resource_map_offset as int == 16 + dl);
    assert(h.len_data_block as int == dl);
    assert(h.len_resource_map as int == ml);
    let data = s.subrange(16, 16 + dl);
    let mm = s.subrange(16 + dl, 16 + dl + ml);
    assert(read_be16(mm, 24) as int == nlo);
    lemma_parse_names_of_pack(mm, nlo, m.names);
    lemma_count_field_inverse(tn);
    assert(data.subrange(0, types_data_len(m.types) as int) =~= data);
    lemma_parse_type_list_of_pack(mm, data, m.types, 28, 2 + 8 * tn, 0, m.names);
    assert(spec_parse(s) == Ok::<ForkV, ParseError>(
        ForkV { header: h, map: MapV { types: m.types, names: m.names } },
    ));
    assert(ForkV { header: h, map: MapV { types: m.types, names: m.names } } =~= ForkV {
        header: h,
        map: m,
    });
}

/// Round-trip identity at byte level: a well-formed fork image — one that
/// some well-formed map packs to — parses, and re-packing the parsed fork
/// reproduces it byte for byte.
pub proof fn lemma_pack_of_parse_identity(b: Seq<u8>, m: MapV)
    requires
        map_valid(m),
        b == spec_pack(m),
    ensures
        spec_parse(b) is Ok,
        spec_pack(spec_parse(b)->Ok_0.map) == b,
{
    lemma_spec_round_trip(m);
}

/// Removing one reference shrinks the data-block total by that entry.
proof fn lemma_refs_data_len_remove(rs: Seq<RefV>, j: int)
    requires
        0 <= j < rs.len(),
    ensures
        refs_data_len(rs.remove(j)) + data_entry_len(rs[j]) == refs_data_len(rs),
    decreases j,
{
    if j == 0 {
        assert(rs.remove(0) =~= rs.drop_first());
    } else {
        assert(rs.remove(j).drop_first() =~= rs.drop_first().remove(j - 1));
        assert(rs.remove(j)[0] == rs[0]);
        lemma_refs_data_len_remove(rs.drop_first(), j - 1);
    }
}

/// Swapping one type for another changes the data-block total by the
/// difference of their reference lists.
proof fn lemma_types_data_len_update(ts: Seq<TypeV>, i: int, t: TypeV)
    requires
        0 <= i < ts.len(),
    ensures
        types_data_len(ts.update(i, t)) + refs_data_len(ts[i].references) == types_data_len(ts)
            + refs_data_len(t.references),
        total_refs(ts.update(i, t)) + ts[i].references.len() == total_refs(ts)
            + t.references.len(),
    decreases i,
{
    if i == 0 {
        assert(ts.update(0, t).drop_first() =~= ts.drop_first());
        assert(ts.update(0, t)[0] == t);
    } else {
        assert(ts.update(i, t).drop_first() =~= ts.drop_first().update(i - 1, t));
        assert(ts.update(i, t)[0] == ts[0]);
        lemma_types_data_len_update(ts.drop_first(), i - 1, t);
    }
}

/// Deleting a reference keeps the map well formed.
proof fn lemma_remove_reference_valid(m: MapV, i: int, j: int)
    requires
        map_valid(m),
        0 <= i < m.types.len(),
        0 <= j < m.types[i].references.len(),
    ensures
        map_valid(remove_reference(m, i, j)),
{
    let m2 = remove_reference(m, i, j);
    let t2 = TypeV { code: m.types[i].code, references: m.types[i].references.remove(j) };
    lemma_refs_data_len_remove(m.types[i].references, j);
    lemma_types_data_len_update(m.types, i, t2);
    assert forall|q: int| 0 <= q < m2.types.len() implies type_valid(
        #[trigger] m2.types[q],
        m2.names.len() as int,
    ) by {
        assert(type_valid(m.types[q], m.names.len() as int));
        if q == i {
            assert forall|p: int| 0 <= p < t2.references.len() implies ref_valid(
                #[trigger] t2.references[p],
                m.names.len() as int,
            ) by {
                if p < j {
                    assert(t2.references[p] == m.types[i].references[p]);
                } else {
                    assert(t2.references[p] == m.types[i].references[p + 1]);
                }
            }
        }
    }
}

/// Offset recomputation: after deleting one resource, the re-packed image
/// parses to exactly the edited fork — every remaining reference's stored
/// data and name offsets resolve to the right payload and name, so no stale
/// offset survives the edit.
pub proof fn lemma_remove_then_repack(m: MapV, i: int, j: int)
    requires
        map_valid(m),
        0 <= i < m.types.len(),
        0 <= j < m.types[i].references.len(),
    ensures
        map_valid(remove_reference(m, i, j)),
        spec_parse(spec_pack(remove_reference(m, i, j))) == Ok::<ForkV, ParseError>(
            ForkV {
                header: canonical_header(remove_reference(m, i, j)),
                map: remove_reference(m, i, j),
            },
        ),
{
    lemma_remove_reference_valid(m, i, j);
    lemma_spec_round_trip(remove_reference(m, i, j));
}

/// Name sharing: two references that point at the same name-table entry
/// still resolve to the identical name after an unmodified round trip.
pub proof fn lemma_name_sharing_round_trip(m: MapV, i1: int, j1: int, i2: int, j2: int, k: int)
    requires
        map_valid(m),
        0 <= i1 < m.types.len(),
        0 <= j1 < m.types[i1].references.len(),
        0 <= i2 < m.types.len(),
        0 <= j2 < m.types[i2].references.len(),
        m.types[i1].references[j1].name == Some(k),
        m.types[i2].references[j2].name == Some(k),
    ensures
        ({
            let parsed = spec_parse(spec_pack(m));
            &&& parsed is Ok
            &&& 0 <= k < parsed->Ok_0.map.names.len()
            &&& parsed->Ok_0.map.types[i1].references[j1].name == Some(k)
            &&& parsed->Ok_0.map.types[i2].references[j2].name == Some(k)
            &&& parsed->Ok_0.map.names[k] == m.names[k]
        }),
{
    lemma_spec_round_trip(m);
    assert(type_valid(m.types[i1], m.names.len() as int));
    assert(ref_valid(m.types[i1].references[j1], m.names.len() as int));
}

/// The absent-name sentinel: a reference entry stores 0xFFFF in its name-offset
/// field exactly when the reference has no name; a named reference's field
/// is always a real table offset, strictly below the sentinel.
pub proof fn lemma_absent_name_sentinel(r: RefV, doff: int, ns: Seq<Seq<u8>>)
    requires
        names_table_len(ns) <= 0xFFFF,
        match r.name {
            Some(k) => 0 <= k < ns.len(),
            None => true,
        },
    ensures
        pack_ref_entry(r, doff, ns).subrange(2, 4) == be16(name_field(r.name, ns)),
        r.name is None <==> name_field(r.name, ns) == 0xFFFF,
{
    let a = be16(r.id as u16);
    let b = be16(name_field(r.name, ns));
    let c = be32((r.attributes as u32) << 24 | (doff as u32));
    let z = be32(0);
    let entry = pack_ref_entry(r, doff, ns);
    assert(entry.subrange(0, entry.len() as int) =~= entry);
    assert(entry.subrange(0, 12) == ((a + b) + c) + z);
    lemma_split_at(entry, 0, (a + b) + c, z);
    lemma_split_at(entry, 0, a + b, c);
    lemma_split_at(entry, 0, a, b);
    match r.name {
        None => {},
        Some(k) => {
            lemma_name_offset_in_table(ns, k);
            assert(name_offset(ns, k) < 0xFFFF);
        },
    }
}

} // verus!
