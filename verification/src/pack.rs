//! Re-linearizing a fork: the byte image every component emits, stated as
//! spec functions, and the executable `pack` proved to produce exactly that
//! image.  Every offset and length is recomputed from the current contents;
//! nothing stored in the in-memory fork is trusted.

use vstd::prelude::*;

use crate::bytes::{be16, be32, push_be16, push_be32, push_bytes};
use crate::model::{
    canonical_header, data_entry_len, distinct_ids, distinct_type_codes, map_encodable,
    map_layout_len, map_valid, names_table_len, names_valid, name_offset, refs_data_len,
    ref_valid, total_refs, type_valid, types_data_len, FileHeader, ForkV, MapV, PackError, RefV,
    ResourceFork, ResourceMap, ResourceReference, ResourceType, TypeV,
};

verus! {

/// `n` zero bytes: the reserved sub-header fields are zero on output.
pub open spec fn zeros(n: nat) -> Seq<u8> {
    Seq::new(n, |i: int| 0u8)
}

/// The stored form of a table count: count minus one, modulo 2^16, so that
/// an empty table stores 0xFFFF.
pub open spec fn count_field(n: int) -> u16 {
    ((n + 0xFFFF) % 0x10000) as u16
}

/// The stored name-offset field: 0xFFFF for a nameless reference, else the
/// entry's byte offset from the start of the name table.
pub open spec fn name_field(nm: Option<int>, ns: Seq<Seq<u8>>) -> u16 {
    match nm {
        None => 0xFFFF,
        Some(k) => name_offset(ns, k) as u16,
    }
}

/// Data-block image of one reference list: length-prefixed payloads in
/// list order.
pub open spec fn pack_data_refs(rs: Seq<RefV>) -> Seq<u8>
    decreases rs.len(),
{
    if rs.len() == 0 {
        Seq::empty()
    } else {
        be32(rs[0].payload.len() as u32) + rs[0].payload + pack_data_refs(rs.drop_first())
    }
}

/// Data-block image of the whole fork: reference lists in type order.
pub open spec fn pack_data(ts: Seq<TypeV>) -> Seq<u8>
    decreases ts.len(),
{
    if ts.len() == 0 {
        Seq::empty()
    } else {
        pack_data_refs(ts[0].references) + pack_data(ts.drop_first())
    }
}

/// Name-table image: one length byte and the name bytes, per entry.
pub open spec fn pack_names(ns: Seq<Seq<u8>>) -> Seq<u8>
    decreases ns.len(),
{
    if ns.len() == 0 {
        Seq::empty()
    } else {
        seq![ns[0].len() as u8] + ns[0] + pack_names(ns.drop_first())
    }
}

/// One 12-byte reference entry: id, name offset, attribute byte packed with
/// the 24-bit data offset, and a zeroed reserved handle.
pub open spec fn pack_ref_entry(r: RefV, doff: int, ns: Seq<Seq<u8>>) -> Seq<u8>
    recommends
        0 <= doff < 0x1000000,
{
    be16(r.id as u16) + be16(name_field(r.name, ns)) + be32(
        (r.attributes as u32) << 24 | (doff as u32),
    ) + be32(0)
}

/// One reference list, threading the running data-block offset.
pub open spec fn pack_ref_list(rs: Seq<RefV>, doff: int, ns: Seq<Seq<u8>>) -> Seq<u8>
    decreases rs.len(),
{
    if rs.len() == 0 {
        Seq::empty()
    } else {
        pack_ref_entry(rs[0], doff, ns) + pack_ref_list(
            rs.drop_first(),
            doff + data_entry_len(rs[0]),
            ns,
        )
    }
}

/// All reference lists concatenated in type order.
pub open spec fn pack_ref_lists(ts: Seq<TypeV>, doff: int, ns: Seq<Seq<u8>>) -> Seq<u8>
    decreases ts.len(),
{
    if ts.len() == 0 {
        Seq::empty()
    } else {
        pack_ref_list(ts[0].references, doff, ns) + pack_ref_lists(
            ts.drop_first(),
            doff + refs_data_len(ts[0].references),
            ns,
        )
    }
}

/// One 8-byte type-list entry: code, reference count minus one, and the
/// reference list's offset from the start of the type list.
pub open spec fn pack_type_entry(t: TypeV, rlo: int) -> Seq<u8> {
    be32(t.code) + be16(count_field(t.references.len() as int)) + be16(rlo as u16)
}

/// The type-list entries, threading the running reference-list offset.
pub open spec fn pack_type_list(ts: Seq<TypeV>, rlo: int) -> Seq<u8>
    decreases ts.len(),
{
    if ts.len() == 0 {
        Seq::empty()
    } else {
        pack_type_entry(ts[0], rlo) + pack_type_list(
            ts.drop_first(),
            rlo + 12 * ts[0].references.len(),
        )
    }
}

/// The whole map region: the 26-byte sub-header (22 reserved zero bytes,
/// the type-list offset, the name-list offset), the type count, the type
/// list, the reference lists, the name table.
pub open spec fn pack_map(m: MapV) -> Seq<u8> {
    let tcount = m.types.len() as int;
    let nlo = 28 + 8 * tcount + 12 * total_refs(m.types);
    zeros(22) + be16(26) + be16(nlo as u16) + be16(count_field(tcount)) + pack_type_list(
        m.types,
        2 + 8 * tcount,
    ) + pack_ref_lists(m.types, 0, m.names) + pack_names(m.names)
}

/// The 16-byte image of a file header.
pub open spec fn pack_header_bytes(h: FileHeader) -> Seq<u8> {
    be32(h.data_block_offset) + be32(h.resource_map_offset) + be32(h.len_data_block) + be32(
        h.len_resource_map,
    )
}

/// The byte image of a whole fork: header, data block, map.
pub open spec fn spec_pack(m: MapV) -> Seq<u8> {
    pack_header_bytes(canonical_header(m)) + pack_data(m.types) + pack_map(m)
}

/// The data-block image of a reference list is as long as its entries say.
pub proof fn lemma_pack_data_refs_len(rs: Seq<RefV>)
    ensures
        pack_data_refs(rs).len() == refs_data_len(rs),
    decreases rs.len(),
{
    if rs.len() > 0 {
        lemma_pack_data_refs_len(rs.drop_first());
    }
}

/// The data block is exactly `types_data_len` bytes.
pub proof fn lemma_pack_data_len(ts: Seq<TypeV>)
    ensures
        pack_data(ts).len() == types_data_len(ts),
    decreases ts.len(),
{
    if ts.len() > 0 {
        lemma_pack_data_refs_len(ts[0].references);
        lemma_pack_data_len(ts.drop_first());
    }
}

/// The name table is exactly `names_table_len` bytes.
pub proof fn lemma_pack_names_len(ns: Seq<Seq<u8>>)
    ensures
        pack_names(ns).len() == names_table_len(ns),
    decreases ns.len(),
{
    if ns.len() > 0 {
        lemma_pack_names_len(ns.drop_first());
    }
}

/// Each reference entry is 12 bytes.
pub proof fn lemma_pack_ref_list_len(rs: Seq<RefV>, doff: int, ns: Seq<Seq<u8>>)
    ensures
        pack_ref_list(rs, doff, ns).len() == 12 * rs.len(),
    decreases rs.len(),
{
    if rs.len() > 0 {
        lemma_pack_ref_list_len(rs.drop_first(), doff + data_entry_len(rs[0]), ns);
    }
}

/// The reference lists together hold 12 bytes per reference.
pub proof fn lemma_pack_ref_lists_len(ts: Seq<TypeV>, doff: int, ns: Seq<Seq<u8>>)
    ensures
        pack_ref_lists(ts, doff, ns).len() == 12 * total_refs(ts),
    decreases ts.len(),
{
    if ts.len() > 0 {
        lemma_pack_ref_list_len(ts[0].references, doff, ns);
        lemma_pack_ref_lists_len(ts.drop_first(), doff + refs_data_len(ts[0].references), ns);
    }
}

/// Each type-list entry is 8 bytes.
pub proof fn lemma_pack_type_list_len(ts: Seq<TypeV>, rlo: int)
    ensures
        pack_type_list(ts, rlo).len() == 8 * ts.len(),
    decreases ts.len(),
{
    if ts.len() > 0 {
        lemma_pack_type_list_len(ts.drop_first(), rlo + 12 * ts[0].references.len());
    }
}

/// The map region is exactly `map_layout_len` bytes.
pub proof fn lemma_pack_map_len(m: MapV)
    ensures
        pack_map(m).len() == map_layout_len(m),
{
    lemma_pack_type_list_len(m.types, 2 + 8 * m.types.len() as int);
    lemma_pack_ref_lists_len(m.types, 0, m.names);
    lemma_pack_names_len(m.names);
}

/// The whole image is header, data block and map, end to end.
pub proof fn lemma_spec_pack_len(m: MapV)
    ensures
        spec_pack(m).len() == 16 + types_data_len(m.types) + map_layout_len(m),
{
    lemma_pack_data_len(m.types);
    lemma_pack_map_len(m);
}

/// Encodes a file header as 16 big-endian bytes.
pub fn pack_header(header: FileHeader) -> (r: Vec<u8>)
    ensures
        r@ == pack_header_bytes(header),
{
    let mut out: Vec<u8> = Vec::new();
    push_be32(&mut out, header.data_block_offset);
    push_be32(&mut out, header.resource_map_offset);
    push_be32(&mut out, header.len_data_block);
    push_be32(&mut out, header.len_resource_map);
    proof {
        assert(out@ =~= pack_header_bytes(header));
    }
    out
}

/// Appends `n` zero bytes.
fn push_zeros(out: &mut Vec<u8>, n: usize)
    ensures
        final(out)@ == old(out)@ + zeros(n as nat),
{
    let mut i: usize = 0;
    while i < n
        invariant
            i <= n,
            out@ == old(out)@ + zeros(i as nat),
        decreases n - i,
    {
        out.push(0);
        assert(out@ =~= old(out)@ + zeros((i + 1) as nat));
        i = i + 1;
    }
}

/// The stored count for a table of `n` entries.
fn count_field_exec(n: usize) -> (r: u16)
    requires
        n <= 0xFFFF,
    ensures
        r == count_field(n as int),
{
    if n == 0 {
        0xFFFF
    } else {
        (n - 1) as u16
    }
}

/// Data-block byte count of the reference list's tail from `j` on.
fn data_len_refs_exec(rs: &Vec<ResourceReference>, j: usize) -> (r: u32)
    requires
        j <= rs@.len(),
        refs_data_len(rs.deep_view().skip(j as int)) <= 0xFFFFFF,
    ensures
        r == refs_data_len(rs.deep_view().skip(j as int)),
    decreases rs@.len() - j,
{
    let ghost s = rs.deep_view().skip(j as int);
    if j == rs.len() {
        proof {
            assert(s =~= Seq::<RefV>::empty());
        }
        0
    } else {
        proof {
            assert(s[0] == rs.deep_view()[j as int]);
            assert(s.drop_first() =~= rs.deep_view().skip(j as int + 1));
        }
        let pl = rs[j].payload.len();
        let rest = data_len_refs_exec(rs, j + 1);
        4 + (pl as u32) + rest
    }
}

/// Data-block byte count of the fork's tail from type `i` on.
fn data_len_exec(ts: &Vec<ResourceType>, i: usize) -> (r: u32)
    requires
        i <= ts@.len(),
        types_data_len(ts.deep_view().skip(i as int)) <= 0xFFFFFF,
    ensures
        r == types_data_len(ts.deep_view().skip(i as int)),
    decreases ts@.len() - i,
{
    let ghost s = ts.deep_view().skip(i as int);
    if i == ts.len() {
        proof {
            assert(s =~= Seq::<TypeV>::empty());
        }
        0
    } else {
        proof {
            assert(s[0] == ts.deep_view()[i as int]);
            assert(s.drop_first() =~= ts.deep_view().skip(i as int + 1));
            assert(ts[i as int].references.deep_view().skip(0) =~= s[0].references);
        }
        let here = data_len_refs_exec(&ts[i].references, 0);
        let rest = data_len_exec(ts, i + 1);
        here + rest
    }
}

/// Number of references from type `i` on.
fn total_refs_exec(ts: &Vec<ResourceType>, i: usize) -> (r: u32)
    requires
        i <= ts@.len(),
        total_refs(ts.deep_view().skip(i as int)) <= 0xFFFF,
    ensures
        r == total_refs(ts.deep_view().skip(i as int)),
    decreases ts@.len() - i,
{
    let ghost s = ts.deep_view().skip(i as int);
    if i == ts.len() {
        proof {
            assert(s =~= Seq::<TypeV>::empty());
        }
        0
    } else {
        proof {
            assert(s[0] == ts.deep_view()[i as int]);
            assert(s.drop_first() =~= ts.deep_view().skip(i as int + 1));
        }
        let here = ts[i].references.len();
        let rest = total_refs_exec(ts, i + 1);
        (here as u32) + rest
    }
}

/// Name-table byte count of the table's tail from entry `j` on.
fn names_len_exec(names: &Vec<Vec<u8>>, j: usize) -> (r: u32)
    requires
        j <= names@.len(),
        names_table_len(names.deep_view().skip(j as int)) <= 0xFFFF,
    ensures
        r == names_table_len(names.deep_view().skip(j as int)),
{
    let ghost s = names.deep_view();
    let mut i: usize = names.len();
    let mut acc: u32 = 0;
    proof {
        assert(s.skip(names@.len() as int) =~= Seq::<Seq<u8>>::empty());
    }
    while i > j
        invariant
            j <= i <= names@.len(),
            s == names.deep_view(),
            names_table_len(s.skip(j as int)) <= 0xFFFF,
            acc == names_table_len(s.skip(i as int)),
        decreases i,
    {
        i = i - 1;
        proof {
            assert(s.skip(i as int)[0] == s[i as int]);
            assert(s.skip(i as int).drop_first() =~= s.skip(i as int + 1));
            crate::model::lemma_names_table_len_suffix(s, j as int, i as int);
        }
        let here = names[i].len();
        acc = 1 + (here as u32) + acc;
    }
    acc
}

/// Byte offset of name entry `i + k`, counted from entry `i`.
fn name_offset_exec(names: &Vec<Vec<u8>>, i: usize, k: usize) -> (r: u32)
    requires
        i + k <= names@.len(),
        name_offset(names.deep_view().skip(i as int), k as int) <= 0xFFFF,
    ensures
        r == name_offset(names.deep_view().skip(i as int), k as int),
{
    let ghost s = names.deep_view().skip(i as int);
    // binds the length so the index sums below are known to fit a usize
    let n = names.len();
    let mut q: usize = 0;
    let mut acc: u32 = 0;
    while q < k
        invariant
            q <= k,
            i + k <= n,
            n == names@.len(),
            s == names.deep_view().skip(i as int),
            name_offset(s, k as int) <= 0xFFFF,
            acc == name_offset(s, q as int),
        decreases k - q,
    {
        proof {
            crate::model::lemma_name_offset_step(s, q as int);
            crate::model::lemma_name_offset_mono(s, q as int + 1, k as int);
            assert(s[q as int] == names.deep_view()[i + q]);
        }
        let here = names[i + q].len();
        acc = acc + 1 + (here as u32);
        q = q + 1;
    }
    acc
}

/// Appends the data-block image of the reference list's tail from `j` on.
fn pack_data_refs_exec(rs: &Vec<ResourceReference>, j: usize, out: &mut Vec<u8>)
    requires
        j <= rs@.len(),
        refs_data_len(rs.deep_view().skip(j as int)) <= 0xFFFFFF,
    ensures
        final(out)@ == old(out)@ + pack_data_refs(rs.deep_view().skip(j as int)),
    decreases rs@.len() - j,
{
    let ghost s = rs.deep_view().skip(j as int);
    if j == rs.len() {
        proof {
            assert(s =~= Seq::<RefV>::empty());
            assert(out@ =~= out@ + pack_data_refs(s));
        }
    } else {
        proof {
            assert(s[0] == rs.deep_view()[j as int]);
            assert(s.drop_first() =~= rs.deep_view().skip(j as int + 1));
        }
        let pl = rs[j].payload.len();
        push_be32(out, pl as u32);
        push_bytes(out, &rs[j].payload);
        pack_data_refs_exec(rs, j + 1, out);
        proof {
            assert(out@ =~= old(out)@ + pack_data_refs(s));
        }
    }
}

/// Appends the data-block image of the fork's tail from type `i` on.
fn pack_data_exec(ts: &Vec<ResourceType>, i: usize, out: &mut Vec<u8>)
    requires
        i <= ts@.len(),
        types_data_len(ts.deep_view().skip(i as int)) <= 0xFFFFFF,
    ensures
        final(out)@ == old(out)@ + pack_data(ts.deep_view().skip(i as int)),
    decreases ts@.len() - i,
{
    let ghost s = ts.deep_view().skip(i as int);
    if i == ts.len() {
        proof {
            assert(s =~= Seq::<TypeV>::empty());
            assert(out@ =~= out@ + pack_data(s));
        }
    } else {
        proof {
            assert(s[0] == ts.deep_view()[i as int]);
            assert(s.drop_first() =~= ts.deep_view().skip(i as int + 1));
            assert(ts[i as int].references.deep_view().skip(0) =~= s[0].references);
        }
        pack_data_refs_exec(&ts[i].references, 0, out);
        pack_data_exec(ts, i + 1, out);
        proof {
            assert(out@ =~= old(out)@ + pack_data(s));
        }
    }
}

/// Appends the name-table image from entry `j` on.
fn pack_names_exec(names: &Vec<Vec<u8>>, j: usize, out: &mut Vec<u8>)
    requires
        j <= names@.len(),
        names_valid(names.deep_view()),
    ensures
        final(out)@ == old(out)@ + pack_names(names.deep_view().skip(j as int)),
{
    let ghost s = names.deep_view();
    let n = names.len();
    let mut i: usize = j;
    proof {
        assert(out@ + pack_names(s.skip(j as int)) =~= old(out)@ + pack_names(s.skip(j as int)));
    }
    while i < n
        invariant
            j <= i <= n,
            n == names@.len(),
            s == names.deep_view(),
            names_valid(s),
            out@ + pack_names(s.skip(i as int)) == old(out)@ + pack_names(s.skip(j as int)),
        decreases n - i,
    {
        let ghost before = out@;
        proof {
            assert(s.skip(i as int)[0] == s[i as int]);
            assert(s.skip(i as int).drop_first() =~= s.skip(i as int + 1));
        }
        let here = names[i].len();
        out.push(here as u8);
        push_bytes(out, &names[i]);
        proof {
            assert(out@ + pack_names(s.skip(i as int + 1)) =~= before + pack_names(
                s.skip(i as int),
            ));
        }
        i = i + 1;
    }
    proof {
        assert(s.skip(n as int) =~= Seq::<Seq<u8>>::empty());
        assert(out@ + pack_names(s.skip(n as int)) =~= out@);
    }
}

/// Appends the reference-list image of the list's tail from `j` on,
/// threading the running data-block offset.
fn pack_ref_list_exec(
    rs: &Vec<ResourceReference>,
    j: usize,
    doff: u32,
    names: &Vec<Vec<u8>>,
    out: &mut Vec<u8>,
)
    requires
        j <= rs@.len(),
        doff + refs_data_len(rs.deep_view().skip(j as int)) <= 0xFFFFFF,
        forall|q: int|
            j <= q < rs@.len() ==> ref_valid(
                #[trigger] rs.deep_view()[q],
                names@.len() as int,
            ),
        names_valid(names.deep_view()),
        names_table_len(names.deep_view()) <= 0xFFFF,
    ensures
        final(out)@ == old(out)@ + pack_ref_list(
            rs.deep_view().skip(j as int),
            doff as int,
            names.deep_view(),
        ),
    decreases rs@.len() - j,
{
    let ghost s = rs.deep_view().skip(j as int);
    let ghost ns = names.deep_view();
    if j == rs.len() {
        proof {
            assert(s =~= Seq::<RefV>::empty());
            assert(out@ =~= out@ + pack_ref_list(s, doff as int, ns));
        }
    } else {
        proof {
            assert(s[0] == rs.deep_view()[j as int]);
            assert(s.drop_first() =~= rs.deep_view().skip(j as int + 1));
        }
        let id_bits: u16 = #[verifier::truncate] (rs[j].id as u16);
        push_be16(out, id_bits);
        let nf: u16 = match rs[j].name {
            None => 0xFFFF,
            Some(k) => {
                proof {
                    crate::model::lemma_name_offset_in_table(ns, k as int);
                    assert(names.deep_view().skip(0) =~= ns);
                }
                let off = name_offset_exec(names, 0, k);
                off as u16
            },
        };
        proof {
            assert(nf == name_field(s[0].name, ns));
        }
        push_be16(out, nf);
        let word = (rs[j].attributes as u32) << 24 | doff;
        push_be32(out, word);
        push_be32(out, 0);
        let pl = rs[j].payload.len();
        pack_ref_list_exec(rs, j + 1, doff + 4 + (pl as u32), names, out);
        proof {
            assert(out@ =~= old(out)@ + pack_ref_list(s, doff as int, ns));
        }
    }
}

/// Appends every reference list from type `i` on, in type order.
fn pack_ref_lists_exec(
    ts: &Vec<ResourceType>,
    i: usize,
    doff: u32,
    names: &Vec<Vec<u8>>,
    out: &mut Vec<u8>,
)
    requires
        i <= ts@.len(),
        doff + types_data_len(ts.deep_view().skip(i as int)) <= 0xFFFFFF,
        forall|q: int|
            i <= q < ts@.len() ==> type_valid(#[trigger] ts.deep_view()[q], names@.len() as int),
        names_valid(names.deep_view()),
        names_table_len(names.deep_view()) <= 0xFFFF,
    ensures
        final(out)@ == old(out)@ + pack_ref_lists(
            ts.deep_view().skip(i as int),
            doff as int,
            names.deep_view(),
        ),
    decreases ts@.len() - i,
{
    let ghost s = ts.deep_view().skip(i as int);
    let ghost ns = names.deep_view();
    if i == ts.len() {
        proof {
            assert(s =~= Seq::<TypeV>::empty());
            assert(out@ =~= out@ + pack_ref_lists(s, doff as int, ns));
        }
    } else {
        proof {
            assert(s[0] == ts.deep_view()[i as int]);
            assert(s.drop_first() =~= ts.deep_view().skip(i as int + 1));
            assert(ts[i as int].references.deep_view().skip(0) =~= s[0].references);
        }
        pack_ref_list_exec(&ts[i].references, 0, doff, names, out);
        let here = data_len_refs_exec(&ts[i].references, 0);
        pack_ref_lists_exec(ts, i + 1, doff + here, names, out);
        proof {
            assert(out@ =~= old(out)@ + pack_ref_lists(s, doff as int, ns));
        }
    }
}

/// Appends the type-list entries from type `i` on, threading the running
/// reference-list offset.
fn pack_type_list_exec(ts: &Vec<ResourceType>, i: usize, rlo: u32, out: &mut Vec<u8>)
    requires
        i <= ts@.len(),
        rlo + 12 * total_refs(ts.deep_view().skip(i as int)) <= 0xFFFF,
    ensures
        final(out)@ == old(out)@ + pack_type_list(ts.deep_view().skip(i as int), rlo as int),
    decreases ts@.len() - i,
{
    let ghost s = ts.deep_view().skip(i as int);
    if i == ts.len() {
        proof {
            assert(s =~= Seq::<TypeV>::empty());
            assert(out@ =~= out@ + pack_type_list(s, rlo as int));
        }
    } else {
        proof {
            assert(s[0] == ts.deep_view()[i as int]);
            assert(s.drop_first() =~= ts.deep_view().skip(i as int + 1));
        }
        push_be32(out, ts[i].code);
        let rcount = ts[i].references.len();
        push_be16(out, count_field_exec(rcount));
        push_be16(out, rlo as u16);
        pack_type_list_exec(ts, i + 1, rlo + 12 * (rcount as u32), out);
        proof {
            assert(out@ =~= old(out)@ + pack_type_list(s, rlo as int));
        }
    }
}

/// Does any pair of types share a code?
fn codes_distinct_exec(ts: &Vec<ResourceType>) -> (r: bool)
    ensures
        r == distinct_type_codes(ts.deep_view()),
{
    let ghost s = ts.deep_view();
    let mut i: usize = 0;
    while i < ts.len()
        invariant
            i <= ts@.len(),
            s == ts.deep_view(),
            forall|p: int, q: int| 0 <= p < q < s.len() && p < i ==> s[p].code != s[q].code,
        decreases ts@.len() - i,
    {
        let mut j: usize = i + 1;
        while j < ts.len()
            invariant
                i < j <= ts@.len(),
                s == ts.deep_view(),
                forall|q: int| i < q < j ==> s[i as int].code != s[q].code,
            decreases ts@.len() - j,
        {
            if ts[i].code == ts[j].code {
                proof {
                    assert(s[i as int].code == s[j as int].code);
                    assert(!distinct_type_codes(s));
                }
                return false;
            }
            j = j + 1;
        }
        i = i + 1;
    }
    true
}

/// Does any pair of references of this type share an id?
fn ids_distinct_exec(t: &ResourceType) -> (r: bool)
    ensures
        r == distinct_ids(t.deep_view()),
{
    let ghost s = t.deep_view();
    let rs = &t.references;
    let mut i: usize = 0;
    while i < rs.len()
        invariant
            i <= rs@.len(),
            s == t.deep_view(),
            rs@ == t.references@,
            forall|p: int, q: int|
                0 <= p < q < s.references.len() && p < i ==> s.references[p].id
                    != s.references[q].id,
        decreases rs@.len() - i,
    {
        let mut j: usize = i + 1;
        while j < rs.len()
            invariant
                i < j <= rs@.len(),
                s == t.deep_view(),
                rs@ == t.references@,
                forall|q: int| i < q < j ==> s.references[i as int].id != s.references[q].id,
            decreases rs@.len() - j,
        {
            if rs[i].id == rs[j].id {
                proof {
                    assert(s.references[i as int].id == s.references[j as int].id);
                    assert(!distinct_ids(s));
                }
                return false;
            }
            j = j + 1;
        }
        i = i + 1;
    }
    true
}

/// Decides `map_encodable`: unique type codes, unique ids within each type.
fn encodable_exec(m: &ResourceMap) -> (r: bool)
    ensures
        r == map_encodable(m.deep_view()),
{
    let ghost mv = m.deep_view();
    if !codes_distinct_exec(&m.types) {
        return false;
    }
    let mut i: usize = 0;
    while i < m.types.len()
        invariant
            i <= m.types@.len(),
            mv == m.deep_view(),
            distinct_type_codes(mv.types),
            forall|q: int| 0 <= q < i ==> distinct_ids(#[trigger] mv.types[q]),
        decreases m.types@.len() - i,
    {
        if !ids_distinct_exec(&m.types[i]) {
            proof {
                assert(!distinct_ids(mv.types[i as int]));
                assert(!map_encodable(mv));
            }
            return false;
        }
        i = i + 1;
    }
    true
}

/// Re-linearizes a fork: header, data block, then map, with every length
/// and offset recomputed from the current contents.  Succeeds on exactly
/// the forks whose type codes, and ids within each type, are unique.
pub fn pack(fork: &ResourceFork) -> (r: Result<Vec<u8>, PackError>)
    requires
        map_valid(fork.deep_view().map),
    ensures
        match r {
            Ok(b) => map_encodable(fork.deep_view().map) && b@ == spec_pack(fork.deep_view().map),
            Err(e) => e == PackError::MapIntegrityError && !map_encodable(fork.deep_view().map),
        },
{
    let m = &fork.resource_map;
    let ghost mv = m.deep_view();
    proof {
        assert(fork.deep_view().map == mv);
    }
    if !encodable_exec(m) {
        return Err(PackError::MapIntegrityError);
    }
    proof {
        assert(m.types.deep_view().skip(0) =~= mv.types);
        assert(m.names.deep_view().skip(0) =~= mv.names);
    }
    let dl = data_len_exec(&m.types, 0);
    let tr = total_refs_exec(&m.types, 0);
    let nl = names_len_exec(&m.names, 0);
    let tcount = m.types.len();
    let nlo: u32 = 28 + 8 * (tcount as u32) + 12 * tr;
    let ml: u32 = nlo + nl;
    let h = FileHeader {
        data_block_offset: 16,
        resource_map_offset: 16 + dl,
        len_data_block: dl,
        len_resource_map: ml,
    };
    proof {
        assert(h == canonical_header(mv));
    }
    let mut out = pack_header(h);
    pack_data_exec(&m.types, 0, &mut out);
    push_zeros(&mut out, 22);
    push_be16(&mut out, 26);
    push_be16(&mut out, nlo as u16);
    push_be16(&mut out, count_field_exec(tcount));
    pack_type_list_exec(&m.types, 0, 2 + 8 * (tcount as u32), &mut out);
    pack_ref_lists_exec(&m.types, 0, 0, &m.names, &mut out);
    pack_names_exec(&m.names, 0, &mut out);
    proof {
        assert(out@ =~= spec_pack(mv));
    }
    Ok(out)
}

} // verus!
