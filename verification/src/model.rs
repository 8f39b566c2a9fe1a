//! The in-memory shape of a resource fork, its mathematical view, and the
//! well-formedness conditions the codec works with.
//!
//! A fork is a file header plus a resource map.  The map owns an ordered
//! list of resource types, each with its ordered reference list, and the
//! ordered name table.  A reference addresses its (optional) name by index
//! into the table, never by a stored byte offset: every offset in the byte
//! form is recomputed when the fork is packed.

use vstd::prelude::*;

verus! {

/// The 16-byte fork header: four unsigned 32-bit big-endian fields.
///
/// `resource_map_offset == data_block_offset + len_data_block` on every
/// conforming fork: the map region follows the data block immediately.
#[derive(Clone, Copy, Debug, PartialEq, Eq, Structural)]
pub struct FileHeader {
    pub data_block_offset: u32,
    pub resource_map_offset: u32,
    pub len_data_block: u32,
    pub len_resource_map: u32,
}

/// One resource: an id unique within its type, an opaque attribute byte,
/// an optional name (an index into the map's name table), and the owned
/// payload bytes.
#[derive(Clone, Debug)]
pub struct ResourceReference {
    pub id: i16,
    pub attributes: u8,
    pub name: Option<usize>,
    pub payload: Vec<u8>,
}

/// A four-byte type code (stored big-endian) and the ordered references
/// sharing that code.
#[derive(Clone, Debug)]
pub struct ResourceType {
    pub code: u32,
    pub references: Vec<ResourceReference>,
}

/// The resource map: the ordered type list and the ordered name table.
/// Names are Pascal-style strings of at most 255 bytes; several references
/// may share one table entry, and that sharing is preserved by the codec.
#[derive(Clone, Debug)]
pub struct ResourceMap {
    pub types: Vec<ResourceType>,
    pub names: Vec<Vec<u8>>,
}

/// The whole container: header plus resource map.  Payload bytes live in
/// the references; there is no separate raw data-block buffer to go stale.
#[derive(Clone, Debug)]
pub struct ResourceFork {
    pub header: FileHeader,
    pub resource_map: ResourceMap,
}

/// Why a byte sequence was rejected.
#[derive(Clone, Copy, Debug, PartialEq, Eq, Structural)]
pub enum ParseError {
    /// A declared region reaches past the end of the available bytes.
    TruncatedInput,
    /// The header's offset/length fields break the contiguity invariant.
    InconsistentHeader,
    /// A reference points outside its region, or between name entries.
    OffsetOutOfRange,
}

/// Why an in-memory fork was refused by `pack`.
#[derive(Clone, Copy, Debug, PartialEq, Eq, Structural)]
pub enum PackError {
    /// A duplicate type code, or a duplicate id within one type.
    MapIntegrityError,
}

/// Mathematical view of a reference.
#[verifier::ext_equal]
pub struct RefV {
    pub id: i16,
    pub attributes: u8,
    pub name: Option<int>,
    pub payload: Seq<u8>,
}

/// Mathematical view of a type and its reference list.
#[verifier::ext_equal]
pub struct TypeV {
    pub code: u32,
    pub references: Seq<RefV>,
}

/// Mathematical view of a resource map.
#[verifier::ext_equal]
pub struct MapV {
    pub types: Seq<TypeV>,
    pub names: Seq<Seq<u8>>,
}

/// Mathematical view of a whole fork.
#[verifier::ext_equal]
pub struct ForkV {
    pub header: FileHeader,
    pub map: MapV,
}

impl DeepView for ResourceReference {
    type V = RefV;

    open spec fn deep_view(&self) -> RefV {
        RefV {
            id: self.id,
            attributes: self.attributes,
            name: match self.name {
                Some(k) => Some(k as int),
                None => None,
            },
            payload: self.payload@,
        }
    }
}

impl DeepView for ResourceType {
    type V = TypeV;

    open spec fn deep_view(&self) -> TypeV {
        TypeV { code: self.code, references: self.references.deep_view() }
    }
}

impl DeepView for ResourceMap {
    type V = MapV;

    open spec fn deep_view(&self) -> MapV {
        MapV { types: self.types.deep_view(), names: self.names.deep_view() }
    }
}

impl DeepView for ResourceFork {
    type V = ForkV;

    open spec fn deep_view(&self) -> ForkV {
        ForkV { header: self.header, map: self.resource_map.deep_view() }
    }
}

/// Bytes one reference occupies in the data block: a 4-byte length prefix
/// plus the payload.
pub open spec fn data_entry_len(r: RefV) -> nat {
    4 + r.payload.len()
}

/// Bytes a reference list occupies in the data block.
pub open spec fn refs_data_len(rs: Seq<RefV>) -> nat
    decreases rs.len(),
{
    if rs.len() == 0 {
        0
    } else {
        data_entry_len(rs[0]) + refs_data_len(rs.drop_first())
    }
}

/// Bytes the whole data block occupies.
pub open spec fn types_data_len(ts: Seq<TypeV>) -> nat
    decreases ts.len(),
{
    if ts.len() == 0 {
        0
    } else {
        refs_data_len(ts[0].references) + types_data_len(ts.drop_first())
    }
}

/// Number of references over all types, in traversal order.
pub open spec fn total_refs(ts: Seq<TypeV>) -> nat
    decreases ts.len(),
{
    if ts.len() == 0 {
        0
    } else {
        ts[0].references.len() + total_refs(ts.drop_first())
    }
}

/// Bytes the name table occupies: one length byte plus the name, per entry.
pub open spec fn names_table_len(ns: Seq<Seq<u8>>) -> nat
    decreases ns.len(),
{
    if ns.len() == 0 {
        0
    } else {
        1 + ns[0].len() + names_table_len(ns.drop_first())
    }
}

/// Byte offset of entry `k` from the start of the name table.
pub open spec fn name_offset(ns: Seq<Seq<u8>>, k: int) -> nat
    recommends
        0 <= k <= ns.len(),
    decreases k,
{
    if k <= 0 || ns.len() == 0 {
        0
    } else {
        1 + ns[0].len() + name_offset(ns.drop_first(), k - 1)
    }
}

/// Every entry starts strictly inside the table: its offset, length byte
/// and body all fit before `names_table_len`.
pub proof fn lemma_name_offset_in_table(ns: Seq<Seq<u8>>, k: int)
    requires
        0 <= k < ns.len(),
    ensures
        name_offset(ns, k) + 1 + ns[k].len() <= names_table_len(ns),
    decreases k,
{
    if k > 0 {
        lemma_name_offset_in_table(ns.drop_first(), k - 1);
        assert(ns.drop_first()[k - 1] == ns[k]);
    }
}

/// Entry `q + 1` starts one length byte and one name past entry `q`.
pub proof fn lemma_name_offset_step(ns: Seq<Seq<u8>>, q: int)
    requires
        0 <= q < ns.len(),
    ensures
        name_offset(ns, q + 1) == name_offset(ns, q) + 1 + ns[q].len(),
    decreases q,
{
    if q > 0 {
        assert(ns.drop_first()[q - 1] == ns[q]);
        lemma_name_offset_step(ns.drop_first(), q - 1);
        assert(name_offset(ns, q + 1) == 1 + ns[0].len() + name_offset(ns.drop_first(), q));
        assert(name_offset(ns, q) == 1 + ns[0].len() + name_offset(ns.drop_first(), q - 1));
    } else {
        assert(name_offset(ns, 1) == 1 + ns[0].len() + name_offset(ns.drop_first(), 0));
        assert(name_offset(ns.drop_first(), 0) == 0);
    }
}

/// Name offsets grow with the index.
pub proof fn lemma_name_offset_mono(ns: Seq<Seq<u8>>, q: int, k: int)
    requires
        0 <= q <= k <= ns.len(),
    ensures
        name_offset(ns, q) <= name_offset(ns, k),
    decreases k,
{
    if 0 < q {
        lemma_name_offset_mono(ns.drop_first(), q - 1, k - 1);
    }
}

/// A shorter suffix of the name table never holds more bytes.
pub proof fn lemma_names_table_len_suffix(ns: Seq<Seq<u8>>, j: int, i: int)
    requires
        0 <= j <= i <= ns.len(),
    ensures
        names_table_len(ns.skip(j)) >= names_table_len(ns.skip(i)),
    decreases i - j,
{
    if j < i {
        assert(ns.skip(j).drop_first() =~= ns.skip(j + 1));
        lemma_names_table_len_suffix(ns, j + 1, i);
    }
}

/// A reference is well formed when its name index, if any, is in the table.
pub open spec fn ref_valid(r: RefV, names_count: int) -> bool {
    match r.name {
        Some(k) => 0 <= k < names_count,
        None => true,
    }
}

/// Every reference of the type is well formed.
pub open spec fn type_valid(t: TypeV, names_count: int) -> bool {
    forall|j: int| 0 <= j < t.references.len() ==> ref_valid(#[trigger] t.references[j], names_count)
}

/// Every name fits its one-byte length prefix.
pub open spec fn names_valid(ns: Seq<Seq<u8>>) -> bool {
    forall|k: int| 0 <= k < ns.len() ==> (#[trigger] ns[k]).len() <= 255
}

/// Total byte length of the packed resource map: the 26-byte sub-header,
/// the 2-byte type count, the type list, the reference lists, the names.
pub open spec fn map_layout_len(m: MapV) -> nat {
    28 + 8 * m.types.len() + 12 * total_refs(m.types) + names_table_len(m.names)
}

/// Structural well-formedness of an in-memory map: name indices resolve,
/// names fit their length prefix, and the three tables fit the format's
/// fixed-width offset fields (24-bit data offsets, 16-bit map-relative and
/// name-relative offsets).
pub open spec fn map_valid(m: MapV) -> bool {
    &&& forall|i: int|
        0 <= i < m.types.len() ==> type_valid(#[trigger] m.types[i], m.names.len() as int)
    &&& names_valid(m.names)
    &&& names_table_len(m.names) <= 0xFFFF
    &&& types_data_len(m.types) <= 0xFFFFFF
    &&& 28 + 8 * m.types.len() + 12 * total_refs(m.types) <= 0xFFFF
}

/// The header `pack` writes: the data block starts right after the 16-byte
/// header, and the map region follows the data block immediately.
pub open spec fn canonical_header(m: MapV) -> FileHeader {
    FileHeader {
        data_block_offset: 16,
        resource_map_offset: (16 + types_data_len(m.types)) as u32,
        len_data_block: types_data_len(m.types) as u32,
        len_resource_map: map_layout_len(m) as u32,
    }
}

/// A fork is well formed when its map is and its header is the one the
/// map's contents determine.
pub open spec fn fork_valid(f: ForkV) -> bool {
    &&& map_valid(f.map)
    &&& f.header == canonical_header(f.map)
}

/// The map after deleting reference `j` of type `i`: the kind of edit the
/// in-memory fork exists for.  Every downstream offset is recomputed by the
/// next pack, never patched in place.
pub open spec fn remove_reference(m: MapV, i: int, j: int) -> MapV
    recommends
        0 <= i < m.types.len(),
        0 <= j < m.types[i].references.len(),
{
    MapV {
        types: m.types.update(
            i,
            TypeV { code: m.types[i].code, references: m.types[i].references.remove(j) },
        ),
        names: m.names,
    }
}

/// No two types share a code.
pub open spec fn distinct_type_codes(ts: Seq<TypeV>) -> bool {
    forall|i: int, j: int|
        0 <= i < j < ts.len() ==> (#[trigger] ts[i].code) != (#[trigger] ts[j].code)
}

/// No two references of one type share an id.
pub open spec fn distinct_ids(t: TypeV) -> bool {
    forall|i: int, j: int|
        0 <= i < j < t.references.len() ==> (#[trigger] t.references[i].id) != (#[trigger] t.references[j].id)
}

/// The integrity condition `pack` enforces: unique type codes, and unique
/// ids within each type.
pub open spec fn map_encodable(m: MapV) -> bool {
    &&& distinct_type_codes(m.types)
    &&& forall|i: int| 0 <= i < m.types.len() ==> distinct_ids(#[trigger] m.types[i])
}

} // verus!
