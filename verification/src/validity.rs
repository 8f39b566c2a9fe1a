//! Deciding structural well-formedness: `pack` asks its callers for a
//! `map_valid` fork, and this module lets them establish that by running a
//! verified check instead of proving it.  Each table total is accumulated
//! with an early exit the moment it can no longer fit its fixed-width
//! offset field, so nothing here overflows whatever the fork holds.

use vstd::prelude::*;

use crate::model::{
    map_valid, names_table_len, names_valid, refs_data_len, ref_valid, total_refs, type_valid,
    types_data_len, RefV, ResourceFork, ResourceReference, ResourceType, TypeV,
};

verus! {

/// A shorter suffix of a reference list never holds more data-block bytes.
proof fn lemma_refs_data_len_suffix(rs: Seq<RefV>, j: int, i: int)
    requires
        0 <= j <= i <= rs.len(),
    ensures
        refs_data_len(rs.skip(j)) >= refs_data_len(rs.skip(i)),
    decreases i - j,
{
    if j < i {
        assert(rs.skip(j).drop_first() =~= rs.skip(j + 1));
        lemma_refs_data_len_suffix(rs, j + 1, i);
    }
}

/// A shorter suffix of the type list never holds more data-block bytes.
proof fn lemma_types_data_len_suffix(ts: Seq<TypeV>, j: int, i: int)
    requires
        0 <= j <= i <= ts.len(),
    ensures
        types_data_len(ts.skip(j)) >= types_data_len(ts.skip(i)),
    decreases i - j,
{
    if j < i {
        assert(ts.skip(j).drop_first() =~= ts.skip(j + 1));
        lemma_types_data_len_suffix(ts, j + 1, i);
    }
}

/// A shorter suffix of the type list never holds more references.
proof fn lemma_total_refs_suffix(ts: Seq<TypeV>, j: int, i: int)
    requires
        0 <= j <= i <= ts.len(),
    ensures
        total_refs(ts.skip(j)) >= total_refs(ts.skip(i)),
    decreases i - j,
{
    if j < i {
        assert(ts.skip(j).drop_first() =~= ts.skip(j + 1));
        lemma_total_refs_suffix(ts, j + 1, i);
    }
}

/// Data-block bytes of one reference list, or `None` as soon as the total
/// exceeds what a 24-bit data offset can address.
fn checked_refs_data_len(rs: &Vec<ResourceReference>) -> (r: Option<u32>)
    ensures
        match r {
            Some(v) => v == refs_data_len(rs.deep_view()) && v <= 0xFFFFFF,
            None => refs_data_len(rs.deep_view()) > 0xFFFFFF,
        },
{
    let ghost s = rs.deep_view();
    let mut i: usize = rs.len();
    let mut acc: u32 = 0;
    proof {
        assert(s.skip(rs@.len() as int) =~= Seq::<RefV>::empty());
    }
    while i > 0
        invariant
            i <= rs@.len(),
            s == rs.deep_view(),
            acc == refs_data_len(s.skip(i as int)),
            acc <= 0xFFFFFF,
        decreases i,
    {
        i = i - 1;
        proof {
            assert(s.skip(i as int)[0] == s[i as int]);
            assert(s.skip(i as int).drop_first() =~= s.skip(i as int + 1));
        }
        let pl = rs[i].payload.len();
        let total: u64 = if pl as u64 > 0xFFFFFF {
            0x1000000
        } else {
            4 + (pl as u64) + (acc as u64)
        };
        if total > 0xFFFFFF {
            proof {
                lemma_refs_data_len_suffix(s, 0, i as int);
                assert(s.skip(0) =~= s);
            }
            return None;
        }
        acc = total as u32;
    }
    proof {
        assert(s.skip(0) =~= s);
    }
    Some(acc)
}

/// Data-block bytes of the whole fork, with the same early exit.
fn checked_data_len(ts: &Vec<ResourceType>) -> (r: Option<u32>)
    ensures
        match r {
            Some(v) => v == types_data_len(ts.deep_view()) && v <= 0xFFFFFF,
            None => types_data_len(ts.deep_view()) > 0xFFFFFF,
        },
{
    let ghost s = ts.deep_view();
    let mut i: usize = ts.len();
    let mut acc: u32 = 0;
    proof {
        assert(s.skip(ts@.len() as int) =~= Seq::<TypeV>::empty());
    }
    while i > 0
        invariant
            i <= ts@.len(),
            s == ts.deep_view(),
            acc == types_data_len(s.skip(i as int)),
            acc <= 0xFFFFFF,
        decreases i,
    {
        i = i - 1;
        proof {
            assert(s.skip(i as int)[0] == s[i as int]);
            assert(s.skip(i as int).drop_first() =~= s.skip(i as int + 1));
            assert(ts[i as int].references.deep_view() == s[i as int].references);
        }
        let here = match checked_refs_data_len(&ts[i].references) {
            Some(v) => v,
            None => {
                proof {
                    lemma_types_data_len_suffix(s, 0, i as int);
                    assert(s.skip(0) =~= s);
                }
                return None;
            },
        };
        let total: u64 = (here as u64) + (acc as u64);
        if total > 0xFFFFFF {
            proof {
                lemma_types_data_len_suffix(s, 0, i as int);
                assert(s.skip(0) =~= s);
            }
            return None;
        }
        acc = total as u32;
    }
    proof {
        assert(s.skip(0) =~= s);
    }
    Some(acc)
}

/// References over all types, or `None` once the count exceeds what the
/// 16-bit map-relative offsets can place.
fn checked_total_refs(ts: &Vec<ResourceType>) -> (r: Option<u32>)
    ensures
        match r {
            Some(v) => v == total_refs(ts.deep_view()) && v <= 0xFFFF,
            None => total_refs(ts.deep_view()) > 0xFFFF,
        },
{
    let ghost s = ts.deep_view();
    let mut i: usize = ts.len();
    let mut acc: u32 = 0;
    proof {
        assert(s.skip(ts@.len() as int) =~= Seq::<TypeV>::empty());
    }
    while i > 0
        invariant
            i <= ts@.len(),
            s == ts.deep_view(),
            acc == total_refs(s.skip(i as int)),
            acc <= 0xFFFF,
        decreases i,
    {
        i = i - 1;
        proof {
            assert(s.skip(i as int)[0] == s[i as int]);
            assert(s.skip(i as int).drop_first() =~= s.skip(i as int + 1));
        }
        let here = ts[i].references.len();
        let total: u64 = if here as u64 > 0xFFFF {
            0x10000
        } else {
            (here as u64) + (acc as u64)
        };
        if total > 0xFFFF {
            proof {
                lemma_total_refs_suffix(s, 0, i as int);
                assert(s.skip(0) =~= s);
            }
            return None;
        }
        acc = total as u32;
    }
    proof {
        assert(s.skip(0) =~= s);
    }
    Some(acc)
}

/// Name-table bytes, or `None` once the table outgrows its 16-bit offsets.
fn checked_names_len(names: &Vec<Vec<u8>>) -> (r: Option<u32>)
    ensures
        match r {
            Some(v) => v == names_table_len(names.deep_view()) && v <= 0xFFFF,
            None => names_table_len(names.deep_view()) > 0xFFFF,
        },
{
    let ghost s = names.deep_view();
    let mut i: usize = names.len();
    let mut acc: u32 = 0;
    proof {
        assert(s.skip(names@.len() as int) =~= Seq::<Seq<u8>>::empty());
    }
    while i > 0
        invariant
            i <= names@.len(),
            s == names.deep_view(),
            acc == names_table_len(s.skip(i as int)),
            acc <= 0xFFFF,
        decreases i,
    {
        i = i - 1;
        proof {
            assert(s.skip(i as int)[0] == s[i as int]);
            assert(s.skip(i as int).drop_first() =~= s.skip(i as int + 1));
        }
        let here = names[i].len();
        let total: u64 = if here as u64 > 0xFFFF {
            0x10000
        } else {
            1 + (here as u64) + (acc as u64)
        };
        if total > 0xFFFF {
            proof {
                crate::model::lemma_names_table_len_suffix(s, 0, i as int);
                assert(s.skip(0) =~= s);
            }
            return None;
        }
        acc = total as u32;
    }
    proof {
        assert(s.skip(0) =~= s);
    }
    Some(acc)
}

/// Does every reference's name index point into the table?
fn refs_indices_valid(rs: &Vec<ResourceReference>, names_count: usize) -> (r: bool)
    ensures
        r == forall|j: int|
            0 <= j < rs@.len() ==> ref_valid(#[trigger] rs.deep_view()[j], names_count as int),
{
    let mut j: usize = 0;
    while j < rs.len()
        invariant
            j <= rs@.len(),
            forall|q: int|
                0 <= q < j ==> ref_valid(#[trigger] rs.deep_view()[q], names_count as int),
        decreases rs@.len() - j,
    {
        match rs[j].name {
            Some(k) => {
                if k >= names_count {
                    proof {
                        assert(!ref_valid(rs.deep_view()[j as int], names_count as int));
                    }
                    return false;
                }
            },
            None => {},
        }
        j = j + 1;
    }
    true
}

/// Does every name fit its one-byte length prefix?
fn names_lengths_valid(names: &Vec<Vec<u8>>) -> (r: bool)
    ensures
        r == names_valid(names.deep_view()),
{
    let mut k: usize = 0;
    while k < names.len()
        invariant
            k <= names@.len(),
            forall|q: int| 0 <= q < k ==> (#[trigger] names.deep_view()[q]).len() <= 255,
        decreases names@.len() - k,
    {
        if names[k].len() > 255 {
            proof {
                assert(names.deep_view()[k as int].len() > 255);
            }
            return false;
        }
        k = k + 1;
    }
    true
}

/// Decides `pack`'s precondition: every name index resolves, every name
/// fits its length prefix, and the data block, name table and map tables
/// fit the format's fixed-width offset fields.
pub fn structurally_valid(fork: &ResourceFork) -> (r: bool)
    ensures
        r == map_valid(fork.deep_view().map),
{
    let m = &fork.resource_map;
    let ghost mv = fork.deep_view().map;
    proof {
        assert(m.deep_view() == mv);
    }
    let mut i: usize = 0;
    while i < m.types.len()
        invariant
            i <= m.types@.len(),
            mv == m.deep_view(),
            mv == fork.deep_view().map,
            forall|q: int| 0 <= q < i ==> type_valid(#[trigger] mv.types[q], mv.names.len() as int),
        decreases m.types@.len() - i,
    {
        proof {
            assert(mv.types[i as int].references == m.types@[i as int].references.deep_view());
        }
        if !refs_indices_valid(&m.types[i].references, m.names.len()) {
            proof {
                assert(!type_valid(mv.types[i as int], mv.names.len() as int));
                assert(!map_valid(mv)) by {
                    if map_valid(mv) {
                        assert(type_valid(mv.types[i as int], mv.names.len() as int));
                    }
                }
            }
            return false;
        }
        i = i + 1;
    }
    if !names_lengths_valid(&m.names) {
        return false;
    }
    let names_len_ok = match checked_names_len(&m.names) {
        Some(_) => true,
        None => false,
    };
    if !names_len_ok {
        return false;
    }
    let data_len_ok = match checked_data_len(&m.types) {
        Some(_) => true,
        None => false,
    };
    if !data_len_ok {
        return false;
    }
    match checked_total_refs(&m.types) {
        Some(tr) => {
            let tn = m.types.len();
            if tn > 0xFFFF {
                return false;
            }
            28 + 8 * (tn as u64) + 12 * (tr as u64) <= 0xFFFF
        },
        None => false,
    }
}

} // verus!
