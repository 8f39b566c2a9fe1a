use resource_fork::{
    pack, pack_header, parse, parse_header, structurally_valid, FileHeader, PackError,
    ParseError, ResourceFork, ResourceMap, ResourceReference, ResourceType,
};

fn empty_fork() -> ResourceFork {
    ResourceFork {
        header: FileHeader {
            data_block_offset: 0,
            resource_map_offset: 0,
            len_data_block: 0,
            len_resource_map: 0,
        },
        resource_map: ResourceMap { types: Vec::new(), names: Vec::new() },
    }
}

fn reference(id: i16, attributes: u8, name: Option<usize>, payload: &[u8]) -> ResourceReference {
    ResourceReference { id, attributes, name, payload: payload.to_vec() }
}

const TEXT: u32 = 0x54455854;
const ICON: u32 = 0x49434F4E;

#[test]
fn header_example_fields() {
    // 00 00 00 10 00 00 00 20 00 00 00 10 00 00 00 08
    let bytes = vec![
        0, 0, 0, 0x10, 0, 0, 0, 0x20, 0, 0, 0, 0x10, 0, 0, 0, 0x08,
    ];
    let h = parse_header(&bytes).unwrap();
    assert_eq!(h.data_block_offset, 16);
    assert_eq!(h.resource_map_offset, 32);
    assert_eq!(h.len_data_block, 16);
    assert_eq!(h.len_resource_map, 8);
}

#[test]
fn header_example_rejects_short_input() {
    // data at [16,32), map at [32,40): 39 bytes are too few.
    let mut bytes = vec![
        0, 0, 0, 0x10, 0, 0, 0, 0x20, 0, 0, 0, 0x10, 0, 0, 0, 0x08,
    ];
    bytes.resize(39, 0);
    assert_eq!(parse(&bytes).unwrap_err(), ParseError::TruncatedInput);
}

#[test]
fn header_too_short() {
    assert_eq!(parse_header(&vec![1, 2, 3]), Err(ParseError::TruncatedInput));
    assert_eq!(parse(&vec![0; 15]).unwrap_err(), ParseError::TruncatedInput);
}

#[test]
fn header_round_trips() {
    let h = FileHeader {
        data_block_offset: 16,
        resource_map_offset: 0x01020304,
        len_data_block: 0xA1B2C3D4,
        len_resource_map: 7,
    };
    let bytes = pack_header(h);
    assert_eq!(bytes.len(), 16);
    assert_eq!(parse_header(&bytes).unwrap(), h);
}

#[test]
fn inconsistent_header_rejected() {
    // map offset 20 does not equal data offset 16 + data length 0.
    let bytes = vec![
        0, 0, 0, 0x10, 0, 0, 0, 0x14, 0, 0, 0, 0, 0, 0, 0, 0,
    ];
    assert_eq!(parse(&bytes).unwrap_err(), ParseError::InconsistentHeader);
}

#[test]
fn empty_fork_packs_and_parses() {
    let bytes = pack(&empty_fork()).unwrap();
    // 16-byte header + empty data block + 28-byte map.
    assert_eq!(bytes.len(), 44);
    let expected_header = vec![
        0, 0, 0, 16, 0, 0, 0, 16, 0, 0, 0, 0, 0, 0, 0, 28,
    ];
    assert_eq!(&bytes[0..16], &expected_header[..]);
    // type count 0 is stored as 0xFFFF.
    assert_eq!(&bytes[42..44], &[0xFF, 0xFF]);
    let fork = parse(&bytes).unwrap();
    assert_eq!(fork.resource_map.types.len(), 0);
    assert_eq!(fork.resource_map.names.len(), 0);
    assert_eq!(pack(&fork).unwrap(), bytes);
}

#[test]
fn add_text_resource_to_empty_fork() {
    // A brand-new type "TEXT", id 128, no name, attributes 0, payload "hi".
    let fork = ResourceFork {
        resource_map: ResourceMap {
            types: vec![ResourceType {
                code: TEXT,
                references: vec![reference(128, 0, None, b"hi")],
            }],
            names: Vec::new(),
        },
        ..empty_fork()
    };
    let bytes = pack(&fork).unwrap();
    // len_data_block == 6: a 4-byte length prefix plus the 2 payload bytes.
    assert_eq!(&bytes[8..12], &[0, 0, 0, 6]);
    let expected = vec![
        // header: data at 16, map at 22, data length 6, map length 48
        0, 0, 0, 16, 0, 0, 0, 22, 0, 0, 0, 6, 0, 0, 0, 48,
        // data block: one length-prefixed payload
        0, 0, 0, 2, b'h', b'i',
        // map sub-header: 22 reserved zero bytes, type list at 26, names at 48
        0, 0, 0, 0, 0, 0, 0, 0, 0, 0, 0, 0, 0, 0, 0, 0, 0, 0, 0, 0, 0, 0,
        0, 26, 0, 48,
        // type count 1 (stored as 0); one entry: "TEXT", count 1 (stored 0),
        // reference list at type-list offset 10
        0, 0, b'T', b'E', b'X', b'T', 0, 0, 0, 10,
        // one reference: id 128, no name (0xFFFF), attributes 0 with data
        // offset 0, zero reserved handle
        0, 128, 0xFF, 0xFF, 0, 0, 0, 0, 0, 0, 0, 0,
    ];
    assert_eq!(bytes, expected);
    let back = parse(&bytes).unwrap();
    assert_eq!(back.resource_map.types.len(), 1);
    assert_eq!(back.resource_map.types[0].code, TEXT);
    assert_eq!(back.resource_map.types[0].references.len(), 1);
    let r = &back.resource_map.types[0].references[0];
    assert_eq!(r.id, 128);
    assert_eq!(r.attributes, 0);
    assert_eq!(r.name, None);
    assert_eq!(r.payload, b"hi".to_vec());
    assert_eq!(back.resource_map.names.len(), 0);
}

fn two_type_fork() -> ResourceFork {
    ResourceFork {
        resource_map: ResourceMap {
            types: vec![
                ResourceType {
                    code: ICON,
                    references: vec![
                        reference(-1, 0x80, Some(0), b"icon-bits"),
                        reference(256, 0, None, b""),
                    ],
                },
                ResourceType {
                    code: TEXT,
                    references: vec![
                        reference(0, 0x20, Some(1), b"hello"),
                        reference(1, 0, Some(0), b"shared-name"),
                    ],
                },
            ],
            names: vec![b"first".to_vec(), b"".to_vec()],
        },
        ..empty_fork()
    }
}

#[test]
fn round_trip_identity() {
    let fork = two_type_fork();
    let bytes = pack(&fork).unwrap();
    let back = parse(&bytes).unwrap();
    // The parsed fork is the fork it was packed from, and re-packing it
    // reproduces the bytes exactly.
    assert_eq!(pack(&back).unwrap(), bytes);
    assert_eq!(back.resource_map.types.len(), 2);
    assert_eq!(back.resource_map.types[0].code, ICON);
    assert_eq!(back.resource_map.types[1].code, TEXT);
    let icon0 = &back.resource_map.types[0].references[0];
    assert_eq!(icon0.id, -1);
    assert_eq!(icon0.attributes, 0x80);
    assert_eq!(icon0.name, Some(0));
    assert_eq!(icon0.payload, b"icon-bits".to_vec());
    let icon1 = &back.resource_map.types[0].references[1];
    assert_eq!(icon1.id, 256);
    assert_eq!(icon1.name, None);
    assert_eq!(icon1.payload, Vec::<u8>::new());
    assert_eq!(back.resource_map.names, vec![b"first".to_vec(), b"".to_vec()]);
    // The parsed header is the one the contents determine.
    assert_eq!(back.header.data_block_offset, 16);
    assert_eq!(
        back.header.resource_map_offset,
        16 + back.header.len_data_block
    );
}

#[test]
fn name_sharing_survives_round_trip() {
    let fork = two_type_fork();
    // Two references of different types share name entry 0.
    let bytes = pack(&fork).unwrap();
    let back = parse(&bytes).unwrap();
    let a = &back.resource_map.types[0].references[0];
    let b = &back.resource_map.types[1].references[1];
    assert_eq!(a.name, Some(0));
    assert_eq!(b.name, Some(0));
    assert_eq!(back.resource_map.names[0], b"first".to_vec());
}

#[test]
fn empty_reference_list_round_trips() {
    // A type with zero resources still yields a valid, empty reference
    // list and an empty name table.
    let fork = ResourceFork {
        resource_map: ResourceMap {
            types: vec![ResourceType { code: TEXT, references: Vec::new() }],
            names: Vec::new(),
        },
        ..empty_fork()
    };
    let bytes = pack(&fork).unwrap();
    let back = parse(&bytes).unwrap();
    assert_eq!(back.resource_map.types.len(), 1);
    assert_eq!(back.resource_map.types[0].code, TEXT);
    assert_eq!(back.resource_map.types[0].references.len(), 0);
    assert_eq!(back.resource_map.names.len(), 0);
    assert_eq!(pack(&back).unwrap(), bytes);
}

#[test]
fn absent_name_stores_sentinel_not_zero() {
    let fork = ResourceFork {
        resource_map: ResourceMap {
            types: vec![ResourceType {
                code: TEXT,
                references: vec![reference(5, 0, None, b"x")],
            }],
            names: vec![b"unused".to_vec()],
        },
        ..empty_fork()
    };
    let bytes = pack(&fork).unwrap();
    // The reference entry starts at 16 + 5 (data) + 26 + 2 + 8 = map start
    // 21 .. name-offset field sits 2 bytes into the entry.
    let map_start = 16 + 5;
    let entry = map_start + 26 + 2 + 8;
    assert_eq!(&bytes[entry + 2..entry + 4], &[0xFF, 0xFF]);
    let back = parse(&bytes).unwrap();
    assert_eq!(back.resource_map.types[0].references[0].name, None);
}

#[test]
fn remove_resource_recomputes_offsets() {
    let mut fork = two_type_fork();
    // Delete the first icon resource, re-pack, re-parse: every remaining
    // offset must resolve to the right payload and name.
    fork.resource_map.types[0].references.remove(0);
    let bytes = pack(&fork).unwrap();
    let back = parse(&bytes).unwrap();
    assert_eq!(back.resource_map.types[0].references.len(), 1);
    assert_eq!(back.resource_map.types[0].references[0].id, 256);
    assert_eq!(back.resource_map.types[0].references[0].payload, Vec::<u8>::new());
    let t1 = &back.resource_map.types[1].references;
    assert_eq!(t1[0].payload, b"hello".to_vec());
    assert_eq!(t1[0].name, Some(1));
    assert_eq!(t1[1].payload, b"shared-name".to_vec());
    assert_eq!(t1[1].name, Some(0));
    assert_eq!(back.resource_map.names, vec![b"first".to_vec(), b"".to_vec()]);
    assert_eq!(pack(&back).unwrap(), bytes);
}

#[test]
fn duplicate_type_code_refused_on_pack() {
    let fork = ResourceFork {
        resource_map: ResourceMap {
            types: vec![
                ResourceType { code: TEXT, references: Vec::new() },
                ResourceType { code: TEXT, references: Vec::new() },
            ],
            names: Vec::new(),
        },
        ..empty_fork()
    };
    assert_eq!(pack(&fork), Err(PackError::MapIntegrityError));
}

#[test]
fn duplicate_id_within_type_refused_on_pack() {
    let fork = ResourceFork {
        resource_map: ResourceMap {
            types: vec![ResourceType {
                code: TEXT,
                references: vec![reference(7, 0, None, b"a"), reference(7, 1, None, b"b")],
            }],
            names: Vec::new(),
        },
        ..empty_fork()
    };
    assert_eq!(pack(&fork), Err(PackError::MapIntegrityError));
}

#[test]
fn same_id_under_different_types_is_fine() {
    let fork = ResourceFork {
        resource_map: ResourceMap {
            types: vec![
                ResourceType { code: TEXT, references: vec![reference(7, 0, None, b"a")] },
                ResourceType { code: ICON, references: vec![reference(7, 0, None, b"b")] },
            ],
            names: Vec::new(),
        },
        ..empty_fork()
    };
    let bytes = pack(&fork).unwrap();
    let back = parse(&bytes).unwrap();
    assert_eq!(back.resource_map.types[0].references[0].payload, b"a".to_vec());
    assert_eq!(back.resource_map.types[1].references[0].payload, b"b".to_vec());
}

#[test]
fn data_offset_out_of_range_rejected() {
    let fork = ResourceFork {
        resource_map: ResourceMap {
            types: vec![ResourceType {
                code: TEXT,
                references: vec![reference(128, 0, None, b"hi")],
            }],
            names: Vec::new(),
        },
        ..empty_fork()
    };
    let mut bytes = pack(&fork).unwrap();
    // Corrupt the reference's packed attribute/data-offset word: point the
    // payload at offset 4 of the 6-byte data block.
    let entry = 16 + 6 + 26 + 2 + 8;
    bytes[entry + 4..entry + 8].copy_from_slice(&[0, 0, 0, 4]);
    assert_eq!(parse(&bytes).unwrap_err(), ParseError::OffsetOutOfRange);
}

#[test]
fn name_offset_between_entries_rejected() {
    let fork = ResourceFork {
        resource_map: ResourceMap {
            types: vec![ResourceType {
                code: TEXT,
                references: vec![reference(128, 0, Some(0), b"hi")],
            }],
            names: vec![b"abc".to_vec()],
        },
        ..empty_fork()
    };
    let mut bytes = pack(&fork).unwrap();
    // Point the name-offset field into the middle of the only entry.
    let entry = 16 + 6 + 26 + 2 + 8;
    bytes[entry + 2..entry + 4].copy_from_slice(&[0, 2]);
    assert_eq!(parse(&bytes).unwrap_err(), ParseError::OffsetOutOfRange);
}

#[test]
fn truncated_name_table_rejected() {
    let fork = ResourceFork {
        resource_map: ResourceMap {
            types: vec![ResourceType {
                code: TEXT,
                references: vec![reference(128, 0, Some(0), b"hi")],
            }],
            names: vec![b"abc".to_vec()],
        },
        ..empty_fork()
    };
    let mut bytes = pack(&fork).unwrap();
    // Claim the last name is longer than the region that holds it.
    let names_start = 16 + 6 + 26 + 2 + 8 + 12;
    bytes[names_start] = 200;
    assert_eq!(parse(&bytes).unwrap_err(), ParseError::TruncatedInput);
}

#[test]
fn name_offsets_are_table_relative() {
    let fork = ResourceFork {
        resource_map: ResourceMap {
            types: vec![ResourceType {
                code: TEXT,
                references: vec![
                    reference(1, 0, Some(0), b"p"),
                    reference(2, 0, Some(1), b"q"),
                ],
            }],
            names: vec![b"A".to_vec(), b"BC".to_vec()],
        },
        ..empty_fork()
    };
    let bytes = pack(&fork).unwrap();
    // Entry 0 starts at table offset 0, entry 1 after "A" and its length
    // byte, at offset 2.  The data block holds two 5-byte entries.
    let entries = 16 + 10 + 26 + 2 + 8;
    assert_eq!(&bytes[entries + 2..entries + 4], &[0, 0]);
    assert_eq!(&bytes[entries + 14..entries + 16], &[0, 2]);
    let back = parse(&bytes).unwrap();
    assert_eq!(back.resource_map.types[0].references[0].name, Some(0));
    assert_eq!(back.resource_map.types[0].references[1].name, Some(1));
    assert_eq!(back.resource_map.names, vec![b"A".to_vec(), b"BC".to_vec()]);
}

#[test]
fn structural_validity_is_decided() {
    assert!(structurally_valid(&empty_fork()));
    assert!(structurally_valid(&two_type_fork()));

    // A name index past the table's end.
    let dangling = ResourceFork {
        resource_map: ResourceMap {
            types: vec![ResourceType {
                code: TEXT,
                references: vec![reference(1, 0, Some(3), b"x")],
            }],
            names: vec![b"only".to_vec()],
        },
        ..empty_fork()
    };
    assert!(!structurally_valid(&dangling));

    // A name too long for its one-byte length prefix.
    let long_name = ResourceFork {
        resource_map: ResourceMap {
            types: Vec::new(),
            names: vec![vec![b'n'; 256]],
        },
        ..empty_fork()
    };
    assert!(!structurally_valid(&long_name));

    // A payload too large for a 24-bit data offset to follow it.
    let oversized = ResourceFork {
        resource_map: ResourceMap {
            types: vec![ResourceType {
                code: TEXT,
                references: vec![reference(1, 0, None, &vec![0u8; 0x1000000])],
            }],
            names: Vec::new(),
        },
        ..empty_fork()
    };
    assert!(!structurally_valid(&oversized));
}

#[test]
fn duplicate_types_parse_but_do_not_repack() {
    // Malformed-but-parseable forks are preserved on parse; only re-encode
    // refuses them.
    let fork = ResourceFork {
        resource_map: ResourceMap {
            types: vec![
                ResourceType { code: TEXT, references: vec![reference(1, 0, None, b"a")] },
                ResourceType { code: ICON, references: vec![reference(1, 0, None, b"b")] },
            ],
            names: Vec::new(),
        },
        ..empty_fork()
    };
    let mut bytes = pack(&fork).unwrap();
    // Overwrite the second type-list entry's code with the first's.
    let second_entry = 16 + 10 + 26 + 2 + 8;
    bytes[second_entry..second_entry + 4].copy_from_slice(b"TEXT");
    let back = parse(&bytes).unwrap();
    assert_eq!(back.resource_map.types[0].code, TEXT);
    assert_eq!(back.resource_map.types[1].code, TEXT);
    assert_eq!(back.resource_map.types[1].references[0].payload, b"b".to_vec());
    assert_eq!(pack(&back), Err(PackError::MapIntegrityError));
}
