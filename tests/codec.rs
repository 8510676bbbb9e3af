use std::collections::BTreeMap;

use arsc::arsc::{decode, encode};
use arsc::components::{
    Arsc, ArscError, Config, Header, Package, ResourceEntry, ResourceValue, Spec, Specs,
    StringPool, Type, TypeFlag, Value, UTF8_FLAG,
};
use arsc::config::{decode_config, encode_config, NO_ENTRY};
use arsc::header::{decode_header, encode_header};
use arsc::pool::{decode_pool, encode_pool};
use arsc::value::{decode_entry, decode_value, encode_entry};

fn plain(data_type: u8, data_index: usize) -> Value {
    Value { size: 8, zero: 0, data_type, data_index }
}

fn pool(strings: &[&str], flags: u32) -> StringPool {
    StringPool { strings: strings.iter().map(|s| s.to_string()).collect(), flags }
}

fn u32_at(b: &[u8], i: usize) -> u32 {
    u32::from_le_bytes([b[i], b[i + 1], b[i + 2], b[i + 3]])
}

fn hello_table() -> Arsc {
    let mut specs = Specs::from_vec(vec![Spec::new(0, 0)]);
    specs.set_name_index(0, 0);
    let mut resources = BTreeMap::new();
    resources.insert(
        0,
        ResourceEntry { flags: 0, spec_id: 0, value: ResourceValue::Plain(plain(0x03, 0)) },
    );
    let config = Config {
        type_id: 1,
        res0: 0,
        res1: 0,
        entry_count: 1,
        id: vec![0u8; 4],
        resources,
    };
    let ty = Type { id: 1, specs: Some(specs), configs: vec![config] };
    let package = Package {
        id: 1,
        name: "base".to_string(),
        type_names: pool(&["string"], UTF8_FLAG),
        types: vec![ty],
        key_names: pool(&["app_name"], UTF8_FLAG),
    };
    Arsc { packages: vec![package], global_string_pool: pool(&["Hello"], UTF8_FLAG) }
}

#[test]
fn hello_table_decodes_to_same_structure_and_bytes() {
    let bytes = encode(&hello_table()).expect("table fits");
    let a = decode(&bytes).expect("decodes");
    assert_eq!(a.global_string_pool.strings, vec!["Hello".to_string()]);
    assert_eq!(a.packages.len(), 1);
    let p = &a.packages[0];
    assert_eq!(p.id, 1);
    assert_eq!(p.name, "base");
    assert_eq!(p.type_names.strings, vec!["string".to_string()]);
    assert_eq!(p.key_names.strings, vec!["app_name".to_string()]);
    assert_eq!(p.types.len(), 1);
    let t = &p.types[0];
    assert_eq!(t.id, 1);
    let specs = t.specs.as_ref().expect("specs");
    assert_eq!(specs.len(), 1);
    assert_eq!(*specs.index(0), Spec { flags: 0, id: 0, name_index: 0 });
    assert_eq!(t.configs.len(), 1);
    let c = &t.configs[0];
    assert_eq!(c.resources.len(), 1);
    let e = &c.resources[&0];
    assert_eq!(e.spec_id, 0);
    match &e.value {
        ResourceValue::Plain(v) => assert_eq!(*v, plain(0x03, 0)),
        ResourceValue::Bag { .. } => panic!("expected a plain value"),
    }
    let again = encode(&a).expect("table fits");
    assert_eq!(again, bytes);
}

#[test]
fn table_round_trip_is_stable() {
    let first = encode(&hello_table()).unwrap();
    let second = encode(&decode(&first).unwrap()).unwrap();
    let third = encode(&decode(&second).unwrap()).unwrap();
    assert_eq!(first, second);
    assert_eq!(second, third);
}

#[test]
fn bag_pairs_keep_their_order() {
    let values = vec![(0x010100u32, plain(0x10, 0xFF0000)), (0x010101u32, plain(0x10, 0x000001))];
    let e = ResourceEntry {
        flags: 0x0001,
        spec_id: 0,
        value: ResourceValue::Bag { parent: 0, values: values.clone() },
    };
    let mut out = Vec::new();
    encode_entry(&e, &mut out);
    assert_eq!(out.len(), 12 + 12 * 2);
    let (back, n) = decode_entry(&out, 0, out.len(), 1, 0).unwrap();
    assert_eq!(n, out.len());
    match back.value {
        ResourceValue::Bag { parent, values: got } => {
            assert_eq!(parent, 0);
            assert_eq!(got, values);
        }
        ResourceValue::Plain(_) => panic!("expected a bag"),
    }
}

fn sparse_config_bytes() -> Vec<u8> {
    // a table-type chunk: 20 fixed bytes, 4 descriptor bytes, three offsets, 12 filler bytes,
    // then one plain entry at offset 12
    let hs = 24u16;
    let es = 24u32 + 12;
    let size = es + 12 + 16;
    let mut b = Vec::new();
    b.extend_from_slice(&0x0201u16.to_le_bytes());
    b.extend_from_slice(&hs.to_le_bytes());
    b.extend_from_slice(&size.to_le_bytes());
    b.push(1);
    b.push(0);
    b.extend_from_slice(&0u16.to_le_bytes());
    b.extend_from_slice(&3u32.to_le_bytes());
    b.extend_from_slice(&es.to_le_bytes());
    b.extend_from_slice(&[4, 0, 0, 0]);
    for off in [0xFFFF_FFFFu32, 12, 0xFFFF_FFFF] {
        b.extend_from_slice(&off.to_le_bytes());
    }
    b.extend_from_slice(&[0u8; 12]);
    b.extend_from_slice(&8u16.to_le_bytes());
    b.extend_from_slice(&0u16.to_le_bytes());
    b.extend_from_slice(&1u32.to_le_bytes());
    b.extend_from_slice(&8u16.to_le_bytes());
    b.push(0);
    b.push(0x10);
    b.extend_from_slice(&42u32.to_le_bytes());
    b
}

#[test]
fn sparse_offsets_decode_to_one_key() {
    let bytes = sparse_config_bytes();
    let (c, n) = decode_config(&bytes, 0, 2, 0).unwrap();
    assert_eq!(n, bytes.len());
    assert_eq!(c.entry_count, 3);
    assert_eq!(c.resources.keys().copied().collect::<Vec<_>>(), vec![1]);
    let mut out = Vec::new();
    encode_config(&c, &mut out);
    assert_eq!(u32_at(&out, 12), 3);
    let hs = u16::from_le_bytes([out[2], out[3]]) as usize;
    assert_eq!(u32_at(&out, hs), NO_ENTRY);
    assert_eq!(u32_at(&out, hs + 4), 0);
    assert_eq!(u32_at(&out, hs + 8), NO_ENTRY);
    let (again, _) = decode_config(&out, 0, 2, 0).unwrap();
    assert_eq!(again.resources.keys().copied().collect::<Vec<_>>(), vec![1]);
    assert_eq!(again.entry_count, 3);
}

#[test]
fn config_round_trip_keeps_present_keys() {
    let mut resources = BTreeMap::new();
    for k in [0usize, 3, 4] {
        resources.insert(
            k,
            ResourceEntry { flags: 0, spec_id: k, value: ResourceValue::Plain(plain(0x10, k * 7)) },
        );
    }
    let c = Config { type_id: 2, res0: 0, res1: 5, entry_count: 6, id: vec![8, 0, 0, 0], resources };
    let mut out = Vec::new();
    encode_config(&c, &mut out);
    let (d, _) = decode_config(&out, 0, 5, 0).unwrap();
    assert_eq!(d.entry_count, 6);
    assert_eq!(d.res1, 5);
    assert_eq!(d.id, vec![8, 0, 0, 0]);
    assert_eq!(d.resources.keys().copied().collect::<Vec<_>>(), vec![0, 3, 4]);
    match &d.resources[&3].value {
        ResourceValue::Plain(v) => assert_eq!(v.data_index, 21),
        ResourceValue::Bag { .. } => panic!("expected a plain value"),
    }
}

#[test]
fn utf8_pool_round_trip() {
    let p = pool(&["", "abc", "héllo wörld", "😀x"], UTF8_FLAG);
    let mut out = Vec::new();
    assert!(encode_pool(&p, &mut out));
    assert_eq!(out.len() % 4, 0);
    let (d, n) = decode_pool(&out, 0).unwrap();
    assert_eq!(n, out.len());
    assert_eq!(d.flags, UTF8_FLAG);
    assert_eq!(d.strings, p.strings);
}

#[test]
fn utf16_pool_round_trip_with_surrogate_pairs() {
    let p = pool(&["plain", "😀😀", "a𝄞b"], 0);
    let mut out = Vec::new();
    assert!(encode_pool(&p, &mut out));
    assert_eq!(out.len() % 4, 0);
    let (d, _) = decode_pool(&out, 0).unwrap();
    assert_eq!(d.flags, 0);
    assert_eq!(d.strings, p.strings);
}

#[test]
fn long_utf8_string_uses_two_byte_lengths() {
    let long = "x".repeat(300);
    let p = pool(&[long.as_str()], UTF8_FLAG);
    let mut out = Vec::new();
    assert!(encode_pool(&p, &mut out));
    let (d, _) = decode_pool(&out, 0).unwrap();
    assert_eq!(d.strings[0], long);
}

#[test]
fn header_round_trip_and_unknown_tag() {
    let h = Header { type_flag: TypeFlag::RES_TABLE_PACKAGE_TYPE, header_size: 284, size: 1000 };
    let mut out = Vec::new();
    encode_header(&h, &mut out);
    assert_eq!(out, vec![0x00, 0x02, 0x1C, 0x01, 0xE8, 0x03, 0, 0]);
    assert_eq!(decode_header(&out, 0), Ok(h));
    let bad = vec![0x07, 0x00, 0x08, 0x00, 0x08, 0, 0, 0];
    assert_eq!(decode_header(&bad, 0), Err(ArscError::MalformedHeader));
    let inconsistent = vec![0x01, 0x00, 0x20, 0x00, 0x08, 0, 0, 0];
    assert_eq!(decode_header(&inconsistent, 0), Err(ArscError::MalformedHeader));
    assert_eq!(decode_header(&out[..5].to_vec(), 0), Err(ArscError::MalformedHeader));
}

#[test]
fn type_flag_tags() {
    assert_eq!(TypeFlag::from_bits(0x0202), Some(TypeFlag::RES_TABLE_TYPE_SPEC_TYPE));
    assert_eq!(TypeFlag::from_bits(0x0203), Some(TypeFlag::RES_TABLE_LIBRARY_TYPE));
    assert_eq!(TypeFlag::from_bits(0x0204), None);
    assert_eq!(TypeFlag::RES_TABLE_TYPE_TYPE.bits(), 0x0201);
    assert_eq!(TypeFlag::RES_NULL_TYPE.bits(), 0);
}

#[test]
fn string_reference_outside_global_pool() {
    let mut out = Vec::new();
    out.extend_from_slice(&8u16.to_le_bytes());
    out.push(0);
    out.push(0x03);
    out.extend_from_slice(&5u32.to_le_bytes());
    assert_eq!(decode_value(&out, 0, 5), Err(ArscError::InvalidStringReference));
    assert_eq!(decode_value(&out, 0, 6), Ok(plain(0x03, 5)));
    out[2] = 1;
    assert_eq!(decode_value(&out, 0, 6).unwrap_err(), ArscError::ResourceTableCorrupt);
}

#[test]
fn spec_id_out_of_range_is_corrupt() {
    let bytes = sparse_config_bytes();
    assert_eq!(decode_config(&bytes, 0, 1, 0).unwrap_err(), ArscError::ResourceTableCorrupt);
}

#[test]
fn offset_outside_chunk_is_corrupt() {
    let mut bytes = sparse_config_bytes();
    bytes[24 + 4] = 0xF0;
    assert_eq!(decode_config(&bytes, 0, 2, 0).unwrap_err(), ArscError::ResourceTableCorrupt);
}

#[test]
fn pool_offset_outside_data_is_corrupt() {
    let p = pool(&["abc"], UTF8_FLAG);
    let mut out = Vec::new();
    assert!(encode_pool(&p, &mut out));
    out[28] = 0x40;
    assert_eq!(decode_pool(&out, 0).unwrap_err(), ArscError::StringPoolCorrupt);
}

#[test]
fn type_chunk_without_spec_is_orphan() {
    let bytes = encode(&hello_table()).unwrap();
    // cut the spec chunk out, leaving its type chunk without one
    let pkg_start = 12 + u32_at(&bytes, 12 + 4) as usize;
    let mut cursor = pkg_start + 284;
    cursor += u32_at(&bytes, cursor + 4) as usize;
    cursor += u32_at(&bytes, cursor + 4) as usize;
    assert_eq!(u16::from_le_bytes([bytes[cursor], bytes[cursor + 1]]), 0x0202);
    let spec_len = u32_at(&bytes, cursor + 4) as usize;
    let mut cut = bytes[..cursor].to_vec();
    cut.extend_from_slice(&bytes[cursor + spec_len..]);
    let total = cut.len() as u32;
    cut[4..8].copy_from_slice(&total.to_le_bytes());
    let pkg_size = u32_at(&bytes, pkg_start + 4) - spec_len as u32;
    cut[pkg_start + 4..pkg_start + 8].copy_from_slice(&pkg_size.to_le_bytes());
    assert_eq!(decode(&cut).unwrap_err(), ArscError::OrphanTypeChunk);
}

#[test]
fn unknown_root_tag_is_malformed() {
    let mut bytes = encode(&hello_table()).unwrap();
    bytes[0] = 0x09;
    assert_eq!(decode(&bytes).unwrap_err(), ArscError::MalformedHeader);
}

#[test]
fn specs_builders() {
    let mut specs = Specs::from_vec(vec![Spec::new(4, 0), Spec::new(5, 1)]);
    assert_eq!(specs.len(), 2);
    specs.set_name_index(1, 9);
    assert_eq!(*specs.index(1), Spec { flags: 5, id: 1, name_index: 9 });
    assert_eq!(*specs.index(0), Spec { flags: 4, id: 0, name_index: 0 });
    let t = Type::with_id(3);
    assert_eq!(t.id, 3);
    assert!(t.specs.is_none());
    assert!(t.configs.is_empty());
    assert_eq!(specs.into_vec().len(), 2);
}

#[test]
fn package_name_too_long_is_refused() {
    let mut a = hello_table();
    a.packages[0].name = "n".repeat(128);
    assert!(encode(&a).is_none());
}

fn bigger_table() -> Arsc {
    let mut a = hello_table();
    let mut specs = Specs::from_vec(vec![Spec::new(0x4000_0000, 0), Spec::new(0, 1)]);
    specs.set_name_index(0, 0);
    specs.set_name_index(1, 1);
    let mut resources = BTreeMap::new();
    resources.insert(
        1,
        ResourceEntry {
            flags: 0x0001,
            spec_id: 1,
            value: ResourceValue::Bag {
                parent: 0x7f02_0000,
                values: vec![(0x0101_0000, plain(0x10, 3)), (0x0101_0001, plain(0x03, 0))],
            },
        },
    );
    let land = Config { type_id: 2, res0: 0, res1: 0, entry_count: 2, id: vec![8, 0, 0, 0, 1, 2, 3, 4], resources };
    let ty = Type { id: 2, specs: Some(specs), configs: vec![land] };
    let p = &mut a.packages[0];
    p.type_names = pool(&["string", "style"], 0);
    p.key_names = pool(&["app_name", "Theme"], 0);
    p.types.push(ty);
    a
}

#[test]
fn decoded_indices_stay_in_bounds() {
    let bytes = encode(&bigger_table()).unwrap();
    let a = decode(&bytes).unwrap();
    for p in &a.packages {
        for t in &p.types {
            assert!(t.id >= 1 && t.id - 1 < p.type_names.strings.len());
            let specs = t.specs.as_ref().unwrap();
            for k in 0..specs.len() {
                assert!(specs.index(k).name_index < p.key_names.strings.len());
            }
            for c in &t.configs {
                for (k, e) in &c.resources {
                    assert!(*k < c.entry_count);
                    assert!(e.spec_id < specs.len());
                }
            }
        }
    }
    assert_eq!(encode(&a).unwrap(), bytes);
}

#[test]
fn type_id_beyond_type_names_is_corrupt() {
    let mut a = hello_table();
    a.packages[0].types[0].id = 2;
    a.packages[0].types[0].configs[0].type_id = 2;
    let bytes = encode(&a).unwrap();
    assert_eq!(decode(&bytes).unwrap_err(), ArscError::ResourceTableCorrupt);
}

#[test]
fn key_names_shorter_than_specs_is_corrupt() {
    let mut a = hello_table();
    a.packages[0].key_names = pool(&[], UTF8_FLAG);
    let bytes = encode(&a).unwrap();
    assert_eq!(decode(&bytes).unwrap_err(), ArscError::ResourceTableCorrupt);
}

#[test]
fn pool_with_styles_is_refused() {
    let p = pool(&["abc"], UTF8_FLAG);
    let mut out = Vec::new();
    assert!(encode_pool(&p, &mut out));
    out[12] = 1;
    assert_eq!(decode_pool(&out, 0).unwrap_err(), ArscError::StringPoolCorrupt);
}

#[test]
fn failing_configuration_fails_the_table() {
    let mut a = hello_table();
    a.packages[0].types[0].configs[0]
        .resources
        .insert(0, ResourceEntry { flags: 0, spec_id: 0, value: ResourceValue::Plain(plain(0x03, 7)) });
    let bytes = encode(&a).unwrap();
    assert_eq!(decode(&bytes).unwrap_err(), ArscError::InvalidStringReference);
}
