use save_codec::archive::{split_container, Me1SaveGame};
use save_codec::codec::{Dummy, ImguiString, SaveCursor};
use save_codec::error::Error;
use save_codec::package::Package;
use save_codec::property::{
    array_kind_of, decode_list, encode_list, get_name, ArrayKind, ArrayType, Data, NameTable,
    Property, StructType,
};
use save_codec::player::{ComplexTalent, Inventory, Item, ItemLevel, ItemMod, SimpleTalent};

fn u32le(out: &mut Vec<u8>, v: u32) {
    out.extend_from_slice(&v.to_le_bytes());
}

fn text(out: &mut Vec<u8>, s: &[u8]) {
    u32le(out, s.len() as u32);
    out.extend_from_slice(s);
}

const NAMES: [&[u8]; 16] = [
    b"None\0",
    b"IntProperty\0",
    b"BoolProperty",
    b"ByteProperty\0",
    b"StrProperty\0",
    b"StructProperty\0",
    b"ArrayProperty\0",
    b"Vector\0",
    b"m_PrereqTalentIDArray\0",
    b"m_aItem\0",
    b"m_Level",
    b"m_Values\0",
    b"m_Nested\0",
    b"SomeStruct\0",
    b"NameProperty\0",
    b"FloatProperty\0",
];

fn table() -> NameTable {
    NameTable { names: NAMES.iter().map(|n| ImguiString { bytes: n.to_vec() }).collect() }
}

fn header(out: &mut Vec<u8>, name_id: u32, type_id: u32, size: u32) {
    u32le(out, name_id);
    u32le(out, 0xa1);
    u32le(out, type_id);
    u32le(out, 0xa2);
    u32le(out, size);
    u32le(out, 0xa3);
}

fn terminator(out: &mut Vec<u8>) {
    u32le(out, 0);
    u32le(out, 0x77);
}

/// A list that touches every kind of node the decoder knows.
fn sample_list() -> Vec<u8> {
    let mut b = Vec::new();
    // Int
    header(&mut b, 10, 1, 4);
    u32le(&mut b, (-5i32) as u32);
    // Bool
    header(&mut b, 10, 2, 4);
    u32le(&mut b, 1);
    // Byte, one byte
    header(&mut b, 10, 3, 1);
    b.push(7);
    // Byte that is a name reference
    header(&mut b, 10, 3, 8);
    u32le(&mut b, 13);
    u32le(&mut b, 0x55);
    // Str
    header(&mut b, 10, 4, 9);
    text(&mut b, b"hello");
    // Float
    header(&mut b, 10, 15, 4);
    u32le(&mut b, 0x3f80_0000);
    // Struct Vector
    header(&mut b, 10, 5, 20);
    u32le(&mut b, 7);
    u32le(&mut b, 0);
    u32le(&mut b, 1);
    u32le(&mut b, 2);
    u32le(&mut b, 3);
    // Struct with nested list
    header(&mut b, 12, 5, 0);
    u32le(&mut b, 13);
    u32le(&mut b, 0);
    header(&mut b, 10, 1, 4);
    u32le(&mut b, 42);
    terminator(&mut b);
    // Int array
    header(&mut b, 8, 6, 12);
    u32le(&mut b, 2);
    u32le(&mut b, 100);
    u32le(&mut b, 200);
    // Object array
    header(&mut b, 9, 6, 8);
    u32le(&mut b, 1);
    u32le(&mut b, (-1i32) as u32);
    // Array of property lists
    header(&mut b, 11, 6, 0);
    u32le(&mut b, 2);
    terminator(&mut b);
    header(&mut b, 10, 1, 4);
    u32le(&mut b, 9);
    terminator(&mut b);
    terminator(&mut b);
    b
}

#[test]
fn list_round_trip_is_byte_exact() {
    let names = table();
    let bytes = sample_list();
    let (list, end) = decode_list(&names, &bytes, 0).unwrap();
    assert_eq!(end, bytes.len());
    assert_eq!(list.len(), 12);
    let mut out = Vec::new();
    encode_list(&list, &mut out).unwrap();
    assert_eq!(out, bytes);
}

#[test]
fn redecode_gives_same_tree() {
    let names = table();
    let bytes = sample_list();
    let (list, _) = decode_list(&names, &bytes, 0).unwrap();
    let mut out = Vec::new();
    encode_list(&list, &mut out).unwrap();
    let (again, _) = decode_list(&names, &out, 0).unwrap();
    let mut out2 = Vec::new();
    encode_list(&again, &mut out2).unwrap();
    assert_eq!(out2, out);
    assert_eq!(format!("{:?}", again), format!("{:?}", list));
}

#[test]
fn terminator_is_last_and_unique() {
    let names = table();
    let (list, _) = decode_list(&names, &sample_list(), 0).unwrap();
    let ends = list.iter().filter(|p| matches!(p, Property::Terminator { .. })).count();
    assert_eq!(ends, 1);
    assert!(matches!(list.last(), Some(Property::Terminator { .. })));
}

#[test]
fn indices_resolve_to_names() {
    let names = table();
    let (list, _) = decode_list(&names, &sample_list(), 0).unwrap();
    for p in &list {
        let id = match p {
            Property::Int { header, .. } | Property::Bool { header, .. } => {
                assert!(!get_name(&names, header.type_id).unwrap().bytes.is_empty());
                header.name_id
            }
            Property::Terminator { name_id, .. } => *name_id,
            _ => continue,
        };
        assert!(!get_name(&names, id).unwrap().bytes.is_empty());
    }
    assert_eq!(get_name(&names, 16).unwrap_err(), Error::NameIndexOutOfRange);
}

#[test]
fn byte_branch_follows_size() {
    let names = table();
    let (list, _) = decode_list(&names, &sample_list(), 0).unwrap();
    match &list[2] {
        Property::Byte { header, value } => {
            assert_eq!(header.size, 1);
            assert_eq!(*value, 7);
        }
        other => panic!("expected a byte, got {:?}", other),
    }
    match &list[3] {
        Property::Name { header, value_name_id, .. } => {
            assert_eq!(header.size, 8);
            assert_eq!(*value_name_id, 13);
        }
        other => panic!("expected a name reference, got {:?}", other),
    }
    assert_eq!(list[2].size().unwrap(), 25);
    assert_eq!(list[3].size().unwrap(), 32);
    let mut out = Vec::new();
    list[3].encode(&mut out).unwrap();
    assert_eq!(&out[16..20], &8u32.to_le_bytes());
    assert_eq!(out.len(), 32);
}

#[test]
fn array_table_decides_element_kind() {
    let names = table();
    let (list, _) = decode_list(&names, &sample_list(), 0).unwrap();
    match &list[8] {
        Property::Array { array, .. } => {
            assert!(matches!(array[0], ArrayType::Int(100)));
            assert!(matches!(array[1], ArrayType::Int(200)));
        }
        other => panic!("expected an array, got {:?}", other),
    }
    match &list[9] {
        Property::Array { array, .. } => assert!(matches!(array[0], ArrayType::Object(-1))),
        other => panic!("expected an array, got {:?}", other),
    }
    match &list[10] {
        Property::Array { array, .. } => {
            assert_eq!(array.len(), 2);
            assert!(matches!(array[0], ArrayType::Properties(_)));
        }
        other => panic!("expected an array, got {:?}", other),
    }
    assert_eq!(array_kind_of(&b"m_aItem".to_vec()), ArrayKind::Object);
    assert_eq!(array_kind_of(&b"m_vPosition\0".to_vec()), ArrayKind::Vector);
    assert_eq!(array_kind_of(&b"m_DependentPackages".to_vec()), ArrayKind::String);
    assert_eq!(array_kind_of(&b"m_QuickSlotArray".to_vec()), ArrayKind::Object);
    assert_eq!(array_kind_of(&b"m_PrereqTalentRankArray".to_vec()), ArrayKind::Int);
    assert_eq!(array_kind_of(&b"m_Other".to_vec()), ArrayKind::Properties);
}

#[test]
fn struct_payloads() {
    let names = table();
    let (list, _) = decode_list(&names, &sample_list(), 0).unwrap();
    match &list[6] {
        Property::Struct { properties: StructType::Vector(v), .. } => {
            assert_eq!((v.x, v.y, v.z), (1, 2, 3));
        }
        other => panic!("expected a vector struct, got {:?}", other),
    }
    match &list[7] {
        Property::Struct { properties: StructType::Properties(ps), .. } => {
            assert_eq!(ps.len(), 2);
            assert!(matches!(ps[0], Property::Int { value: 42, .. }));
        }
        other => panic!("expected a nested struct, got {:?}", other),
    }
}

#[test]
fn unknown_type_name_is_rejected() {
    let names = table();
    let mut b = Vec::new();
    header(&mut b, 10, 13, 4);
    u32le(&mut b, 1);
    terminator(&mut b);
    assert_eq!(decode_list(&names, &b, 0).unwrap_err(), Error::UnknownPropertyType);
}

#[test]
fn out_of_range_name_is_rejected() {
    let names = table();
    let mut b = Vec::new();
    header(&mut b, 99, 1, 4);
    u32le(&mut b, 1);
    assert_eq!(decode_list(&names, &b, 0).unwrap_err(), Error::NameIndexOutOfRange);
    let mut c = Vec::new();
    header(&mut c, 10, 99, 4);
    u32le(&mut c, 1);
    assert_eq!(decode_list(&names, &c, 0).unwrap_err(), Error::NameIndexOutOfRange);
}

#[test]
fn short_input_is_truncated() {
    let names = table();
    let bytes = sample_list();
    let cut = &bytes[..bytes.len() - 3];
    assert_eq!(decode_list(&names, &cut.to_vec(), 0).unwrap_err(), Error::TruncatedInput);
    assert_eq!(decode_list(&names, &Vec::new(), 0).unwrap_err(), Error::TruncatedInput);
}

#[test]
fn bool_outside_zero_one_is_invalid() {
    let names = table();
    let mut b = Vec::new();
    header(&mut b, 10, 2, 4);
    u32le(&mut b, 2);
    terminator(&mut b);
    assert_eq!(decode_list(&names, &b, 0).unwrap_err(), Error::InvalidValue);
}

fn package_bytes() -> Vec<u8> {
    let mut b = Vec::new();
    u32le(&mut b, NAMES.len() as u32);
    for n in NAMES.iter() {
        text(&mut b, n);
    }
    u32le(&mut b, 0xdead_beef);
    b.extend_from_slice(&sample_list());
    b.extend_from_slice(&[9, 8, 7]);
    b
}

#[test]
fn package_round_trip() {
    let bytes = package_bytes();
    let p = Package::decode(&bytes).unwrap();
    assert_eq!(p.names.names.len(), NAMES.len());
    assert_eq!(p.trailing, vec![9, 8, 7]);
    assert_eq!(p.data.pad.as_bytes(), &0xdead_beefu32.to_le_bytes().to_vec());
    assert_eq!(p.encode().unwrap(), bytes);
    let again = Package::decode(&p.encode().unwrap()).unwrap();
    assert_eq!(again.encode().unwrap(), bytes);
}

#[test]
fn data_size_counts_every_byte() {
    let bytes = package_bytes();
    let p = Package::decode(&bytes).unwrap();
    assert_eq!(p.data.size().unwrap(), 4 + sample_list().len());
    let d = Data { pad: Dummy::default(), properties: Vec::new() };
    assert_eq!(d.size().unwrap(), 4);
}

fn entry_names(save: &[u8]) -> Vec<String> {
    let offset = u32::from_le_bytes([save[8], save[9], save[10], save[11]]) as usize;
    let archive = zip::ZipArchive::new(std::io::Cursor::new(save[offset..].to_vec())).unwrap();
    let mut names: Vec<String> = archive.file_names().map(|s| s.to_string()).collect();
    names.sort();
    names
}

fn save_with(world: Option<Vec<u8>>) -> Vec<u8> {
    let game = Me1SaveGame::from_entries(
        Dummy::default(),
        16,
        vec![1, 2, 3, 4],
        Some(package_bytes()),
        Some(vec![5, 6, 7]),
        world,
    )
    .unwrap();
    game.encode().unwrap()
}

#[test]
fn save_without_world_entry() {
    let bytes = save_with(None);
    let game = Me1SaveGame::decode(&bytes).unwrap();
    assert!(game.world_save_package.is_none());
    assert_eq!(game.state, vec![5, 6, 7]);
    assert_eq!(game.no_mans_land, vec![1, 2, 3, 4]);
    let again = game.encode().unwrap();
    assert_eq!(entry_names(&again), vec!["player.sav".to_string(), "state.sav".to_string()]);
    assert_eq!(again, bytes);
}

#[test]
fn save_with_world_entry() {
    let bytes = save_with(Some(vec![0xaa, 0xbb]));
    let game = Me1SaveGame::decode(&bytes).unwrap();
    assert_eq!(game.world_save_package, Some(vec![0xaa, 0xbb]));
    assert_eq!(game.player.encode().unwrap(), package_bytes());
    let again = game.encode().unwrap();
    assert_eq!(
        entry_names(&again),
        vec!["WorldSavePackage.sav".to_string(), "player.sav".to_string(), "state.sav".to_string()]
    );
}

#[test]
fn missing_entries_and_bad_containers() {
    let r = Me1SaveGame::from_entries(Dummy::default(), 12, Vec::new(), None, Some(vec![]), None);
    assert_eq!(r.unwrap_err(), Error::MissingRequiredArchiveEntry);
    let r = Me1SaveGame::from_entries(Dummy::default(), 12, Vec::new(), Some(package_bytes()), None, None);
    assert_eq!(r.unwrap_err(), Error::MissingRequiredArchiveEntry);
    let mut bad = vec![0u8; 8];
    u32le(&mut bad, 12);
    bad.extend_from_slice(b"not an archive");
    assert_eq!(Me1SaveGame::decode(&bad).unwrap_err(), Error::ContainerFormatError);
    let mut low = vec![0u8; 8];
    u32le(&mut low, 11);
    assert_eq!(split_container(&low).unwrap_err(), Error::TruncatedInput);
    assert_eq!(split_container(&vec![0u8; 5]).unwrap_err(), Error::TruncatedInput);
}

#[test]
fn talents_round_trip() {
    let mut b = Vec::new();
    u32le(&mut b, 3);
    u32le(&mut b, 4);
    let (t, p) = SimpleTalent::decode(&b, 0).unwrap();
    assert_eq!(t, SimpleTalent { talent_id: 3, ranks: 4 });
    assert_eq!(p, 8);
    let mut out = Vec::new();
    t.encode(&mut out);
    assert_eq!(out, b);
    assert_eq!(SimpleTalent::decode(&b, 1).unwrap_err(), Error::TruncatedInput);

    let c = ComplexTalent {
        talent_id: 1,
        ranks: 2,
        max_rank: 12,
        level_offset: -1,
        levels_per_rank: 1,
        visual_order: 5,
        prereq_talent_id_array: vec![7, 8],
        prereq_talent_rank_array: vec![1],
    };
    let mut enc = Vec::new();
    c.encode(&mut enc).unwrap();
    assert_eq!(enc.len(), 24 + 4 + 8 + 4 + 4);
    let (back, end) = ComplexTalent::decode(&enc, 0).unwrap();
    assert_eq!(back, c);
    assert_eq!(end, enc.len());
}

#[test]
fn item_level_codes() {
    assert_eq!(ItemLevel::from_code(0).unwrap(), ItemLevel::Unset);
    assert_eq!(ItemLevel::from_code(10).unwrap(), ItemLevel::X);
    assert_eq!(ItemLevel::VII.code(), 7);
    assert_eq!(ItemLevel::from_code(11).unwrap_err(), Error::InvalidValue);
    assert_eq!(ItemLevel::default(), ItemLevel::Unset);
}

#[test]
fn dummy_default_is_zeroed() {
    let d: Dummy<4> = Dummy::default();
    assert_eq!(d.as_bytes(), &vec![0u8; 4]);
    let mut out = Vec::new();
    d.encode(&mut out);
    assert_eq!(out, vec![0u8; 4]);
}

#[test]
fn inventory_round_trip() {
    let sword = Item {
        item_id: 11,
        item_level: ItemLevel::III,
        manufacturer_id: 4,
        plot_conditional_id: -1,
        unknown_bool: true,
        is_junk: false,
        attached_mods: vec![ItemMod { item_id: 2, item_level: ItemLevel::X, manufacturer_id: 9, pad: Dummy::default() }],
    };
    let inv = Inventory {
        equipped: vec![sword.clone()],
        quick_slots: Vec::new(),
        inventory: vec![sword.clone(), Item::default()],
        saved_backpack_items: Vec::new(),
    };
    let mut enc = Vec::new();
    inv.encode(&mut enc).unwrap();
    let item_len = 4 + 1 + 4 + 4 + 4 + 4 + 4 + (4 + 1 + 4 + 4);
    let plain_len = 4 + 1 + 4 + 4 + 4 + 4 + 4;
    assert_eq!(enc.len(), 4 * 4 + 2 * item_len + plain_len);
    let (back, end) = Inventory::decode(&enc, 0).unwrap();
    assert_eq!(end, enc.len());
    assert_eq!(back.inventory.len(), 2);
    assert_eq!(back.equipped[0].item_level, ItemLevel::III);
    assert_eq!(back.equipped[0].attached_mods[0].manufacturer_id, 9);
    let mut again = Vec::new();
    back.encode(&mut again).unwrap();
    assert_eq!(again, enc);
}

#[test]
fn item_with_bad_level_is_invalid() {
    let mut enc = Vec::new();
    Item::default().encode(&mut enc).unwrap();
    enc[4] = 11;
    assert_eq!(Item::decode(&enc, 0).unwrap_err(), Error::InvalidValue);
    enc[4] = 0;
    enc[17] = 2;
    assert_eq!(Item::decode(&enc, 0).unwrap_err(), Error::InvalidValue);
}

#[test]
fn cursor_reads_and_tracks_position() {
    let mut c = SaveCursor::new(vec![1, 2, 3, 4, 5]);
    assert_eq!(c.position(), 0);
    assert_eq!(c.read(2).unwrap(), vec![1, 2]);
    assert_eq!(c.position(), 2);
    assert_eq!(c.read(4).unwrap_err(), Error::TruncatedInput);
    assert_eq!(c.position(), 2);
    assert_eq!(c.read_to_end(), vec![3, 4, 5]);
    assert_eq!(c.position(), 5);
    assert_eq!(c.read_to_end(), Vec::<u8>::new());
    assert_eq!(c.read(0).unwrap(), Vec::<u8>::new());
}

#[test]
fn save_encoding_is_deterministic() {
    let bytes = save_with(Some(vec![1, 2]));
    let game = Me1SaveGame::decode(&bytes).unwrap();
    assert_eq!(game.encode().unwrap(), game.encode().unwrap());
    let again = Me1SaveGame::decode(&game.encode().unwrap()).unwrap();
    assert_eq!(again.world_save_package, game.world_save_package);
    assert_eq!(again.player.encode().unwrap(), game.player.encode().unwrap());
}

#[test]
fn dummy_clone_keeps_bytes() {
    let mut b = Vec::new();
    u32le(&mut b, 0x0102_0304);
    let (d, _) = Dummy::<4>::decode(&b, 0).unwrap();
    assert_eq!(d.clone().as_bytes(), &b);
}
