use apkdoctor::dex_model::DexModel;
use apkdoctor::dex_structs::{
    Header, MapItem, MapList, StringDataItem, StringIdItem, TypeCode, TypeIdItem,
    TypeItem, TypeList,
};
use apkdoctor::{deserialize, serialize, DeserializeError};

fn header(file_size: u32, map_off: u32) -> Header {
    let mut magic = [0u8; 8];
    magic.copy_from_slice(b"dex\n038\0");
    Header {
        magic,
        checksum: 0,
        signature: [0; 20],
        file_size,
        header_size: 0x70,
        endian_tag: 0x12345678,
        link_size: 0,
        link_off: 0,
        map_off,
        string_ids_size: 2,
        string_ids_off: 0x70,
        type_ids_size: 1,
        type_ids_off: 0x78,
        proto_ids_size: 0,
        proto_ids_off: 0,
        field_ids_size: 0,
        field_ids_off: 0,
        method_ids_size: 0,
        method_ids_off: 0,
        class_defs_size: 0,
        class_defs_off: 0,
        data_size: 0,
        data_off: 0,
    }
}

/// A small file: header, two string ids, one type id, the map list, two strings and a
/// type list that needs alignment padding before it.
fn sample_model() -> DexModel {
    let map_off: u32 = 0x7c;
    let map_entries = 6u32;
    let string_data_off = map_off + 4 + 12 * map_entries;
    let strings = vec![
        StringDataItem { utf16_size: 1, data: vec![b'V', 0] },
        StringDataItem { utf16_size: 2, data: vec![b'L', b';', 0] },
    ];
    let string_bytes: u32 = 3 + 4;
    let type_list_off = (string_data_off + string_bytes + 3) / 4 * 4;
    let type_list = TypeList { list: vec![TypeItem { type_idx: 0 }] };
    let file_size = type_list_off + 6;
    let map_list = MapList {
        list: vec![
            MapItem { type_code: TypeCode::TypeHeaderItem, unused: 0, size: 1, offset: 0 },
            MapItem { type_code: TypeCode::TypeStringIdItem, unused: 0, size: 2, offset: 0x70 },
            MapItem { type_code: TypeCode::TypeTypeIdItem, unused: 0, size: 1, offset: 0x78 },
            MapItem { type_code: TypeCode::TypeMapList, unused: 0, size: 1, offset: map_off },
            MapItem { type_code: TypeCode::TypeStringDataItem, unused: 0, size: 2, offset: string_data_off },
            MapItem { type_code: TypeCode::TypeTypeList, unused: 0, size: 1, offset: type_list_off },
        ],
    };
    DexModel {
        header: header(file_size, map_off),
        string_ids: vec![
            StringIdItem { string_data_off },
            StringIdItem { string_data_off: string_data_off + 3 },
        ],
        type_ids: vec![TypeIdItem { descriptor_idx: 1 }],
        proto_ids: vec![],
        field_ids: vec![],
        method_ids: vec![],
        class_defs: vec![],
        call_site_ids: vec![],
        method_handles: vec![],
        type_lists: vec![type_list],
        string_data_items: strings,
        annotation_set_ref_lists: vec![],
        annotation_set_items: vec![],
        annotation_items: vec![],
        annotations_directory_items: vec![],
        encoded_array_items: vec![],
        class_data_items: vec![],
        debug_info_items: vec![],
        code_items: vec![],
        hiddenapi_class_data_items: vec![],
        link_data: vec![],
        map_list,
    }
}

#[test]
fn lib_test() {
    // An empty source cannot yield a header.
    assert_eq!(deserialize(&[]).err(), Some(DeserializeError::IoError));
}

#[test]
fn synthetic_file_round_trip() {
    let bytes = serialize(sample_model());
    assert_eq!(bytes.len(), sample_model().header.file_size as usize);
    assert_eq!(&bytes[0..8], b"dex\n038\0");
    let dex = deserialize(&bytes).unwrap();
    assert_eq!(dex.header, sample_model().header);
    assert_eq!(dex.string_data_items, sample_model().string_data_items);
    assert_eq!(dex.type_lists, sample_model().type_lists);
    assert_eq!(dex.map_list, sample_model().map_list);
    let again = serialize(dex);
    assert_eq!(again, bytes);
}

#[test]
fn synthetic_file_section_bytes() {
    let model = sample_model();
    let string_data_off = model.map_list.get(TypeCode::TypeStringDataItem).unwrap().offset as usize;
    let type_list_off = model.map_list.get(TypeCode::TypeTypeList).unwrap().offset as usize;
    let bytes = serialize(model);
    assert_eq!(&bytes[string_data_off..string_data_off + 7], &[1, b'V', 0, 2, b'L', b';', 0]);
    // Alignment filler between the strings and the type list stays zero.
    assert!(bytes[string_data_off + 7..type_list_off].iter().all(|b| *b == 0));
    assert_eq!(&bytes[type_list_off..type_list_off + 6], &[1, 0, 0, 0, 0, 0]);
    assert_eq!(&bytes[0x70..0x74], &(string_data_off as u32).to_le_bytes());
}

#[test]
fn rejects_wrong_file_size() {
    let mut bytes = serialize(sample_model());
    bytes.push(0);
    assert_eq!(deserialize(&bytes).err(), Some(DeserializeError::FormatError));
}

#[test]
fn rejects_misaligned_section() {
    let mut model = sample_model();
    let type_list_off = model.map_list.list[5].offset;
    model.map_list.list[5].offset = type_list_off - 1;
    let bytes = serialize(model);
    assert_eq!(deserialize(&bytes).err(), Some(DeserializeError::FormatError));
}

#[test]
fn rejects_hiddenapi_sections() {
    let mut model = sample_model();
    model.map_list.list[2].type_code = TypeCode::TypeHiddenapiClassDataItem;
    let bytes = serialize(model);
    assert_eq!(deserialize(&bytes).err(), Some(DeserializeError::UnsupportedFeature));
}

#[test]
fn rejects_duplicate_sections() {
    let mut model = sample_model();
    model.map_list.list[2].type_code = TypeCode::TypeStringIdItem;
    let bytes = serialize(model);
    assert_eq!(deserialize(&bytes).err(), Some(DeserializeError::FormatError));
}

#[test]
fn sections_not_in_the_map_list_are_empty() {
    let bytes = serialize(sample_model());
    let dex = deserialize(&bytes).unwrap();
    assert_eq!(dex.string_ids.len(), 2);
    assert_eq!(dex.type_ids.len(), 1);
    assert!(dex.proto_ids.is_empty());
    assert!(dex.class_defs.is_empty());
    assert!(dex.code_items.is_empty());
    assert!(dex.annotation_items.is_empty());
    assert!(dex.hiddenapi_class_data_items.is_empty());
}
