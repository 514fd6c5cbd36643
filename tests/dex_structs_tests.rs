use apkdoctor::dex_structs::{
    AnnotationElement, AnnotationItem, ClassDataItem, CodeItem, DebugInfoItem, DexStruct,
    EncodedAnnotation, EncodedArray, EncodedCatchHandler, EncodedCatchHandlerList, EncodedField,
    EncodedMethod, EncodedTypeAddressPair, EncodedValue, FieldIdItem, Header, MapItem, MapList,
    ProtoIdItem, StringDataItem, TryItem, TypeCode, TypeItem, TypeList,
};
use apkdoctor::DeserializeError;

fn bytes_of<T: DexStruct>(v: &T) -> Vec<u8> {
    let mut out = vec![];
    v.serialize(&mut out);
    assert_eq!(out.len(), v.size());
    out
}

fn read_back<T: DexStruct>(bytes: &[u8]) -> T {
    let (v, end) = T::deserialize(bytes, 0).unwrap();
    assert_eq!(end, bytes.len());
    v
}

#[test]
fn proto_id_item_layout() {
    let item = ProtoIdItem { shorty_idx: 1, return_type_idx: 0x0203, parameters_off: 0x1000 };
    let bytes = bytes_of(&item);
    assert_eq!(bytes, vec![1, 0, 0, 0, 3, 2, 0, 0, 0, 0x10, 0, 0]);
    assert_eq!(read_back::<ProtoIdItem>(&bytes), item);
    assert_eq!(ProtoIdItem::alignment(), 4);
}

#[test]
fn field_id_item_truncated() {
    let item = FieldIdItem { class_idx: 7, type_idx: 8, name_idx: 9 };
    let bytes = bytes_of(&item);
    assert_eq!(bytes.len(), 8);
    assert_eq!(FieldIdItem::deserialize(&bytes[..7], 0), Err(DeserializeError::IoError));
}

#[test]
fn header_layout_and_size() {
    let mut magic = [0u8; 8];
    magic.copy_from_slice(b"dex\n038\0");
    let header = Header {
        magic,
        checksum: 0x11223344,
        signature: [0xab; 20],
        file_size: 0x200,
        header_size: 0x70,
        endian_tag: 0x12345678,
        link_size: 0,
        link_off: 0,
        map_off: 0x100,
        string_ids_size: 0,
        string_ids_off: 0,
        type_ids_size: 0,
        type_ids_off: 0,
        proto_ids_size: 0,
        proto_ids_off: 0,
        field_ids_size: 0,
        field_ids_off: 0,
        method_ids_size: 0,
        method_ids_off: 0,
        class_defs_size: 0,
        class_defs_off: 0,
        data_size: 0,
        data_off: 0,
    };
    let bytes = bytes_of(&header);
    assert_eq!(bytes.len(), 0x70);
    assert_eq!(&bytes[0..8], b"dex\n038\0");
    assert_eq!(&bytes[8..12], &[0x44, 0x33, 0x22, 0x11]);
    assert_eq!(&bytes[32..36], &[0x00, 0x02, 0x00, 0x00]);
    assert_eq!(read_back::<Header>(&bytes), header);
    // Unknown header sizes are kept as they are.
    let mut other = bytes.clone();
    other[36] = 0x78;
    let (read, end) = Header::deserialize(&other, 0).unwrap();
    assert_eq!(read.header_size, 0x78);
    assert_eq!(end, 0x70);
    assert_eq!(Header::deserialize(&bytes[..0x6f], 0), Err(DeserializeError::IoError));
}

#[test]
fn string_data_item_keeps_terminator() {
    let bytes = vec![0x03, b'a', b'b', b'c', 0x00, 0x55];
    let (item, end) = StringDataItem::deserialize(&bytes, 0).unwrap();
    assert_eq!(end, 5);
    assert_eq!(item.utf16_size, 3);
    assert_eq!(item.data, vec![b'a', b'b', b'c', 0x00]);
    assert_eq!(bytes_of(&item), bytes[..5].to_vec());
    assert_eq!(StringDataItem::deserialize(&[0x01, b'a'], 0), Err(DeserializeError::IoError));
}

#[test]
fn type_list_layout() {
    let list = TypeList { list: vec![TypeItem { type_idx: 5 }, TypeItem { type_idx: 0x102 }, TypeItem { type_idx: 9 }] };
    let bytes = bytes_of(&list);
    assert_eq!(bytes, vec![3, 0, 0, 0, 5, 0, 2, 1, 9, 0]);
    assert_eq!(read_back::<TypeList>(&bytes), list);
}

#[test]
fn class_data_item_layout() {
    let item = ClassDataItem {
        static_fields: vec![EncodedField { field_idx_off: 1, access_flags: 0x19 }],
        instance_fields: vec![],
        direct_methods: vec![EncodedMethod { method_idx_off: 2, access_flags: 0x10001, code_off: 0x200 }],
        virtual_methods: vec![],
    };
    let bytes = bytes_of(&item);
    assert_eq!(bytes, vec![1, 0, 1, 0, 1, 0x19, 2, 0x81, 0x80, 0x04, 0x80, 0x04]);
    assert_eq!(read_back::<ClassDataItem>(&bytes), item);
}

#[test]
fn code_item_pads_when_tries_follow_odd_insns() {
    let item = CodeItem {
        registers_size: 2,
        ins_size: 1,
        outs_size: 0,
        debug_info_off: 0,
        insns: vec![0x000e],
        tries: vec![TryItem { start_addr: 0, insn_count: 1, handler_off: 1 }],
        handlers: Some(EncodedCatchHandlerList {
            list: vec![EncodedCatchHandler {
                handlers: vec![EncodedTypeAddressPair { type_idx: 3, addr: 0 }],
                catch_all_addr: Some(0),
            }],
        }),
    };
    let bytes = bytes_of(&item);
    assert_eq!(
        bytes,
        vec![
            2, 0, 1, 0, 0, 0, 1, 0, 0, 0, 0, 0, 1, 0, 0, 0, 0x0e, 0, 0, 0, 0, 0, 0, 0, 1, 0, 1,
            0, 1, 0x7f, 3, 0, 0
        ]
    );
    assert_eq!(read_back::<CodeItem>(&bytes), item);
    let mut bad_pad = bytes.clone();
    bad_pad[18] = 1;
    assert_eq!(CodeItem::deserialize(&bad_pad, 0), Err(DeserializeError::FormatError));
}

#[test]
fn code_item_without_tries_has_no_padding() {
    let item = CodeItem {
        registers_size: 1,
        ins_size: 0,
        outs_size: 0,
        debug_info_off: 0x40,
        insns: vec![0x0012, 0x000e, 0x0001],
        tries: vec![],
        handlers: None,
    };
    let bytes = bytes_of(&item);
    assert_eq!(bytes.len(), 16 + 6);
    assert_eq!(read_back::<CodeItem>(&bytes), item);
}

#[test]
fn catch_handler_sign_encodes_catch_all() {
    let typed_only = EncodedCatchHandler {
        handlers: vec![EncodedTypeAddressPair { type_idx: 1, addr: 2 }],
        catch_all_addr: None,
    };
    assert_eq!(bytes_of(&typed_only), vec![0x01, 0x01, 0x02]);
    let catch_all_only = EncodedCatchHandler { handlers: vec![], catch_all_addr: Some(5) };
    assert_eq!(bytes_of(&catch_all_only), vec![0x00, 0x05]);
    assert_eq!(read_back::<EncodedCatchHandler>(&[0x00, 0x05]), catch_all_only);
    let both = EncodedCatchHandler {
        handlers: vec![EncodedTypeAddressPair { type_idx: 1, addr: 2 }],
        catch_all_addr: Some(9),
    };
    assert_eq!(bytes_of(&both), vec![0x7f, 0x01, 0x02, 0x09]);
    assert_eq!(read_back::<EncodedCatchHandler>(&[0x7f, 0x01, 0x02, 0x09]), both);
}

#[test]
fn debug_info_item_layout() {
    let item = DebugInfoItem {
        line_start: 10,
        parameter_names: vec![-1, 4],
        bytecode: vec![0x07, 0x0e, 0x00],
    };
    let bytes = bytes_of(&item);
    assert_eq!(bytes, vec![10, 2, 0, 5, 0x07, 0x0e, 0x00]);
    assert_eq!(read_back::<DebugInfoItem>(&bytes), item);
}

#[test]
fn encoded_values_minimum_width() {
    let cases: Vec<(EncodedValue, Vec<u8>)> = vec![
        (EncodedValue::ValueByte(-1), vec![0x00, 0xff]),
        (EncodedValue::ValueShort(-2), vec![0x02, 0xfe]),
        (EncodedValue::ValueChar(0x41), vec![0x03, 0x41]),
        (EncodedValue::ValueInt(239), vec![0x24, 0xef, 0x00]),
        (EncodedValue::ValueInt(-129), vec![0x24, 0x7f, 0xff]),
        (EncodedValue::ValueLong(1 << 40), vec![0xa6, 0, 0, 0, 0, 0, 0x01]),
        (EncodedValue::ValueFloat(1.0f32.to_bits()), vec![0x30, 0x80, 0x3f]),
        (EncodedValue::ValueDouble(2.0f64.to_bits()), vec![0x11, 0x40]),
        (EncodedValue::ValueString(36420), vec![0x37, 0x44, 0x8e]),
        (EncodedValue::ValueType(0), vec![0x18, 0x00]),
        (EncodedValue::ValueNull, vec![0x1e]),
        (EncodedValue::ValueBoolean(true), vec![0x3f]),
        (EncodedValue::ValueBoolean(false), vec![0x1f]),
    ];
    for (value, bytes) in cases {
        assert_eq!(bytes_of(&value), bytes, "for {:?}", value);
        assert_eq!(read_back::<EncodedValue>(&bytes), value);
    }
}

#[test]
fn encoded_values_reject_non_minimal_widths() {
    // An int 1 written in two bytes.
    assert_eq!(EncodedValue::deserialize(&[0x24, 0x01, 0x00], 0), Err(DeserializeError::FormatError));
    // A short wider than two bytes.
    assert_eq!(
        EncodedValue::deserialize(&[0x42, 0x01, 0x02, 0x03], 0),
        Err(DeserializeError::FormatError)
    );
    // An unknown value type.
    assert_eq!(EncodedValue::deserialize(&[0x05], 0), Err(DeserializeError::FormatError));
    // Null with a non-zero argument.
    assert_eq!(EncodedValue::deserialize(&[0x3e], 0), Err(DeserializeError::FormatError));
}

#[test]
fn nested_arrays_and_annotations() {
    let value = EncodedValue::ValueArray(EncodedArray {
        values: vec![
            EncodedValue::ValueInt(1),
            EncodedValue::ValueAnnotation(EncodedAnnotation {
                type_idx: 7,
                elements: vec![AnnotationElement { name_idx: 3, value: EncodedValue::ValueBoolean(true) }],
            }),
        ],
    });
    let bytes = bytes_of(&value);
    assert_eq!(bytes, vec![0x1c, 0x02, 0x04, 0x01, 0x1d, 0x07, 0x01, 0x03, 0x3f]);
    assert_eq!(read_back::<EncodedValue>(&bytes), value);

    let item = AnnotationItem {
        visibility: 1,
        annotation: EncodedAnnotation { type_idx: 2, elements: vec![] },
    };
    assert_eq!(bytes_of(&item), vec![0x01, 0x02, 0x00]);
}

#[test]
fn map_list_lookup_and_unknown_codes() {
    let list = MapList {
        list: vec![
            MapItem { type_code: TypeCode::TypeHeaderItem, unused: 0, size: 1, offset: 0 },
            MapItem { type_code: TypeCode::TypeStringIdItem, unused: 0, size: 4, offset: 0x70 },
            MapItem { type_code: TypeCode::TypeMapList, unused: 0, size: 1, offset: 0x200 },
        ],
    };
    assert_eq!(list.get(TypeCode::TypeStringIdItem).unwrap().offset, 0x70);
    assert!(list.get(TypeCode::TypeCodeItem).is_none());
    let bytes = bytes_of(&list);
    assert_eq!(bytes.len(), 4 + 3 * 12);
    assert_eq!(&bytes[16..18], &[0x01, 0x00]);
    assert_eq!(read_back::<MapList>(&bytes), list);
    let mut unknown = bytes.clone();
    unknown[16] = 0x09;
    assert_eq!(MapList::deserialize(&unknown, 0), Err(DeserializeError::FormatError));
    assert_eq!(TypeCode::from_code(0xf000), Some(TypeCode::TypeHiddenapiClassDataItem));
    assert_eq!(TypeCode::TypeAnnotationsDirectoryItem.code(), 0x2006);
}
