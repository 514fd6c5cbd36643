//! The in-memory model of a DEX file and the mathematical description of its layout:
//! which bytes the model puts at which offsets.
use crate::dex_structs::{
    all_well_formed, AnnotationItem, AnnotationSetItem, AnnotationSetRefList, AnnotationsDirectoryItem, CallSiteIdItem, ClassDataItem, ClassDefItem, CodeItem, DebugInfoItem, EncodedArrayItem, FieldIdItem, MethodHandleItem, MethodIdItem, ProtoIdItem, StringDataItem, StringIdItem, TypeIdItem, TypeList, DexStruct, Header, HiddenapiClassDataItem, MapItem, MapList, TypeCode,
};
use crate::wire::occurs_at;
use vstd::prelude::*;

verus! {

/// A decoded DEX file: the header, every section as a list of records, and the map list.
#[derive(Debug)]
pub struct DexModel {
    pub header: Header,
    pub string_ids: Vec<StringIdItem>,
    pub type_ids: Vec<TypeIdItem>,
    pub proto_ids: Vec<ProtoIdItem>,
    pub field_ids: Vec<FieldIdItem>,
    pub method_ids: Vec<MethodIdItem>,
    pub class_defs: Vec<ClassDefItem>,
    pub call_site_ids: Vec<CallSiteIdItem>,
    pub method_handles: Vec<MethodHandleItem>,
    pub type_lists: Vec<TypeList>,
    pub string_data_items: Vec<StringDataItem>,
    pub annotation_set_ref_lists: Vec<AnnotationSetRefList>,
    pub annotation_set_items: Vec<AnnotationSetItem>,
    pub annotation_items: Vec<AnnotationItem>,
    pub annotations_directory_items: Vec<AnnotationsDirectoryItem>,
    pub encoded_array_items: Vec<EncodedArrayItem>,
    pub class_data_items: Vec<ClassDataItem>,
    pub debug_info_items: Vec<DebugInfoItem>,
    pub code_items: Vec<CodeItem>,
    pub hiddenapi_class_data_items: Vec<HiddenapiClassDataItem>,
    pub link_data: Vec<u8>,
    pub map_list: MapList,
}

/// `n` zero bytes.
pub open spec fn zeros(n: nat) -> Seq<u8> {
    Seq::new(n, |i: int| 0u8)
}

/// The number of filler bytes that bring position `p` to a multiple of `a`.
pub open spec fn pad_len(p: int, a: nat) -> nat {
    if a == 0 || p % (a as int) == 0 {
        0
    } else {
        (a - p % (a as int)) as nat
    }
}

/// The bytes of a section that starts at offset `off`: each record in turn, preceded by
/// the zero bytes that align it.
pub open spec fn section_image<T: DexStruct>(off: int, s: Seq<T>) -> Seq<u8>
    decreases s.len(),
{
    if s.len() == 0 {
        seq![]
    } else {
        let prev = section_image(off, s.drop_last());
        prev + zeros(pad_len(off + prev.len(), T::spec_alignment())) + s.last().encoding()
    }
}

/// The alignment that the records of a section kind need.
pub open spec fn type_alignment(t: TypeCode) -> nat {
    match t {
        TypeCode::TypeStringIdItem | TypeCode::TypeTypeIdItem | TypeCode::TypeProtoIdItem | TypeCode::TypeFieldIdItem | TypeCode::TypeMethodIdItem | TypeCode::TypeClassDefItem | TypeCode::TypeCallSiteIdItem | TypeCode::TypeMethodHandleItem | TypeCode::TypeTypeList | TypeCode::TypeAnnotationSetRefList | TypeCode::TypeAnnotationSetItem | TypeCode::TypeAnnotationsDirectoryItem | TypeCode::TypeCodeItem | TypeCode::TypeMapList => 4,
        _ => 1,
    }
}

/// The bytes that the model places at the offset of one map entry.
pub open spec fn section_bytes(m: DexModel, item: MapItem) -> Seq<u8> {
    let off = item.offset as int;
    match item.type_code {
        TypeCode::TypeStringIdItem => section_image(off, m.string_ids@),
        TypeCode::TypeTypeIdItem => section_image(off, m.type_ids@),
        TypeCode::TypeProtoIdItem => section_image(off, m.proto_ids@),
        TypeCode::TypeFieldIdItem => section_image(off, m.field_ids@),
        TypeCode::TypeMethodIdItem => section_image(off, m.method_ids@),
        TypeCode::TypeClassDefItem => section_image(off, m.class_defs@),
        TypeCode::TypeCallSiteIdItem => section_image(off, m.call_site_ids@),
        TypeCode::TypeMethodHandleItem => section_image(off, m.method_handles@),
        TypeCode::TypeTypeList => section_image(off, m.type_lists@),
        TypeCode::TypeStringDataItem => section_image(off, m.string_data_items@),
        TypeCode::TypeAnnotationSetRefList => section_image(off, m.annotation_set_ref_lists@),
        TypeCode::TypeAnnotationSetItem => section_image(off, m.annotation_set_items@),
        TypeCode::TypeAnnotationItem => section_image(off, m.annotation_items@),
        TypeCode::TypeAnnotationsDirectoryItem => section_image(off, m.annotations_directory_items@),
        TypeCode::TypeEncodedArrayItem => section_image(off, m.encoded_array_items@),
        TypeCode::TypeClassDataItem => section_image(off, m.class_data_items@),
        TypeCode::TypeDebugInfoItem => section_image(off, m.debug_info_items@),
        TypeCode::TypeCodeItem => section_image(off, m.code_items@),
        _ => seq![],
    }
}

/// The number of records the model holds for the section kind of a map entry (for the
/// header and the map list, which are held apart, the entry's own count).
pub open spec fn section_count(m: DexModel, item: MapItem) -> nat {
    match item.type_code {
        TypeCode::TypeStringIdItem => m.string_ids@.len(),
        TypeCode::TypeTypeIdItem => m.type_ids@.len(),
        TypeCode::TypeProtoIdItem => m.proto_ids@.len(),
        TypeCode::TypeFieldIdItem => m.field_ids@.len(),
        TypeCode::TypeMethodIdItem => m.method_ids@.len(),
        TypeCode::TypeClassDefItem => m.class_defs@.len(),
        TypeCode::TypeCallSiteIdItem => m.call_site_ids@.len(),
        TypeCode::TypeMethodHandleItem => m.method_handles@.len(),
        TypeCode::TypeTypeList => m.type_lists@.len(),
        TypeCode::TypeStringDataItem => m.string_data_items@.len(),
        TypeCode::TypeAnnotationSetRefList => m.annotation_set_ref_lists@.len(),
        TypeCode::TypeAnnotationSetItem => m.annotation_set_items@.len(),
        TypeCode::TypeAnnotationItem => m.annotation_items@.len(),
        TypeCode::TypeAnnotationsDirectoryItem => m.annotations_directory_items@.len(),
        TypeCode::TypeEncodedArrayItem => m.encoded_array_items@.len(),
        TypeCode::TypeClassDataItem => m.class_data_items@.len(),
        TypeCode::TypeDebugInfoItem => m.debug_info_items@.len(),
        TypeCode::TypeCodeItem => m.code_items@.len(),
        TypeCode::TypeHiddenapiClassDataItem => m.hiddenapi_class_data_items@.len(),
        _ => item.size as nat,
    }
}

/// The number of records the model holds of a section kind (none for the header and the
/// map list, which are held apart).
pub open spec fn records_of_kind(m: DexModel, t: TypeCode) -> nat {
    match t {
        TypeCode::TypeStringIdItem => m.string_ids@.len(),
        TypeCode::TypeTypeIdItem => m.type_ids@.len(),
        TypeCode::TypeProtoIdItem => m.proto_ids@.len(),
        TypeCode::TypeFieldIdItem => m.field_ids@.len(),
        TypeCode::TypeMethodIdItem => m.method_ids@.len(),
        TypeCode::TypeClassDefItem => m.class_defs@.len(),
        TypeCode::TypeCallSiteIdItem => m.call_site_ids@.len(),
        TypeCode::TypeMethodHandleItem => m.method_handles@.len(),
        TypeCode::TypeTypeList => m.type_lists@.len(),
        TypeCode::TypeStringDataItem => m.string_data_items@.len(),
        TypeCode::TypeAnnotationSetRefList => m.annotation_set_ref_lists@.len(),
        TypeCode::TypeAnnotationSetItem => m.annotation_set_items@.len(),
        TypeCode::TypeAnnotationItem => m.annotation_items@.len(),
        TypeCode::TypeAnnotationsDirectoryItem => m.annotations_directory_items@.len(),
        TypeCode::TypeEncodedArrayItem => m.encoded_array_items@.len(),
        TypeCode::TypeClassDataItem => m.class_data_items@.len(),
        TypeCode::TypeDebugInfoItem => m.debug_info_items@.len(),
        TypeCode::TypeCodeItem => m.code_items@.len(),
        TypeCode::TypeHiddenapiClassDataItem => m.hiddenapi_class_data_items@.len(),
        _ => 0,
    }
}

/// Some entry of the map list names sections of kind `t`.
pub open spec fn map_names(list: Seq<MapItem>, t: TypeCode) -> bool {
    exists|k: int| 0 <= k < list.len() && (#[trigger] list[k]).type_code == t
}

/// Every write that serializing the model makes, in order: the header, the map list,
/// the link data, then one section per map entry.
pub open spec fn model_runs(m: DexModel) -> Seq<(int, Seq<u8>)> {
    seq![
        (0int, m.header.encoding()),
        (m.header.map_off as int, m.map_list.encoding()),
        (m.header.link_off as int, m.link_data@),
    ] + m.map_list.list@.map_values(|item: MapItem| (item.offset as int, section_bytes(m, item)))
}

/// `buf` with `b` written at `off`, growing it with zeros where `b` reaches past its end.
pub open spec fn overwrite(buf: Seq<u8>, off: int, b: Seq<u8>) -> Seq<u8> {
    if b.len() == 0 {
        buf
    } else {
        Seq::new(
            if buf.len() >= off + b.len() {
                buf.len()
            } else {
                (off + b.len()) as nat
            },
            |i: int|
                if off <= i < off + b.len() {
                    b[i - off]
                } else if i < buf.len() {
                    buf[i]
                } else {
                    0u8
                },
        )
    }
}

/// The writes applied one after another.
pub open spec fn apply_runs(buf: Seq<u8>, runs: Seq<(int, Seq<u8>)>) -> Seq<u8>
    decreases runs.len(),
{
    if runs.len() == 0 {
        buf
    } else {
        overwrite(apply_runs(buf, runs.drop_last()), runs.last().0, runs.last().1)
    }
}

/// The bytes of the serialized model: a zero-filled file of the header's `file_size`
/// with every write of the model applied.
pub open spec fn serialized(m: DexModel) -> Seq<u8> {
    apply_runs(zeros(m.header.file_size as nat), model_runs(m))
}

/// Every record of the model can be written, and every write ends within memory.
pub open spec fn model_wf(m: DexModel) -> bool {
    &&& m.header.well_formed()
    &&& m.map_list.well_formed()
    &&& all_well_formed(m.string_ids@)
    &&& all_well_formed(m.type_ids@)
    &&& all_well_formed(m.proto_ids@)
    &&& all_well_formed(m.field_ids@)
    &&& all_well_formed(m.method_ids@)
    &&& all_well_formed(m.class_defs@)
    &&& all_well_formed(m.call_site_ids@)
    &&& all_well_formed(m.method_handles@)
    &&& all_well_formed(m.type_lists@)
    &&& all_well_formed(m.string_data_items@)
    &&& all_well_formed(m.annotation_set_ref_lists@)
    &&& all_well_formed(m.annotation_set_items@)
    &&& all_well_formed(m.annotation_items@)
    &&& all_well_formed(m.annotations_directory_items@)
    &&& all_well_formed(m.encoded_array_items@)
    &&& all_well_formed(m.class_data_items@)
    &&& all_well_formed(m.debug_info_items@)
    &&& all_well_formed(m.code_items@)
    &&& m.hiddenapi_class_data_items@.len() == 0
    &&& forall|k: int|
        0 <= k < model_runs(m).len() ==> 0 <= (#[trigger] model_runs(m)[k]).0 && model_runs(m)[k].0
            + model_runs(m)[k].1.len() <= usize::MAX
}

/// Each map entry's offset is a multiple of its records' alignment.
pub open spec fn sections_aligned(m: DexModel) -> bool {
    forall|k: int|
        0 <= k < m.map_list.list@.len() ==> (#[trigger] m.map_list.list@[k]).offset as int % (
        type_alignment(m.map_list.list@[k].type_code) as int) == 0
}

/// No two map entries name the same kind of section.
pub open spec fn map_types_unique(list: Seq<MapItem>) -> bool {
    forall|i: int, j: int|
        0 <= i < j < list.len() ==> (#[trigger] list[i]).type_code != (#[trigger] list[j]).type_code
}

/// `m` is what decoding `data` gives: the model's every write finds its own bytes in
/// `data` at its offset, the file size is the length of `data`, sections are aligned and
/// hold as many records as their map entries declare, no section is of a kind the codec
/// does not represent, and every kind of section that the map list does not name is empty.
pub open spec fn decodes_to(data: Seq<u8>, m: DexModel) -> bool {
    &&& model_wf(m)
    &&& m.header.file_size == data.len()
    &&& m.header.map_off % 4 == 0
    &&& m.link_data@.len() == m.header.link_size
    &&& sections_aligned(m)
    &&& map_types_unique(m.map_list.list@)
    &&& forall|k: int|
        0 <= k < m.map_list.list@.len() ==> (#[trigger] m.map_list.list@[k]).type_code
            != TypeCode::TypeHiddenapiClassDataItem && section_count(m, m.map_list.list@[k])
            == m.map_list.list@[k].size
    &&& forall|t: TypeCode|
        !map_names(m.map_list.list@, t) ==> #[trigger] records_of_kind(m, t) == 0
    &&& forall|k: int|
        0 <= k < model_runs(m).len() ==> occurs_at(
            data,
            (#[trigger] model_runs(m)[k]).0,
            model_runs(m)[k].1,
        )
}

/// `data` begins with header `h`, whose file size is the length of `data`, and holds at
/// the header's map offset the map list `ml`, which names each kind of section once.
pub open spec fn framed_by(data: Seq<u8>, h: Header, ml: MapList) -> bool {
    &&& occurs_at(data, 0, h.encoding())
    &&& h.file_size == data.len()
    &&& h.map_off % 4 == 0
    &&& ml.well_formed()
    &&& occurs_at(data, h.map_off as int, ml.encoding())
    &&& map_types_unique(ml.list@)
}

/// The map list of `data` names a hidden-API section, a kind this codec does not represent.
pub open spec fn lists_hiddenapi(data: Seq<u8>) -> bool {
    exists|h: Header, ml: MapList|
        #[trigger] framed_by(data, h, ml) && map_names(ml.list@, TypeCode::TypeHiddenapiClassDataItem)
}

/// A position lies within one of the writes.
pub open spec fn covered(runs: Seq<(int, Seq<u8>)>, i: int) -> bool {
    exists|k: int| 0 <= k < runs.len() && (#[trigger] runs[k]).0 <= i < runs[k].0 + runs[k].1.len()
}

} // verus!
