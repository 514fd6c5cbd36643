//! A codec for the Dalvik Executable (DEX) container format: [`deserialize`] reads a
//! file into a [`DexModel`], [`serialize`] writes a model back byte for byte.
use vstd::prelude::*;

pub mod decode;
pub mod dex_model;
pub mod dex_structs;
pub mod encode;
pub mod encoded_value;
pub mod encoded_value_utils;
pub mod instructions;
pub mod wire;

use crate::dex_model::{
    apply_runs, covered, decodes_to, framed_by, lists_hiddenapi, map_names, records_of_kind, section_count, map_types_unique, model_runs, model_wf, overwrite, pad_len, section_bytes,
    section_image, serialized, type_alignment, zeros, DexModel,
};
use crate::dex_structs::{
    all_well_formed, lemma_header_fields, lemma_map_list_equal, lemma_occurs_concat, lemma_occurs_prefix, AnnotationItem, AnnotationSetItem, AnnotationSetRefList, AnnotationsDirectoryItem, CallSiteIdItem, ClassDataItem, ClassDefItem, CodeItem, DebugInfoItem, EncodedArrayItem, FieldIdItem, MethodHandleItem, MethodIdItem, ProtoIdItem, StringDataItem, StringIdItem, TypeIdItem, TypeList, DexStruct, Header, MapItem, MapList, TypeCode,
};
use crate::wire::occurs_at;

verus! {

/// Why a byte stream could not be decoded.
#[derive(Debug, Clone, Copy, PartialEq, Eq, Structural)]
pub enum DeserializeError {
    /// The input ended before a record was complete.
    IoError,
    /// The bytes do not follow the wire grammar (or are not in its minimal form).
    FormatError,
    /// The input holds a structure this codec does not represent.
    UnsupportedFeature,
}

/// Writes `bytes` into `buf` at `off`, growing `buf` with zeros where needed.
pub fn write_at(buf: &mut Vec<u8>, off: usize, bytes: &Vec<u8>)
    requires
        off + bytes@.len() <= usize::MAX,
    ensures
        final(buf)@ == overwrite(old(buf)@, off as int, bytes@),
{
    if bytes.len() == 0 {
        return;
    }
    while buf.len() < off
        invariant
            old(buf)@.len() <= buf@.len(),
            buf@.len() <= off || buf@.len() == old(buf)@.len(),
            forall|j: int| 0 <= j < buf@.len() ==> buf@[j] == if j < old(buf)@.len() {
                old(buf)@[j]
            } else {
                0u8
            },
        decreases off - buf@.len(),
    {
        buf.push(0);
    }
    let ghost padded_len = buf@.len();
    let mut i: usize = 0;
    while i < bytes.len()
        invariant
            i <= bytes@.len(),
            off + bytes@.len() <= usize::MAX,
            padded_len >= off,
            padded_len >= old(buf)@.len(),
            padded_len == off || padded_len == old(buf)@.len(),
            buf@.len() == if padded_len >= off + i {
                padded_len
            } else {
                (off + i) as nat
            },
            forall|j: int| 0 <= j < buf@.len() ==> buf@[j] == if off <= j < off + i {
                bytes@[j - off]
            } else if j < old(buf)@.len() {
                old(buf)@[j]
            } else {
                0u8
            },
        decreases bytes@.len() - i,
    {
        if off + i < buf.len() {
            buf[off + i] = bytes[i];
        } else {
            buf.push(bytes[i]);
        }
        i = i + 1;
    }
    assert(buf@ =~= overwrite(old(buf)@, off as int, bytes@));
}

/// Consumes the zero bytes that bring `pos` to a multiple of `align`.
fn skip_padding(data: &[u8], pos: usize, align: usize) -> (res: Result<usize, DeserializeError>)
    requires
        align >= 1,
    ensures
        res matches Ok(q) ==> q == pos + pad_len(pos as int, align as nat) && occurs_at(
            data@,
            pos as int,
            zeros(pad_len(pos as int, align as nat)),
        ),
        res is Err ==> !occurs_at(data@, pos as int, zeros(pad_len(pos as int, align as nat))),
{
    let r = pos % align;
    let k: usize = if r == 0 {
        0
    } else {
        align - r
    };
    assert(k == pad_len(pos as int, align as nat));
    if pos > data.len() || k > data.len() - pos {
        return Err(DeserializeError::IoError);
    }
    let mut j: usize = 0;
    while j < k
        invariant
            j <= k,
            k == pad_len(pos as int, align as nat),
            pos + k <= data.len(),
            forall|t: int| 0 <= t < j ==> #[trigger] data@[pos + t] == 0,
        decreases k - j,
    {
        if data[pos + j] != 0 {
            proof {
                if occurs_at(data@, pos as int, zeros(k as nat)) {
                    assert(data@.subrange(pos as int, pos + k)[j as int] == zeros(
                        k as nat,
                    )[j as int]);
                }
            }
            return Err(DeserializeError::FormatError);
        }
        j = j + 1;
    }
    assert forall|t: int| 0 <= t < k implies data@.subrange(pos as int, pos + k)[t] == zeros(
        k as nat,
    )[t] by {
        assert(data@[pos + t] == 0);
    }
    assert(data@.subrange(pos as int, pos + k) =~= zeros(k as nat));
    Ok(pos + k)
}

/// The first `i + 1` records of a section are laid out as the first `i`, the filler that
/// aligns the next record, and that record.
proof fn lemma_section_image_step<T: DexStruct>(off: int, s: Seq<T>, i: int)
    requires
        0 <= i < s.len(),
    ensures
        section_image(off, s.take(i + 1)) == section_image(off, s.take(i)) + zeros(
            pad_len(off + section_image(off, s.take(i)).len(), T::spec_alignment()),
        ) + s[i].encoding(),
{
    assert(s.take(i + 1).drop_last() =~= s.take(i));
}

/// Where a section occurs, so does the layout of each prefix of its records.
proof fn lemma_section_image_occurs_take<T: DexStruct>(data: Seq<u8>, off: int, s: Seq<T>, j: int)
    requires
        0 <= j <= s.len(),
        occurs_at(data, off, section_image(off, s)),
    ensures
        occurs_at(data, off, section_image(off, s.take(j))),
    decreases s.len() - j,
{
    if j == s.len() {
        assert(s.take(j) =~= s);
    } else {
        lemma_section_image_occurs_take(data, off, s, j + 1);
        lemma_section_image_step(off, s, j);
        let prev = section_image(off, s.take(j));
        assert(prev + zeros(pad_len(off + prev.len(), T::spec_alignment())) + s[j].encoding() =~= prev + (
        zeros(pad_len(off + prev.len(), T::spec_alignment())) + s[j].encoding()));
        lemma_occurs_prefix(
            data,
            off,
            prev,
            zeros(pad_len(off + prev.len(), T::spec_alignment())) + s[j].encoding(),
        );
    }
}

/// Reads the records of one section at the offset its map entry declares.
pub fn deserialize_dex_section<T: DexStruct>(map_item: &MapItem, data: &[u8]) -> (res: Result<
    Vec<T>,
    DeserializeError,
>)
    ensures
        res matches Ok(v) ==> all_well_formed(v@) && v@.len() == map_item.size && occurs_at(
            data@,
            map_item.offset as int,
            section_image(map_item.offset as int, v@),
        ),
        res is Err ==> forall|s: Seq<T>|
            s.len() == map_item.size && all_well_formed(s) ==> !occurs_at(
                data@,
                map_item.offset as int,
                #[trigger] section_image(map_item.offset as int, s),
            ),
{
    let off = map_item.offset as usize;
    let align = T::alignment();
    if off > data.len() {
        return Err(DeserializeError::FormatError);
    }
    let mut items: Vec<T> = Vec::new();
    assert(forall|s: Seq<T>| #[trigger] s.take(0) =~= Seq::<T>::empty());
    let mut p = off;
    let mut i: u32 = 0;
    assert(data@.subrange(off as int, off as int) =~= section_image(off as int, items@));
    while i < map_item.size
        invariant
            align == T::spec_alignment(),
            align >= 1,
            off == map_item.offset,
            i <= map_item.size,
            items@.len() == i,
            all_well_formed(items@),
            p == off + section_image(off as int, items@).len(),
            occurs_at(data@, off as int, section_image(off as int, items@)),
            forall|s: Seq<T>|
                s.len() == map_item.size && all_well_formed(s) && #[trigger] occurs_at(
                    data@,
                    off as int,
                    section_image(off as int, s),
                ) ==> section_image(off as int, s.take(i as int)) == section_image(off as int, items@),
        decreases map_item.size - i,
    {
        let q = match skip_padding(data, p, align) {
            Ok(q) => q,
            Err(e) => {
                assert forall|s: Seq<T>| s.len() == map_item.size && all_well_formed(s) implies !occurs_at(
                    data@,
                    off as int,
                    #[trigger] section_image(off as int, s),
                ) by {
                    if occurs_at(data@, off as int, section_image(off as int, s)) {
                        lemma_section_image_occurs_take(data@, off as int, s, i + 1);
                        lemma_section_image_step(off as int, s, i as int);
                        let prev = section_image(off as int, s.take(i as int));
                        let pad = zeros(pad_len(off + prev.len(), align as nat));
                        lemma_occurs_prefix(data@, off as int, prev + pad, s[i as int].encoding());
                        lemma_occurs_prefix(data@, off as int, prev, pad);
                    }
                }
                return Err(e);
            },
        };
        let (item, next) = match T::deserialize(data, q) {
            Ok(r) => r,
            Err(e) => {
                assert forall|s: Seq<T>| s.len() == map_item.size && all_well_formed(s) implies !occurs_at(
                    data@,
                    off as int,
                    #[trigger] section_image(off as int, s),
                ) by {
                    if occurs_at(data@, off as int, section_image(off as int, s)) {
                        lemma_section_image_occurs_take(data@, off as int, s, i + 1);
                        lemma_section_image_step(off as int, s, i as int);
                        let prev = section_image(off as int, s.take(i as int));
                        let pad = zeros(pad_len(off + prev.len(), align as nat));
                        lemma_occurs_prefix(data@, off as int, prev + pad, s[i as int].encoding());
                        lemma_occurs_prefix(data@, off as int, prev, pad);
                    }
                }
                return Err(e);
            },
        };
        let ghost image = section_image(off as int, items@);
        let ghost pad = zeros(pad_len(p as int, align as nat));
        proof {
            lemma_occurs_concat(data@, off as int, image, pad);
            lemma_occurs_concat(data@, off as int, image + pad, item.encoding());
        }
        let ghost prev = items@;
        items.push(item);
        assert(items@.drop_last() =~= prev);
        proof {
            assert forall|s: Seq<T>|
                s.len() == map_item.size && all_well_formed(s) && #[trigger] occurs_at(
                    data@,
                    off as int,
                    section_image(off as int, s),
                ) implies section_image(off as int, s.take(i + 1)) == section_image(off as int, items@) by {
                lemma_section_image_occurs_take(data@, off as int, s, i + 1);
                lemma_section_image_step(off as int, s, i as int);
                let before = section_image(off as int, s.take(i as int));
                let pad = zeros(pad_len(off + before.len(), align as nat));
                lemma_occurs_prefix(data@, off as int, before + pad, s[i as int].encoding());
                T::lemma_prefix_free(data@, q as int, item, s[i as int]);
            }
        }
        p = next;
        i = i + 1;
    }
    Ok(items)
}

proof fn lemma_section_image_prefix_len<T: DexStruct>(off: int, s: Seq<T>, i: int)
    requires
        0 <= i <= s.len(),
    ensures
        section_image(off, s.take(i)).len() <= section_image(off, s).len(),
    decreases s.len() - i,
{
    if i < s.len() {
        lemma_section_image_prefix_len(off, s, i + 1);
        assert(s.take(i + 1).drop_last() =~= s.take(i));
    } else {
        assert(s.take(i) =~= s);
    }
}

/// Writes the records of one section at the offset its map entry declares, each
/// preceded by the zero bytes that align it.
pub fn serialize_dex_section<T: DexStruct>(map_item: &MapItem, section: &Vec<T>, buf: &mut Vec<u8>)
    requires
        all_well_formed(section@),
        map_item.offset + section_image(map_item.offset as int, section@).len() <= usize::MAX,
    ensures
        final(buf)@ == overwrite(
            old(buf)@,
            map_item.offset as int,
            section_image(map_item.offset as int, section@),
        ),
{
    let off = map_item.offset as usize;
    let align = T::alignment();
    let mut image: Vec<u8> = Vec::new();
    let mut i: usize = 0;
    assert(section@.take(0) =~= seq![]);
    while i < section.len()
        invariant
            align == T::spec_alignment(),
            align >= 1,
            off == map_item.offset,
            i <= section@.len(),
            all_well_formed(section@),
            off + section_image(off as int, section@).len() <= usize::MAX,
            image@ == section_image(off as int, section@.take(i as int)),
        decreases section@.len() - i,
    {
        proof {
            lemma_section_image_prefix_len(off as int, section@, i + 1);
            assert(section@.take(i + 1).drop_last() =~= section@.take(i as int));
        }
        let ghost prev = image@;
        let r = (off + image.len()) % align;
        let k: usize = if r == 0 {
            0
        } else {
            align - r
        };
        let mut j: usize = 0;
        while j < k
            invariant
                j <= k,
                image@ == prev + zeros(j as nat),
            decreases k - j,
        {
            image.push(0);
            assert(image@ =~= prev + zeros((j + 1) as nat));
            j = j + 1;
        }
        section[i].serialize(&mut image);
        i = i + 1;
    }
    assert(section@.take(section@.len() as int) =~= section@);
    write_at(buf, off, &image);
}

/// The alignment that the records of a section kind need.
pub fn alignment_of(t: TypeCode) -> (r: usize)
    ensures
        r == type_alignment(t),
        r == 1 || r == 4,
{
    match t {
        TypeCode::TypeStringIdItem | TypeCode::TypeTypeIdItem | TypeCode::TypeProtoIdItem | TypeCode::TypeFieldIdItem | TypeCode::TypeMethodIdItem | TypeCode::TypeClassDefItem | TypeCode::TypeCallSiteIdItem | TypeCode::TypeMethodHandleItem | TypeCode::TypeTypeList | TypeCode::TypeAnnotationSetRefList | TypeCode::TypeAnnotationSetItem | TypeCode::TypeAnnotationsDirectoryItem | TypeCode::TypeCodeItem | TypeCode::TypeMapList => 4,
        _ => 1,
    }
}

/// Whether no two map entries name the same kind of section.
pub fn map_types_distinct(list: &Vec<MapItem>) -> (r: bool)
    ensures
        r == map_types_unique(list@),
{
    let mut i: usize = 0;
    while i < list.len()
        invariant
            i <= list@.len(),
            forall|a: int, b: int|
                0 <= a < i && a < b < list@.len() ==> (#[trigger] list@[a]).type_code != (
                #[trigger] list@[b]).type_code,
        decreases list@.len() - i,
    {
        let mut j: usize = i + 1;
        while j < list.len()
            invariant
                i < list@.len(),
                i < j <= list@.len(),
                forall|a: int, b: int|
                    0 <= a < i && a < b < list@.len() ==> (#[trigger] list@[a]).type_code != (
                    #[trigger] list@[b]).type_code,
                forall|b: int| i < b < j ==> list@[i as int].type_code != (#[trigger] list@[b]).type_code,
            decreases list@.len() - j,
        {
            if list[i].type_code == list[j].type_code {
                return false;
            }
            j = j + 1;
        }
        i = i + 1;
    }
    true
}

/// Whether some map entry names sections of kind `t`.
pub fn map_names_kind(list: &Vec<MapItem>, t: TypeCode) -> (r: bool)
    ensures
        r == map_names(list@, t),
{
    let mut i: usize = 0;
    while i < list.len()
        invariant
            i <= list@.len(),
            forall|k: int| 0 <= k < i ==> (#[trigger] list@[k]).type_code != t,
        decreases list@.len() - i,
    {
        if list[i].type_code == t {
            return true;
        }
        i = i + 1;
    }
    false
}

/// Reads `len` raw bytes at `off`.
fn read_bytes(data: &[u8], off: usize, len: usize) -> (res: Result<Vec<u8>, DeserializeError>)
    ensures
        res matches Ok(v) ==> v@.len() == len && occurs_at(data@, off as int, v@),
        res is Err ==> off + len > data@.len(),
{
    if off > data.len() || len > data.len() - off {
        return Err(DeserializeError::FormatError);
    }
    let mut v: Vec<u8> = Vec::new();
    let mut i: usize = 0;
    while i < len
        invariant
            i <= len,
            off + len <= data.len(),
            v@ == data@.subrange(off as int, off + i),
        decreases len - i,
    {
        v.push(data[off + i]);
        assert(v@ =~= data@.subrange(off as int, off + i + 1));
        i = i + 1;
    }
    Ok(v)
}

/// Reads a section of one of the identifier tables into its place in the model.
#[verifier::rlimit(100)]
fn deserialize_table_section(item: &MapItem, data: &[u8], m: &mut DexModel) -> (res: Result<
    (),
    DeserializeError,
>)
    requires
        item.offset <= data@.len(),
        (item.type_code == TypeCode::TypeStringIdItem || item.type_code == TypeCode::TypeTypeIdItem || item.type_code == TypeCode::TypeProtoIdItem || item.type_code == TypeCode::TypeFieldIdItem || item.type_code == TypeCode::TypeMethodIdItem || item.type_code == TypeCode::TypeClassDefItem || item.type_code == TypeCode::TypeCallSiteIdItem || item.type_code == TypeCode::TypeMethodHandleItem || item.type_code == TypeCode::TypeTypeList),
        all_well_formed(old(m).string_ids@),
        all_well_formed(old(m).type_ids@),
        all_well_formed(old(m).proto_ids@),
        all_well_formed(old(m).field_ids@),
        all_well_formed(old(m).method_ids@),
        all_well_formed(old(m).class_defs@),
        all_well_formed(old(m).call_site_ids@),
        all_well_formed(old(m).method_handles@),
        all_well_formed(old(m).type_lists@),
        all_well_formed(old(m).string_data_items@),
        all_well_formed(old(m).annotation_set_ref_lists@),
        all_well_formed(old(m).annotation_set_items@),
        all_well_formed(old(m).annotation_items@),
        all_well_formed(old(m).annotations_directory_items@),
        all_well_formed(old(m).encoded_array_items@),
        all_well_formed(old(m).class_data_items@),
        all_well_formed(old(m).debug_info_items@),
        all_well_formed(old(m).code_items@),
    ensures
        final(m).header == old(m).header,
        final(m).map_list == old(m).map_list,
        final(m).link_data == old(m).link_data,
        final(m).hiddenapi_class_data_items == old(m).hiddenapi_class_data_items,
        final(m).string_ids == old(m).string_ids || item.type_code == TypeCode::TypeStringIdItem,
        final(m).type_ids == old(m).type_ids || item.type_code == TypeCode::TypeTypeIdItem,
        final(m).proto_ids == old(m).proto_ids || item.type_code == TypeCode::TypeProtoIdItem,
        final(m).field_ids == old(m).field_ids || item.type_code == TypeCode::TypeFieldIdItem,
        final(m).method_ids == old(m).method_ids || item.type_code == TypeCode::TypeMethodIdItem,
        final(m).class_defs == old(m).class_defs || item.type_code == TypeCode::TypeClassDefItem,
        final(m).call_site_ids == old(m).call_site_ids || item.type_code == TypeCode::TypeCallSiteIdItem,
        final(m).method_handles == old(m).method_handles || item.type_code == TypeCode::TypeMethodHandleItem,
        final(m).type_lists == old(m).type_lists || item.type_code == TypeCode::TypeTypeList,
        final(m).string_data_items == old(m).string_data_items || item.type_code == TypeCode::TypeStringDataItem,
        final(m).annotation_set_ref_lists == old(m).annotation_set_ref_lists || item.type_code == TypeCode::TypeAnnotationSetRefList,
        final(m).annotation_set_items == old(m).annotation_set_items || item.type_code == TypeCode::TypeAnnotationSetItem,
        final(m).annotation_items == old(m).annotation_items || item.type_code == TypeCode::TypeAnnotationItem,
        final(m).annotations_directory_items == old(m).annotations_directory_items || item.type_code == TypeCode::TypeAnnotationsDirectoryItem,
        final(m).encoded_array_items == old(m).encoded_array_items || item.type_code == TypeCode::TypeEncodedArrayItem,
        final(m).class_data_items == old(m).class_data_items || item.type_code == TypeCode::TypeClassDataItem,
        final(m).debug_info_items == old(m).debug_info_items || item.type_code == TypeCode::TypeDebugInfoItem,
        final(m).code_items == old(m).code_items || item.type_code == TypeCode::TypeCodeItem,
        res is Ok ==> all_well_formed(final(m).string_ids@),
        res is Ok ==> all_well_formed(final(m).type_ids@),
        res is Ok ==> all_well_formed(final(m).proto_ids@),
        res is Ok ==> all_well_formed(final(m).field_ids@),
        res is Ok ==> all_well_formed(final(m).method_ids@),
        res is Ok ==> all_well_formed(final(m).class_defs@),
        res is Ok ==> all_well_formed(final(m).call_site_ids@),
        res is Ok ==> all_well_formed(final(m).method_handles@),
        res is Ok ==> all_well_formed(final(m).type_lists@),
        res is Ok ==> all_well_formed(final(m).string_data_items@),
        res is Ok ==> all_well_formed(final(m).annotation_set_ref_lists@),
        res is Ok ==> all_well_formed(final(m).annotation_set_items@),
        res is Ok ==> all_well_formed(final(m).annotation_items@),
        res is Ok ==> all_well_formed(final(m).annotations_directory_items@),
        res is Ok ==> all_well_formed(final(m).encoded_array_items@),
        res is Ok ==> all_well_formed(final(m).class_data_items@),
        res is Ok ==> all_well_formed(final(m).debug_info_items@),
        res is Ok ==> all_well_formed(final(m).code_items@),
        res is Ok ==> occurs_at(data@, item.offset as int, section_bytes(*final(m), *item)),
        res is Ok ==> item.type_code != TypeCode::TypeHiddenapiClassDataItem && section_count(*final(m), *item) == item.size,
        res is Err ==> item.type_code == TypeCode::TypeHiddenapiClassDataItem || forall|md: DexModel|
            model_wf(md) && section_count(md, *item) == item.size ==> !occurs_at(
                data@,
                item.offset as int,
                #[trigger] section_bytes(md, *item),
            ),
{
    match item.type_code {
        TypeCode::TypeStringIdItem => {
            m.string_ids = match deserialize_dex_section::<StringIdItem>(item, data) {
                Ok(v) => v,
                Err(e) => return Err(e),
            };
        },
        TypeCode::TypeTypeIdItem => {
            m.type_ids = match deserialize_dex_section::<TypeIdItem>(item, data) {
                Ok(v) => v,
                Err(e) => return Err(e),
            };
        },
        TypeCode::TypeProtoIdItem => {
            m.proto_ids = match deserialize_dex_section::<ProtoIdItem>(item, data) {
                Ok(v) => v,
                Err(e) => return Err(e),
            };
        },
        TypeCode::TypeFieldIdItem => {
            m.field_ids = match deserialize_dex_section::<FieldIdItem>(item, data) {
                Ok(v) => v,
                Err(e) => return Err(e),
            };
        },
        TypeCode::TypeMethodIdItem => {
            m.method_ids = match deserialize_dex_section::<MethodIdItem>(item, data) {
                Ok(v) => v,
                Err(e) => return Err(e),
            };
        },
        TypeCode::TypeClassDefItem => {
            m.class_defs = match deserialize_dex_section::<ClassDefItem>(item, data) {
                Ok(v) => v,
                Err(e) => return Err(e),
            };
        },
        TypeCode::TypeCallSiteIdItem => {
            m.call_site_ids = match deserialize_dex_section::<CallSiteIdItem>(item, data) {
                Ok(v) => v,
                Err(e) => return Err(e),
            };
        },
        TypeCode::TypeMethodHandleItem => {
            m.method_handles = match deserialize_dex_section::<MethodHandleItem>(item, data) {
                Ok(v) => v,
                Err(e) => return Err(e),
            };
        },
        TypeCode::TypeTypeList => {
            m.type_lists = match deserialize_dex_section::<TypeList>(item, data) {
                Ok(v) => v,
                Err(e) => return Err(e),
            };
        },
        _ => {
            return Err(DeserializeError::UnsupportedFeature);
        },
    }
    Ok(())
}

/// Reads a section of the data area into its place in the model.
#[verifier::rlimit(100)]
fn deserialize_data_section(item: &MapItem, data: &[u8], m: &mut DexModel) -> (res: Result<
    (),
    DeserializeError,
>)
    requires
        item.offset <= data@.len(),
        (item.type_code == TypeCode::TypeStringDataItem || item.type_code == TypeCode::TypeAnnotationSetRefList || item.type_code == TypeCode::TypeAnnotationSetItem || item.type_code == TypeCode::TypeAnnotationItem || item.type_code == TypeCode::TypeAnnotationsDirectoryItem || item.type_code == TypeCode::TypeEncodedArrayItem || item.type_code == TypeCode::TypeClassDataItem || item.type_code == TypeCode::TypeDebugInfoItem || item.type_code == TypeCode::TypeCodeItem),
        all_well_formed(old(m).string_ids@),
        all_well_formed(old(m).type_ids@),
        all_well_formed(old(m).proto_ids@),
        all_well_formed(old(m).field_ids@),
        all_well_formed(old(m).method_ids@),
        all_well_formed(old(m).class_defs@),
        all_well_formed(old(m).call_site_ids@),
        all_well_formed(old(m).method_handles@),
        all_well_formed(old(m).type_lists@),
        all_well_formed(old(m).string_data_items@),
        all_well_formed(old(m).annotation_set_ref_lists@),
        all_well_formed(old(m).annotation_set_items@),
        all_well_formed(old(m).annotation_items@),
        all_well_formed(old(m).annotations_directory_items@),
        all_well_formed(old(m).encoded_array_items@),
        all_well_formed(old(m).class_data_items@),
        all_well_formed(old(m).debug_info_items@),
        all_well_formed(old(m).code_items@),
    ensures
        final(m).header == old(m).header,
        final(m).map_list == old(m).map_list,
        final(m).link_data == old(m).link_data,
        final(m).hiddenapi_class_data_items == old(m).hiddenapi_class_data_items,
        final(m).string_ids == old(m).string_ids || item.type_code == TypeCode::TypeStringIdItem,
        final(m).type_ids == old(m).type_ids || item.type_code == TypeCode::TypeTypeIdItem,
        final(m).proto_ids == old(m).proto_ids || item.type_code == TypeCode::TypeProtoIdItem,
        final(m).field_ids == old(m).field_ids || item.type_code == TypeCode::TypeFieldIdItem,
        final(m).method_ids == old(m).method_ids || item.type_code == TypeCode::TypeMethodIdItem,
        final(m).class_defs == old(m).class_defs || item.type_code == TypeCode::TypeClassDefItem,
        final(m).call_site_ids == old(m).call_site_ids || item.type_code == TypeCode::TypeCallSiteIdItem,
        final(m).method_handles == old(m).method_handles || item.type_code == TypeCode::TypeMethodHandleItem,
        final(m).type_lists == old(m).type_lists || item.type_code == TypeCode::TypeTypeList,
        final(m).string_data_items == old(m).string_data_items || item.type_code == TypeCode::TypeStringDataItem,
        final(m).annotation_set_ref_lists == old(m).annotation_set_ref_lists || item.type_code == TypeCode::TypeAnnotationSetRefList,
        final(m).annotation_set_items == old(m).annotation_set_items || item.type_code == TypeCode::TypeAnnotationSetItem,
        final(m).annotation_items == old(m).annotation_items || item.type_code == TypeCode::TypeAnnotationItem,
        final(m).annotations_directory_items == old(m).annotations_directory_items || item.type_code == TypeCode::TypeAnnotationsDirectoryItem,
        final(m).encoded_array_items == old(m).encoded_array_items || item.type_code == TypeCode::TypeEncodedArrayItem,
        final(m).class_data_items == old(m).class_data_items || item.type_code == TypeCode::TypeClassDataItem,
        final(m).debug_info_items == old(m).debug_info_items || item.type_code == TypeCode::TypeDebugInfoItem,
        final(m).code_items == old(m).code_items || item.type_code == TypeCode::TypeCodeItem,
        res is Ok ==> all_well_formed(final(m).string_ids@),
        res is Ok ==> all_well_formed(final(m).type_ids@),
        res is Ok ==> all_well_formed(final(m).proto_ids@),
        res is Ok ==> all_well_formed(final(m).field_ids@),
        res is Ok ==> all_well_formed(final(m).method_ids@),
        res is Ok ==> all_well_formed(final(m).class_defs@),
        res is Ok ==> all_well_formed(final(m).call_site_ids@),
        res is Ok ==> all_well_formed(final(m).method_handles@),
        res is Ok ==> all_well_formed(final(m).type_lists@),
        res is Ok ==> all_well_formed(final(m).string_data_items@),
        res is Ok ==> all_well_formed(final(m).annotation_set_ref_lists@),
        res is Ok ==> all_well_formed(final(m).annotation_set_items@),
        res is Ok ==> all_well_formed(final(m).annotation_items@),
        res is Ok ==> all_well_formed(final(m).annotations_directory_items@),
        res is Ok ==> all_well_formed(final(m).encoded_array_items@),
        res is Ok ==> all_well_formed(final(m).class_data_items@),
        res is Ok ==> all_well_formed(final(m).debug_info_items@),
        res is Ok ==> all_well_formed(final(m).code_items@),
        res is Ok ==> occurs_at(data@, item.offset as int, section_bytes(*final(m), *item)),
        res is Ok ==> item.type_code != TypeCode::TypeHiddenapiClassDataItem && section_count(*final(m), *item) == item.size,
        res is Err ==> item.type_code == TypeCode::TypeHiddenapiClassDataItem || forall|md: DexModel|
            model_wf(md) && section_count(md, *item) == item.size ==> !occurs_at(
                data@,
                item.offset as int,
                #[trigger] section_bytes(md, *item),
            ),
{
    match item.type_code {
        TypeCode::TypeStringDataItem => {
            m.string_data_items = match deserialize_dex_section::<StringDataItem>(item, data) {
                Ok(v) => v,
                Err(e) => return Err(e),
            };
        },
        TypeCode::TypeAnnotationSetRefList => {
            m.annotation_set_ref_lists = match deserialize_dex_section::<AnnotationSetRefList>(item, data) {
                Ok(v) => v,
                Err(e) => return Err(e),
            };
        },
        TypeCode::TypeAnnotationSetItem => {
            m.annotation_set_items = match deserialize_dex_section::<AnnotationSetItem>(item, data) {
                Ok(v) => v,
                Err(e) => return Err(e),
            };
        },
        TypeCode::TypeAnnotationItem => {
            m.annotation_items = match deserialize_dex_section::<AnnotationItem>(item, data) {
                Ok(v) => v,
                Err(e) => return Err(e),
            };
        },
        TypeCode::TypeAnnotationsDirectoryItem => {
            m.annotations_directory_items = match deserialize_dex_section::<AnnotationsDirectoryItem>(item, data) {
                Ok(v) => v,
                Err(e) => return Err(e),
            };
        },
        TypeCode::TypeEncodedArrayItem => {
            m.encoded_array_items = match deserialize_dex_section::<EncodedArrayItem>(item, data) {
                Ok(v) => v,
                Err(e) => return Err(e),
            };
        },
        TypeCode::TypeClassDataItem => {
            m.class_data_items = match deserialize_dex_section::<ClassDataItem>(item, data) {
                Ok(v) => v,
                Err(e) => return Err(e),
            };
        },
        TypeCode::TypeDebugInfoItem => {
            m.debug_info_items = match deserialize_dex_section::<DebugInfoItem>(item, data) {
                Ok(v) => v,
                Err(e) => return Err(e),
            };
        },
        TypeCode::TypeCodeItem => {
            m.code_items = match deserialize_dex_section::<CodeItem>(item, data) {
                Ok(v) => v,
                Err(e) => return Err(e),
            };
        },
        _ => {
            return Err(DeserializeError::UnsupportedFeature);
        },
    }
    Ok(())
}

/// Reads the section of one map entry into its place in the model.
#[verifier::rlimit(100)]
fn deserialize_map_item(item: &MapItem, data: &[u8], m: &mut DexModel) -> (res: Result<
    (),
    DeserializeError,
>)
    requires
        item.offset <= data@.len(),
        all_well_formed(old(m).string_ids@),
        all_well_formed(old(m).type_ids@),
        all_well_formed(old(m).proto_ids@),
        all_well_formed(old(m).field_ids@),
        all_well_formed(old(m).method_ids@),
        all_well_formed(old(m).class_defs@),
        all_well_formed(old(m).call_site_ids@),
        all_well_formed(old(m).method_handles@),
        all_well_formed(old(m).type_lists@),
        all_well_formed(old(m).string_data_items@),
        all_well_formed(old(m).annotation_set_ref_lists@),
        all_well_formed(old(m).annotation_set_items@),
        all_well_formed(old(m).annotation_items@),
        all_well_formed(old(m).annotations_directory_items@),
        all_well_formed(old(m).encoded_array_items@),
        all_well_formed(old(m).class_data_items@),
        all_well_formed(old(m).debug_info_items@),
        all_well_formed(old(m).code_items@),
    ensures
        final(m).header == old(m).header,
        final(m).map_list == old(m).map_list,
        final(m).link_data == old(m).link_data,
        final(m).hiddenapi_class_data_items == old(m).hiddenapi_class_data_items,
        final(m).string_ids == old(m).string_ids || item.type_code == TypeCode::TypeStringIdItem,
        final(m).type_ids == old(m).type_ids || item.type_code == TypeCode::TypeTypeIdItem,
        final(m).proto_ids == old(m).proto_ids || item.type_code == TypeCode::TypeProtoIdItem,
        final(m).field_ids == old(m).field_ids || item.type_code == TypeCode::TypeFieldIdItem,
        final(m).method_ids == old(m).method_ids || item.type_code == TypeCode::TypeMethodIdItem,
        final(m).class_defs == old(m).class_defs || item.type_code == TypeCode::TypeClassDefItem,
        final(m).call_site_ids == old(m).call_site_ids || item.type_code == TypeCode::TypeCallSiteIdItem,
        final(m).method_handles == old(m).method_handles || item.type_code == TypeCode::TypeMethodHandleItem,
        final(m).type_lists == old(m).type_lists || item.type_code == TypeCode::TypeTypeList,
        final(m).string_data_items == old(m).string_data_items || item.type_code == TypeCode::TypeStringDataItem,
        final(m).annotation_set_ref_lists == old(m).annotation_set_ref_lists || item.type_code == TypeCode::TypeAnnotationSetRefList,
        final(m).annotation_set_items == old(m).annotation_set_items || item.type_code == TypeCode::TypeAnnotationSetItem,
        final(m).annotation_items == old(m).annotation_items || item.type_code == TypeCode::TypeAnnotationItem,
        final(m).annotations_directory_items == old(m).annotations_directory_items || item.type_code == TypeCode::TypeAnnotationsDirectoryItem,
        final(m).encoded_array_items == old(m).encoded_array_items || item.type_code == TypeCode::TypeEncodedArrayItem,
        final(m).class_data_items == old(m).class_data_items || item.type_code == TypeCode::TypeClassDataItem,
        final(m).debug_info_items == old(m).debug_info_items || item.type_code == TypeCode::TypeDebugInfoItem,
        final(m).code_items == old(m).code_items || item.type_code == TypeCode::TypeCodeItem,
        res is Ok ==> all_well_formed(final(m).string_ids@),
        res is Ok ==> all_well_formed(final(m).type_ids@),
        res is Ok ==> all_well_formed(final(m).proto_ids@),
        res is Ok ==> all_well_formed(final(m).field_ids@),
        res is Ok ==> all_well_formed(final(m).method_ids@),
        res is Ok ==> all_well_formed(final(m).class_defs@),
        res is Ok ==> all_well_formed(final(m).call_site_ids@),
        res is Ok ==> all_well_formed(final(m).method_handles@),
        res is Ok ==> all_well_formed(final(m).type_lists@),
        res is Ok ==> all_well_formed(final(m).string_data_items@),
        res is Ok ==> all_well_formed(final(m).annotation_set_ref_lists@),
        res is Ok ==> all_well_formed(final(m).annotation_set_items@),
        res is Ok ==> all_well_formed(final(m).annotation_items@),
        res is Ok ==> all_well_formed(final(m).annotations_directory_items@),
        res is Ok ==> all_well_formed(final(m).encoded_array_items@),
        res is Ok ==> all_well_formed(final(m).class_data_items@),
        res is Ok ==> all_well_formed(final(m).debug_info_items@),
        res is Ok ==> all_well_formed(final(m).code_items@),
        res is Ok ==> occurs_at(data@, item.offset as int, section_bytes(*final(m), *item)),
        res is Ok ==> item.type_code != TypeCode::TypeHiddenapiClassDataItem && section_count(*final(m), *item) == item.size,
        res is Err ==> item.type_code == TypeCode::TypeHiddenapiClassDataItem || forall|md: DexModel|
            model_wf(md) && section_count(md, *item) == item.size ==> !occurs_at(
                data@,
                item.offset as int,
                #[trigger] section_bytes(md, *item),
            ),
{
    match item.type_code {
        TypeCode::TypeHeaderItem | TypeCode::TypeMapList => {
            assert(data@.subrange(item.offset as int, item.offset as int) =~= seq![]);
            Ok(())
        },
        TypeCode::TypeHiddenapiClassDataItem => Err(DeserializeError::UnsupportedFeature),
        TypeCode::TypeStringIdItem | TypeCode::TypeTypeIdItem | TypeCode::TypeProtoIdItem | TypeCode::TypeFieldIdItem | TypeCode::TypeMethodIdItem | TypeCode::TypeClassDefItem | TypeCode::TypeCallSiteIdItem | TypeCode::TypeMethodHandleItem | TypeCode::TypeTypeList => deserialize_table_section(item, data, m),
        _ => deserialize_data_section(item, data, m),
    }
}

/// Decodes a whole DEX file: the header, the map list it points to, the link data, and
/// every section the map list declares, each read at its declared offset.
#[verifier::rlimit(100)]
/// Reads, into the model, every section that its map list declares.
#[verifier::rlimit(100)]
fn deserialize_sections(data: &[u8], m: &mut DexModel) -> (res: Result<(), DeserializeError>)
    requires
        old(m).header.file_size == data@.len(),
        old(m).header.well_formed(),
        old(m).map_list.well_formed(),
        old(m).hiddenapi_class_data_items@.len() == 0,
        occurs_at(data@, 0, old(m).header.encoding()),
        occurs_at(data@, old(m).header.map_off as int, old(m).map_list.encoding()),
        occurs_at(data@, old(m).header.link_off as int, old(m).link_data@),
        map_types_unique(old(m).map_list.list@),
        !lists_hiddenapi(data@),
        !map_names(old(m).map_list.list@, TypeCode::TypeHiddenapiClassDataItem),
        forall|t: TypeCode| #[trigger] records_of_kind(*old(m), t) == 0,
        forall|md: DexModel|
            #[trigger] decodes_to(data@, md) ==> md.map_list.list@ == old(m).map_list.list@,
        all_well_formed(old(m).string_ids@),
        all_well_formed(old(m).type_ids@),
        all_well_formed(old(m).proto_ids@),
        all_well_formed(old(m).field_ids@),
        all_well_formed(old(m).method_ids@),
        all_well_formed(old(m).class_defs@),
        all_well_formed(old(m).call_site_ids@),
        all_well_formed(old(m).method_handles@),
        all_well_formed(old(m).type_lists@),
        all_well_formed(old(m).string_data_items@),
        all_well_formed(old(m).annotation_set_ref_lists@),
        all_well_formed(old(m).annotation_set_items@),
        all_well_formed(old(m).annotation_items@),
        all_well_formed(old(m).annotations_directory_items@),
        all_well_formed(old(m).encoded_array_items@),
        all_well_formed(old(m).class_data_items@),
        all_well_formed(old(m).debug_info_items@),
        all_well_formed(old(m).code_items@),
        old(m).link_data@.len() == old(m).header.link_size,
        old(m).header.map_off % 4 == 0,
    ensures
        res is Ok ==> decodes_to(data@, *final(m)),
        res is Err ==> forall|md: DexModel| !(#[trigger] decodes_to(data@, md)),
{
    let ghost header = m.header;
    let ghost map_list = m.map_list;
    let n = m.map_list.list.len();
    let mut j: usize = 0;
    while j < n
        invariant
            j <= n == m.map_list.list@.len(),
            m.header == header,
            m.header.file_size == data@.len(),
            m.header.well_formed(),
            m.map_list.well_formed(),
            m.hiddenapi_class_data_items@.len() == 0,
            occurs_at(data@, 0, m.header.encoding()),
            occurs_at(data@, m.header.map_off as int, m.map_list.encoding()),
            occurs_at(data@, m.header.link_off as int, m.link_data@),
            map_types_unique(m.map_list.list@),
            m.map_list == map_list,
            !lists_hiddenapi(data@),
            !map_names(map_list.list@, TypeCode::TypeHiddenapiClassDataItem),
            forall|t: TypeCode|
                (forall|k: int| 0 <= k < j ==> (#[trigger] m.map_list.list@[k]).type_code != t)
                    ==> #[trigger] records_of_kind(*m, t) == 0,
            forall|md: DexModel| #[trigger] decodes_to(data@, md) ==> md.map_list.list@ == map_list.list@,
            all_well_formed(m.string_ids@),
            all_well_formed(m.type_ids@),
            all_well_formed(m.proto_ids@),
            all_well_formed(m.field_ids@),
            all_well_formed(m.method_ids@),
            all_well_formed(m.class_defs@),
            all_well_formed(m.call_site_ids@),
            all_well_formed(m.method_handles@),
            all_well_formed(m.type_lists@),
            all_well_formed(m.string_data_items@),
            all_well_formed(m.annotation_set_ref_lists@),
            all_well_formed(m.annotation_set_items@),
            all_well_formed(m.annotation_items@),
            all_well_formed(m.annotations_directory_items@),
            all_well_formed(m.encoded_array_items@),
            all_well_formed(m.class_data_items@),
            all_well_formed(m.debug_info_items@),
            all_well_formed(m.code_items@),
            m.link_data@.len() == m.header.link_size,
            m.header.map_off % 4 == 0,
            forall|k: int|
                0 <= k < j ==> occurs_at(
                    data@,
                    (#[trigger] m.map_list.list@[k]).offset as int,
                    section_bytes(*m, m.map_list.list@[k]),
                ) && m.map_list.list@[k].offset as int % (type_alignment(
                    m.map_list.list@[k].type_code,
                ) as int) == 0 && m.map_list.list@[k].type_code
                    != TypeCode::TypeHiddenapiClassDataItem && section_count(
                    *m,
                    m.map_list.list@[k],
                ) == m.map_list.list@[k].size,
        decreases n - j,
    {
        let item = m.map_list.list[j];
        if item.offset as usize > data.len() || item.offset as usize % alignment_of(item.type_code) != 0 {
            assert forall|md: DexModel| !(#[trigger] decodes_to(data@, md)) by {
                if decodes_to(data@, md) {
                    let runs = model_runs(md);
                    assert(occurs_at(data@, runs[0].0, runs[0].1));
                    assert(occurs_at(data@, runs[1].0, runs[1].1));
                    assert(occurs_at(data@, runs[2].0, runs[2].1));
                    assert(md.map_list.list@[j as int] == item);
                    assert(runs[j + 3] == (item.offset as int, section_bytes(md, item)));
                    assert(occurs_at(data@, runs[j + 3].0, runs[j + 3].1));
                }
            }
            return Err(DeserializeError::FormatError);
        }
        let ghost before = *m;
        match deserialize_map_item(&item, data, m) {
            Ok(()) => {},
            Err(e) => {
                assert forall|md: DexModel| !(#[trigger] decodes_to(data@, md)) by {
                    if decodes_to(data@, md) {
                        let runs = model_runs(md);
                        assert(occurs_at(data@, runs[0].0, runs[0].1));
                        assert(occurs_at(data@, runs[1].0, runs[1].1));
                        assert(occurs_at(data@, runs[2].0, runs[2].1));
                        assert(md.map_list.list@[j as int] == item);
                        assert(runs[j + 3] == (item.offset as int, section_bytes(md, item)));
                        assert(occurs_at(data@, runs[j + 3].0, runs[j + 3].1));
                    }
                }
                return Err(e);
            },
        }
        assert forall|k: int| 0 <= k < j implies section_bytes(*m, m.map_list.list@[k]) == section_bytes(
            before,
            before.map_list.list@[k],
        ) && section_count(*m, m.map_list.list@[k]) == section_count(before, before.map_list.list@[k]) by {
            assert(m.map_list.list@[k].type_code != item.type_code);
        }
        assert forall|t: TypeCode|
            (forall|k: int| 0 <= k < j + 1 ==> (#[trigger] m.map_list.list@[k]).type_code != t)
                implies #[trigger] records_of_kind(*m, t) == 0 by {
            assert(m.map_list.list@[j as int].type_code != t);
            assert(forall|k: int| 0 <= k < j ==> (#[trigger] before.map_list.list@[k]).type_code != t);
            assert(records_of_kind(*m, t) == records_of_kind(before, t));
        }
        j = j + 1;
    }
    proof {
        assert forall|t: TypeCode| !map_names(m.map_list.list@, t) implies #[trigger] records_of_kind(
            *m,
            t,
        ) == 0 by {
            assert forall|k: int| 0 <= k < n implies (#[trigger] m.map_list.list@[k]).type_code != t by {
                if m.map_list.list@[k].type_code == t {
                    assert(map_names(m.map_list.list@, t));
                }
            }
        }
        let runs = model_runs(*m);
        assert forall|k: int| 0 <= k < runs.len() implies occurs_at(data@, (#[trigger] runs[k]).0, runs[k].1) by {
            if k >= 3 {
                assert(runs[k] == (m.map_list.list@[k - 3].offset as int, section_bytes(*m, m.map_list.list@[k - 3])));
            }
        }
    }
    Ok(())
}

/// Reads the header at the start of `data` and the map list it points to, and checks
/// that they frame `data`.
#[verifier::rlimit(100)]
fn deserialize_frame(data: &[u8]) -> (res: Result<(Header, MapList), DeserializeError>)
    ensures
        res matches Ok((h, ml)) ==> framed_by(data@, h, ml) && (forall|h2: Header, ml2: MapList|
            #[trigger] framed_by(data@, h2, ml2) ==> h2.file_size == h.file_size && h2.map_off
                == h.map_off && h2.link_off == h.link_off && h2.link_size == h.link_size
                && ml2.list@ == ml.list@),
        res is Err ==> (forall|md: DexModel| !(#[trigger] decodes_to(data@, md))) && !lists_hiddenapi(
            data@,
        ),
{
    let (header, _) = match Header::deserialize(data, 0) {
        Ok(r) => r,
        Err(e) => {
            assert(!lists_hiddenapi(data@)) by {
                if lists_hiddenapi(data@) {
                    let (h, ml): (Header, MapList) = choose|h: Header, ml: MapList|
                        #[trigger] framed_by(data@, h, ml) && map_names(
                            ml.list@,
                            TypeCode::TypeHiddenapiClassDataItem,
                        );
                    assert(h.well_formed());
                }
            }
            assert forall|md: DexModel| !(#[trigger] decodes_to(data@, md)) by {
                if decodes_to(data@, md) {
                    let runs = model_runs(md);
                    assert(occurs_at(data@, runs[0].0, runs[0].1));
                    assert(occurs_at(data@, runs[1].0, runs[1].1));
                    assert(occurs_at(data@, runs[2].0, runs[2].1));

                }
            }
            return Err(e);
        },
    };
    if header.file_size as usize != data.len() {
        assert(!lists_hiddenapi(data@)) by {
            if lists_hiddenapi(data@) {
                let (h, ml): (Header, MapList) = choose|h: Header, ml: MapList|
                    #[trigger] framed_by(data@, h, ml) && map_names(
                        ml.list@,
                        TypeCode::TypeHiddenapiClassDataItem,
                    );
                lemma_header_fields(data@, 0, header, h);
            }
        }
        assert forall|md: DexModel| !(#[trigger] decodes_to(data@, md)) by {
            if decodes_to(data@, md) {
                let runs = model_runs(md);
                assert(occurs_at(data@, runs[0].0, runs[0].1));
                assert(occurs_at(data@, runs[1].0, runs[1].1));
                assert(occurs_at(data@, runs[2].0, runs[2].1));
                    lemma_header_fields(data@, 0, header, md.header);
            }
        }
        return Err(DeserializeError::FormatError);
    }
    if header.map_off % 4 != 0 {
        assert(!lists_hiddenapi(data@)) by {
            if lists_hiddenapi(data@) {
                let (h, ml): (Header, MapList) = choose|h: Header, ml: MapList|
                    #[trigger] framed_by(data@, h, ml) && map_names(
                        ml.list@,
                        TypeCode::TypeHiddenapiClassDataItem,
                    );
                lemma_header_fields(data@, 0, header, h);
            }
        }
        assert forall|md: DexModel| !(#[trigger] decodes_to(data@, md)) by {
            if decodes_to(data@, md) {
                let runs = model_runs(md);
                assert(occurs_at(data@, runs[0].0, runs[0].1));
                assert(occurs_at(data@, runs[1].0, runs[1].1));
                assert(occurs_at(data@, runs[2].0, runs[2].1));
                    lemma_header_fields(data@, 0, header, md.header);
            }
        }
        return Err(DeserializeError::FormatError);
    }
    let (map_list, _) = match MapList::deserialize(data, header.map_off as usize) {
        Ok(r) => r,
        Err(e) => {
            assert(!lists_hiddenapi(data@)) by {
                if lists_hiddenapi(data@) {
                    let (h, ml): (Header, MapList) = choose|h: Header, ml: MapList|
                        #[trigger] framed_by(data@, h, ml) && map_names(
                            ml.list@,
                            TypeCode::TypeHiddenapiClassDataItem,
                        );
                    lemma_header_fields(data@, 0, header, h);
                }
            }
            assert forall|md: DexModel| !(#[trigger] decodes_to(data@, md)) by {
                if decodes_to(data@, md) {
                    let runs = model_runs(md);
                    assert(occurs_at(data@, runs[0].0, runs[0].1));
                    assert(occurs_at(data@, runs[1].0, runs[1].1));
                    assert(occurs_at(data@, runs[2].0, runs[2].1));
                    lemma_header_fields(data@, 0, header, md.header);
                }
            }
            return Err(e);
        },
    };
    if !map_types_distinct(&map_list.list) {
        assert(!lists_hiddenapi(data@)) by {
            if lists_hiddenapi(data@) {
                let (h, ml): (Header, MapList) = choose|h: Header, ml: MapList|
                    #[trigger] framed_by(data@, h, ml) && map_names(
                        ml.list@,
                        TypeCode::TypeHiddenapiClassDataItem,
                    );
                lemma_header_fields(data@, 0, header, h);
                lemma_map_list_equal(data@, header.map_off as int, map_list, ml);
            }
        }
        assert forall|md: DexModel| !(#[trigger] decodes_to(data@, md)) by {
            if decodes_to(data@, md) {
                let runs = model_runs(md);
                assert(occurs_at(data@, runs[0].0, runs[0].1));
                assert(occurs_at(data@, runs[1].0, runs[1].1));
                assert(occurs_at(data@, runs[2].0, runs[2].1));
                    lemma_header_fields(data@, 0, header, md.header);
                    lemma_map_list_equal(data@, header.map_off as int, map_list, md.map_list);
            }
        }
        return Err(DeserializeError::FormatError);
    }
    assert forall|h2: Header, ml2: MapList| #[trigger] framed_by(data@, h2, ml2) implies h2.file_size
        == header.file_size && h2.map_off == header.map_off && h2.link_off == header.link_off
        && h2.link_size == header.link_size && ml2.list@ == map_list.list@ by {
        lemma_header_fields(data@, 0, header, h2);
        lemma_map_list_equal(data@, header.map_off as int, map_list, ml2);
    }
    Ok((header, map_list))
}

/// Decodes a whole DEX file: the header, the map list it points to, the link data, and
/// every section the map list declares, each read at its declared offset. A file whose
/// map list names a hidden-API section is rejected as unsupported.
pub fn deserialize(data: &[u8]) -> (res: Result<DexModel, DeserializeError>)
    ensures
        res matches Ok(m) ==> decodes_to(data@, m),
        res is Err ==> forall|m: DexModel| !(#[trigger] decodes_to(data@, m)),
        lists_hiddenapi(data@) ==> res == Err::<DexModel, DeserializeError>(
            DeserializeError::UnsupportedFeature,
        ),
{
    let (header, map_list) = match deserialize_frame(data) {
        Ok(r) => r,
        Err(e) => return Err(e),
    };
    assert forall|md: DexModel| #[trigger] decodes_to(data@, md) implies framed_by(
        data@,
        md.header,
        md.map_list,
    ) by {
        let runs = model_runs(md);
        assert(occurs_at(data@, runs[0].0, runs[0].1));
        assert(occurs_at(data@, runs[1].0, runs[1].1));
    }
    if map_names_kind(&map_list.list, TypeCode::TypeHiddenapiClassDataItem) {
        return Err(DeserializeError::UnsupportedFeature);
    }
    assert(!lists_hiddenapi(data@)) by {
        if lists_hiddenapi(data@) {
            let (h, ml): (Header, MapList) = choose|h: Header, ml: MapList|
                #[trigger] framed_by(data@, h, ml) && map_names(
                    ml.list@,
                    TypeCode::TypeHiddenapiClassDataItem,
                );
            assert(ml.list@ == map_list.list@);
        }
    }
    let link_data = match read_bytes(data, header.link_off as usize, header.link_size as usize) {
        Ok(v) => v,
        Err(e) => {
            assert forall|md: DexModel| !(#[trigger] decodes_to(data@, md)) by {
                if decodes_to(data@, md) {
                    let runs = model_runs(md);
                    assert(occurs_at(data@, runs[2].0, runs[2].1));
                    assert(framed_by(data@, md.header, md.map_list));
                }
            }
            return Err(e);
        },
    };
    assert forall|md: DexModel| #[trigger] decodes_to(data@, md) implies md.map_list.list@
        == map_list.list@ by {
        assert(framed_by(data@, md.header, md.map_list));
    }
    let mut m = DexModel {
        header,
        string_ids: Vec::new(),
        type_ids: Vec::new(),
        proto_ids: Vec::new(),
        field_ids: Vec::new(),
        method_ids: Vec::new(),
        class_defs: Vec::new(),
        call_site_ids: Vec::new(),
        method_handles: Vec::new(),
        type_lists: Vec::new(),
        string_data_items: Vec::new(),
        annotation_set_ref_lists: Vec::new(),
        annotation_set_items: Vec::new(),
        annotation_items: Vec::new(),
        annotations_directory_items: Vec::new(),
        encoded_array_items: Vec::new(),
        class_data_items: Vec::new(),
        debug_info_items: Vec::new(),
        code_items: Vec::new(),
        hiddenapi_class_data_items: Vec::new(),
        link_data,
        map_list,
    };
    assert forall|t: TypeCode| #[trigger] records_of_kind(m, t) == 0 by {}
    match deserialize_sections(data, &mut m) {
        Ok(()) => Ok(m),
        Err(e) => Err(e),
    }
}

/// Encodes a model: a zero-filled file of the header's `file_size`, with the header at
/// offset zero, the map list, the link data, and every section at its declared offset.
#[verifier::rlimit(100)]
pub fn serialize(dex: DexModel) -> (r: Vec<u8>)
    requires
        model_wf(dex),
    ensures
        r@ == serialized(dex),
{
    let ghost runs = model_runs(dex);
    let mut buf: Vec<u8> = Vec::new();
    let size = dex.header.file_size as usize;
    while buf.len() < size
        invariant
            buf@ == zeros(buf@.len()),
            buf@.len() <= size,
        decreases size - buf@.len(),
    {
        buf.push(0);
        assert(buf@ =~= zeros(buf@.len()));
    }
    assert(runs.take(0) =~= seq![]);
    assert(runs[0] == (0int, dex.header.encoding()));
    assert(runs[1] == (dex.header.map_off as int, dex.map_list.encoding()));
    assert(runs[2] == (dex.header.link_off as int, dex.link_data@));
    let ghost empty = zeros(dex.header.file_size as nat);
    assert(buf@ == crate::dex_model::apply_runs(empty, runs.take(0)));
    let mut header_bytes: Vec<u8> = Vec::new();
    dex.header.serialize(&mut header_bytes);
    write_at(&mut buf, 0, &header_bytes);
    assert(runs.take(1).drop_last() =~= runs.take(0));
    assert(buf@ == crate::dex_model::apply_runs(empty, runs.take(1)));
    let mut map_bytes: Vec<u8> = Vec::new();
    dex.map_list.serialize(&mut map_bytes);
    write_at(&mut buf, dex.header.map_off as usize, &map_bytes);
    assert(runs.take(2).drop_last() =~= runs.take(1));
    assert(buf@ == crate::dex_model::apply_runs(empty, runs.take(2)));
    write_at(&mut buf, dex.header.link_off as usize, &dex.link_data);
    assert(runs.take(3).drop_last() =~= runs.take(2));
    assert(buf@ == crate::dex_model::apply_runs(empty, runs.take(3)));
    let n = dex.map_list.list.len();
    let mut j: usize = 0;
    while j < n
        invariant
            j <= n == dex.map_list.list@.len(),
            runs == model_runs(dex),
            model_wf(dex),
            buf@ == crate::dex_model::apply_runs(zeros(dex.header.file_size as nat), runs.take(3 + j)),
        decreases n - j,
    {
        let item = dex.map_list.list[j];
        assert(runs[3 + j] == (item.offset as int, section_bytes(dex, item)));
        match item.type_code {
            TypeCode::TypeStringIdItem => serialize_dex_section(&item, &dex.string_ids, &mut buf),
            TypeCode::TypeTypeIdItem => serialize_dex_section(&item, &dex.type_ids, &mut buf),
            TypeCode::TypeProtoIdItem => serialize_dex_section(&item, &dex.proto_ids, &mut buf),
            TypeCode::TypeFieldIdItem => serialize_dex_section(&item, &dex.field_ids, &mut buf),
            TypeCode::TypeMethodIdItem => serialize_dex_section(&item, &dex.method_ids, &mut buf),
            TypeCode::TypeClassDefItem => serialize_dex_section(&item, &dex.class_defs, &mut buf),
            TypeCode::TypeCallSiteIdItem => serialize_dex_section(&item, &dex.call_site_ids, &mut buf),
            TypeCode::TypeMethodHandleItem => serialize_dex_section(&item, &dex.method_handles, &mut buf),
            TypeCode::TypeTypeList => serialize_dex_section(&item, &dex.type_lists, &mut buf),
            TypeCode::TypeStringDataItem => serialize_dex_section(&item, &dex.string_data_items, &mut buf),
            TypeCode::TypeAnnotationSetRefList => serialize_dex_section(&item, &dex.annotation_set_ref_lists, &mut buf),
            TypeCode::TypeAnnotationSetItem => serialize_dex_section(&item, &dex.annotation_set_items, &mut buf),
            TypeCode::TypeAnnotationItem => serialize_dex_section(&item, &dex.annotation_items, &mut buf),
            TypeCode::TypeAnnotationsDirectoryItem => serialize_dex_section(&item, &dex.annotations_directory_items, &mut buf),
            TypeCode::TypeEncodedArrayItem => serialize_dex_section(&item, &dex.encoded_array_items, &mut buf),
            TypeCode::TypeClassDataItem => serialize_dex_section(&item, &dex.class_data_items, &mut buf),
            TypeCode::TypeDebugInfoItem => serialize_dex_section(&item, &dex.debug_info_items, &mut buf),
            TypeCode::TypeCodeItem => serialize_dex_section(&item, &dex.code_items, &mut buf),
            _ => {},
        }
        assert(runs.take(3 + j + 1).drop_last() =~= runs.take(3 + j));
        j = j + 1;
    }
    assert(runs.take(runs.len() as int) =~= runs);
    buf
}

/// Writes that each put back `data`'s own bytes, applied to a zero-filled buffer of its
/// length, give `data` at every covered position and zero everywhere else.
pub proof fn lemma_apply_runs(data: Seq<u8>, runs: Seq<(int, Seq<u8>)>)
    requires
        forall|k: int| 0 <= k < runs.len() ==> occurs_at(data, (#[trigger] runs[k]).0, runs[k].1),
    ensures
        apply_runs(zeros(data.len()), runs).len() == data.len(),
        forall|i: int|
            0 <= i < data.len() ==> (#[trigger] apply_runs(zeros(data.len()), runs)[i]) == if covered(
                runs,
                i,
            ) {
                data[i]
            } else {
                0u8
            },
    decreases runs.len(),
{
    if runs.len() > 0 {
        let prev = runs.drop_last();
        assert forall|k: int| 0 <= k < prev.len() implies occurs_at(
            data,
            (#[trigger] prev[k]).0,
            prev[k].1,
        ) by {
            assert(prev[k] == runs[k]);
        }
        lemma_apply_runs(data, prev);
        let last = runs.last();
        assert(occurs_at(data, runs[runs.len() - 1].0, runs[runs.len() - 1].1));
        let before = apply_runs(zeros(data.len()), prev);
        let after = apply_runs(zeros(data.len()), runs);
        assert(after == overwrite(before, last.0, last.1));
        assert forall|i: int| 0 <= i < data.len() implies (#[trigger] after[i]) == if covered(
            runs,
            i,
        ) {
            data[i]
        } else {
            0u8
        } by {
            if last.0 <= i < last.0 + last.1.len() {
                assert(covered(runs, i)) by {
                    assert(runs[runs.len() - 1] == last);
                }
                assert(last.1[i - last.0] == data.subrange(last.0, last.0 + last.1.len())[i - last.0]);
            } else {
                if covered(runs, i) {
                    let k = choose|k: int|
                        0 <= k < runs.len() && (#[trigger] runs[k]).0 <= i < runs[k].0
                            + runs[k].1.len();
                    assert(k < runs.len() - 1);
                    assert(prev[k] == runs[k]);
                    assert(covered(prev, i));
                } else {
                    if covered(prev, i) {
                        let k = choose|k: int|
                            0 <= k < prev.len() && (#[trigger] prev[k]).0 <= i < prev[k].0
                                + prev[k].1.len();
                        assert(prev[k] == runs[k]);
                        assert(covered(runs, i));
                    }
                }
            }
        }
    }
}

/// Round trip: when `data` decodes to `m` and every byte of `data` that no record,
/// header, map list or link data accounts for is zero, serializing `m` gives back
/// exactly `data`.
#[verifier::rlimit(50)]
pub proof fn lemma_round_trip(data: Seq<u8>, m: DexModel)
    requires
        decodes_to(data, m),
        forall|i: int| 0 <= i < data.len() && !covered(model_runs(m), i) ==> data[i] == 0,
    ensures
        serialized(m) == data,
{
    lemma_apply_runs(data, model_runs(m));
    assert(serialized(m) =~= data);
}

/// Section locality: serializing a decoded model puts back, at the offset of every map
/// entry, exactly the bytes its section occupied in the input; bytes that nothing
/// accounts for come out zero.
#[verifier::rlimit(50)]
pub proof fn lemma_section_locality(data: Seq<u8>, m: DexModel, k: int)
    requires
        decodes_to(data, m),
        0 <= k < m.map_list.list@.len(),
    ensures
        ({
            let off = m.map_list.list@[k].offset as int;
            let len = section_bytes(m, m.map_list.list@[k]).len();
            off + len <= data.len() && serialized(m).subrange(off, off + len) == data.subrange(
                off,
                off + len,
            )
        }),
        serialized(m).len() == data.len(),
        forall|i: int|
            0 <= i < data.len() && !covered(model_runs(m), i) ==> serialized(m)[i] == 0,
{
    let runs = model_runs(m);
    lemma_apply_runs(data, runs);
    let item = m.map_list.list@[k];
    assert(runs[k + 3] == (item.offset as int, section_bytes(m, item)));
    assert(occurs_at(data, runs[k + 3].0, runs[k + 3].1));
    let off = item.offset as int;
    let len = section_bytes(m, item).len();
    assert forall|i: int| 0 <= i < len implies #[trigger] serialized(m).subrange(off, off + len)[i]
        == data.subrange(off, off + len)[i] by {
        assert(covered(runs, off + i)) by {
            assert(runs[k + 3].0 <= off + i < runs[k + 3].0 + runs[k + 3].1.len());
        }
        assert(serialized(m)[off + i] == data[off + i]);
    }
    assert(serialized(m).subrange(off, off + len) =~= data.subrange(off, off + len));
}

/// Alignment: in any input that some model decodes to, every map entry's offset is a
/// multiple of its records' alignment, so a section's first record starts exactly at
/// the declared offset, with no filler before it.
pub proof fn lemma_alignment<T: DexStruct>(data: Seq<u8>, m: DexModel, k: int, s: Seq<T>)
    requires
        decodes_to(data, m),
        0 <= k < m.map_list.list@.len(),
        T::spec_alignment() == type_alignment(m.map_list.list@[k].type_code),
        s.len() > 0,
    ensures
        m.map_list.list@[k].offset as int % (type_alignment(m.map_list.list@[k].type_code) as int)
            == 0,
        section_image(m.map_list.list@[k].offset as int, s.take(1)) == s[0].encoding(),
{
    let off = m.map_list.list@[k].offset as int;
    assert(s.take(1).drop_last() =~= Seq::<T>::empty());
    assert(pad_len(off, T::spec_alignment()) == 0);
    assert(zeros(0) =~= Seq::<u8>::empty());
    assert(section_image(off, s.take(1).drop_last()) == Seq::<u8>::empty());
    assert(s.take(1).last() == s[0]);
    assert(section_image(off, s.take(1)) =~= s[0].encoding());
}

} // verus!
