//! The parsed blueprint payload, its mathematical model, and its wire form.

use vstd::prelude::*;
use crate::bytes::{i16_bits, i32_bits, i8_bits, le16, le32, words_bytes};
use crate::items::{is_belt, is_interstellar_station, is_station, storage_count};

verus! {

/// A rectangular region that groups buildings.
#[derive(Clone, Copy, Debug, PartialEq, Eq, Structural)]
pub struct Area {
    pub index: i8,
    pub parent_index: i8,
    pub tropic_anchor: i16,
    pub area_segments: i16,
    pub anchor_local_offset_x: i16,
    pub anchor_local_offset_y: i16,
    pub width: i16,
    pub height: i16,
}

/// Fixed part of a building record. Angles and offsets are kept as the
/// bit patterns of their single-precision values, so they round-trip exactly.
#[derive(Clone, Copy, Debug, PartialEq, Eq, Structural)]
pub struct BuildingHeader {
    /// The index of a first-format record, or the sentinel (at most -100)
    /// that marks an extended record.
    pub first_int: i32,
    /// The index of an extended record; zero otherwise.
    pub index_v2: u32,
    pub area_index: i8,
    pub local_offset_x: u32,
    pub local_offset_y: u32,
    pub local_offset_z: u32,
    pub local_offset_x2: u32,
    pub local_offset_y2: u32,
    pub local_offset_z2: u32,
    pub yaw: u32,
    pub yaw2: u32,
    /// Present on the wire for extended records only; zero otherwise.
    pub tilt_v2: u32,
    pub item_id: u16,
    pub model_index: u16,
    pub output_object_index: u32,
    pub input_object_index: u32,
    pub output_to_slot: i8,
    pub input_from_slot: i8,
    pub output_from_slot: i8,
    pub input_to_slot: i8,
    pub output_offset: i8,
    pub input_offset: i8,
    pub recipe_id: u16,
    pub filter_id: u16,
    pub parameter_count: u16,
}

/// One storage entry of a station's parameter block.
#[derive(Clone, Copy, Debug, PartialEq, Eq, Structural)]
pub struct StationStorage {
    pub item_id: u32,
    pub local_logic: u32,
    pub remote_logic: u32,
    pub max_count: u32,
    pub reserved0: u32,
    pub reserved1: u32,
}

/// Parameter block of a logistic station: its storage entries (five for an
/// interstellar station, three for a planetary one), then the rest of the
/// block (unused storage room, the slot array and the station parameters).
#[derive(Clone, Debug, PartialEq, Eq)]
pub struct Station {
    pub interstellar: bool,
    pub storage: Vec<StationStorage>,
    pub tail: Vec<u32>,
}

/// Parameter words of a conveyor belt.
#[derive(Clone, Debug, PartialEq, Eq)]
pub struct Belt {
    pub words: Vec<u32>,
}

/// Per-building parameters, chosen by the building's item.
#[derive(Clone, Debug, PartialEq, Eq)]
pub enum BuildingParam {
    Station(Station),
    Belt(Option<Belt>),
    Unknown(Vec<u32>),
}

#[derive(Clone, Debug, PartialEq, Eq)]
pub struct Building {
    pub header: BuildingHeader,
    pub param: BuildingParam,
}

/// The decompressed payload of a blueprint.
#[derive(Clone, Debug, PartialEq, Eq)]
pub struct BlueprintData {
    pub version: i32,
    pub cursor_offset_x: i32,
    pub cursor_offset_y: i32,
    pub cursor_target_area: i32,
    pub drag_box_size_x: i32,
    pub drag_box_size_y: i32,
    pub primary_area_idx: i32,
    pub areas: Vec<Area>,
    pub buildings: Vec<Building>,
}

pub ghost enum ParamModel {
    Station { interstellar: bool, storage: Seq<StationStorage>, tail: Seq<u32> },
    Belt(Option<Seq<u32>>),
    Unknown(Seq<u32>),
}

pub ghost struct BuildingModel {
    pub header: BuildingHeader,
    pub param: ParamModel,
}

pub ghost struct DataModel {
    pub version: i32,
    pub cursor_offset_x: i32,
    pub cursor_offset_y: i32,
    pub cursor_target_area: i32,
    pub drag_box_size_x: i32,
    pub drag_box_size_y: i32,
    pub primary_area_idx: i32,
    pub areas: Seq<Area>,
    pub buildings: Seq<BuildingModel>,
}

impl View for BuildingParam {
    type V = ParamModel;

    open spec fn view(&self) -> ParamModel {
        match self {
            BuildingParam::Station(s) => ParamModel::Station {
                interstellar: s.interstellar,
                storage: s.storage@,
                tail: s.tail@,
            },
            BuildingParam::Belt(None) => ParamModel::Belt(None),
            BuildingParam::Belt(Some(b)) => ParamModel::Belt(Some(b.words@)),
            BuildingParam::Unknown(w) => ParamModel::Unknown(w@),
        }
    }
}

impl View for Building {
    type V = BuildingModel;

    open spec fn view(&self) -> BuildingModel {
        BuildingModel { header: self.header, param: self.param@ }
    }
}

impl View for BlueprintData {
    type V = DataModel;

    open spec fn view(&self) -> DataModel {
        DataModel {
            version: self.version,
            cursor_offset_x: self.cursor_offset_x,
            cursor_offset_y: self.cursor_offset_y,
            cursor_target_area: self.cursor_target_area,
            drag_box_size_x: self.drag_box_size_x,
            drag_box_size_y: self.drag_box_size_y,
            primary_area_idx: self.primary_area_idx,
            areas: self.areas@,
            buildings: self.buildings@.map_values(|b: Building| b@),
        }
    }
}

/// A record is extended when its first word is at most -100.
pub open spec fn header_is_v2(h: BuildingHeader) -> bool {
    h.first_int <= -100
}

/// The logical index of a building.
pub open spec fn header_index(h: BuildingHeader) -> u32 {
    if header_is_v2(h) {
        h.index_v2
    } else {
        i32_bits(h.first_int)
    }
}

/// Wire form of a building header.
pub open spec fn enc_header(h: BuildingHeader) -> Seq<u8> {
    let v2 = header_is_v2(h);
    le32(i32_bits(h.first_int)) + (if v2 {
        le32(h.index_v2)
    } else {
        seq![]
    }) + seq![i8_bits(h.area_index)] + le32(h.local_offset_x) + le32(h.local_offset_y) + le32(
        h.local_offset_z,
    ) + le32(h.local_offset_x2) + le32(h.local_offset_y2) + le32(h.local_offset_z2) + le32(h.yaw)
        + le32(h.yaw2) + (if v2 {
        le32(h.tilt_v2)
    } else {
        seq![]
    }) + le16(h.item_id) + le16(h.model_index) + le32(h.output_object_index) + le32(
        h.input_object_index,
    ) + seq![
        i8_bits(h.output_to_slot),
        i8_bits(h.input_from_slot),
        i8_bits(h.output_from_slot),
        i8_bits(h.input_to_slot),
        i8_bits(h.output_offset),
        i8_bits(h.input_offset),
    ] + le16(h.recipe_id) + le16(h.filter_id) + le16(h.parameter_count)
}

/// Byte length of a header on the wire.
pub open spec fn header_len(first_int: i32) -> nat {
    if first_int <= -100 {
        69
    } else {
        61
    }
}

pub open spec fn storage_words(s: StationStorage) -> Seq<u32> {
    seq![s.item_id, s.local_logic, s.remote_logic, s.max_count, s.reserved0, s.reserved1]
}

pub open spec fn storages_words(s: Seq<StationStorage>) -> Seq<u32>
    decreases s.len(),
{
    if s.len() == 0 {
        seq![]
    } else {
        storages_words(s.drop_last()) + storage_words(s.last())
    }
}

/// The words a parameter block occupies on the wire.
pub open spec fn param_words(p: ParamModel) -> Seq<u32> {
    match p {
        ParamModel::Station { storage, tail, .. } => storages_words(storage) + tail,
        ParamModel::Belt(None) => seq![],
        ParamModel::Belt(Some(w)) => w,
        ParamModel::Unknown(w) => w,
    }
}

/// The parameter shape a decoder produces for an item and its words:
/// a station when the item is one and its block holds the storage entries,
/// else a belt when the item is one, else the raw words.
pub open spec fn param_fits(item: u16, p: ParamModel) -> bool {
    let n = param_words(p).len();
    if is_station(item) && n >= 6 * storage_count(item) {
        p matches ParamModel::Station { interstellar, storage, .. } && interstellar
            == is_interstellar_station(item) && storage.len() == storage_count(item)
    } else if is_belt(item) {
        if n == 0 {
            p == ParamModel::Belt(None)
        } else {
            p is Belt && p->Belt_0 is Some
        }
    } else {
        p is Unknown
    }
}

/// A building as the decoder produces it: its parameter block has the shape
/// its item selects and exactly `parameter_count` words.
pub open spec fn building_wf(b: BuildingModel) -> bool {
    &&& param_words(b.param).len() == b.header.parameter_count
    &&& param_fits(b.header.item_id, b.param)
    &&& (!header_is_v2(b.header) ==> b.header.index_v2 == 0 && b.header.tilt_v2 == 0)
}

pub open spec fn enc_building(b: BuildingModel) -> Seq<u8> {
    enc_header(b.header) + words_bytes(param_words(b.param))
}

pub open spec fn enc_area(a: Area) -> Seq<u8> {
    seq![i8_bits(a.index), i8_bits(a.parent_index)] + le16(i16_bits(a.tropic_anchor)) + le16(
        i16_bits(a.area_segments),
    ) + le16(i16_bits(a.anchor_local_offset_x)) + le16(i16_bits(a.anchor_local_offset_y)) + le16(
        i16_bits(a.width),
    ) + le16(i16_bits(a.height))
}

pub open spec fn enc_areas(s: Seq<Area>) -> Seq<u8>
    decreases s.len(),
{
    if s.len() == 0 {
        seq![]
    } else {
        enc_areas(s.drop_last()) + enc_area(s.last())
    }
}

pub open spec fn enc_buildings(s: Seq<BuildingModel>) -> Seq<u8>
    decreases s.len(),
{
    if s.len() == 0 {
        seq![]
    } else {
        enc_buildings(s.drop_last()) + enc_building(s.last())
    }
}

/// The counts of a payload fit their wire fields.
pub open spec fn data_encodable(d: DataModel) -> bool {
    d.areas.len() <= 255 && d.buildings.len() <= 0x7fff_ffff
}

pub open spec fn enc_data_head(d: DataModel) -> Seq<u8> {
    le32(i32_bits(d.version)) + le32(i32_bits(d.cursor_offset_x)) + le32(
        i32_bits(d.cursor_offset_y),
    ) + le32(i32_bits(d.cursor_target_area)) + le32(i32_bits(d.drag_box_size_x)) + le32(
        i32_bits(d.drag_box_size_y),
    ) + le32(i32_bits(d.primary_area_idx))
}

/// Wire form of a payload: scalar head, areas after a one-byte count,
/// buildings after a four-byte count.
pub open spec fn enc_data(d: DataModel) -> Seq<u8> {
    enc_data_head(d) + seq![d.areas.len() as u8] + enc_areas(d.areas) + le32(
        d.buildings.len() as u32,
    ) + enc_buildings(d.buildings)
}

pub open spec fn data_wf(d: DataModel) -> bool {
    &&& data_encodable(d)
    &&& forall|i: int| 0 <= i < d.buildings.len() ==> building_wf(#[trigger] d.buildings[i])
}

} // verus!
